//! The executable parser, proved against the grammar model.

use vstd::prelude::*;

use crate::error::CSVError;
use crate::error::SizeError;
use crate::grammar::decode_quoted;
use crate::grammar::is_cell_char;
use crate::grammar::is_space;
use crate::grammar::lemma_cell_rest_le;
use crate::grammar::lemma_char_run_at;
use crate::grammar::lemma_rows_progress;
use crate::grammar::newline_run;
use crate::grammar::space_run;
use crate::grammar::spec_cell;
use crate::grammar::spec_parse;
use crate::grammar::spec_row;
use crate::grammar::spec_rows;
use crate::grammar::unquoted_run;

verus! {

/// Whether `c` is whitespace that may surround a quoted field.
fn is_space_char(c: char) -> (b: bool)
    ensures
        b == is_space(c),
{
    c == ' ' || c == '\t'
}

/// Whether `c` may stand in an unquoted cell.
fn is_unquoted_char(c: char) -> (b: bool)
    ensures
        b == is_cell_char(c),
{
    c != ',' && c != '\n'
}

/// Decodes the interior of a quoted field: doubled quotes become one
/// literal quote, everything else is kept verbatim, and decoding stops at
/// the first lone quote or at the end of the input. Returns the decoded
/// text and the rest of the input, starting at the terminating quote if
/// there was one.
pub fn match_inside_quotes<'a>(input: &'a str) -> (r: (String, &'a str))
    ensures
        r.0@ == decode_quoted(input@).0,
        r.1@ == decode_quoted(input@).1,
{
    let n: usize = input.unicode_len();
    let mut out = String::new();
    let mut i: usize = 0;
    proof {
        assert(input@.skip(0) =~= input@);
        assert(out@ + decode_quoted(input@).0 =~= decode_quoted(input@).0);
    }
    loop
        invariant
            i <= n,
            n == input@.len(),
            decode_quoted(input@).0 == out@ + decode_quoted(input@.skip(i as int)).0,
            decode_quoted(input@).1 == decode_quoted(input@.skip(i as int)).1,
        ensures
            i <= n,
            out@ == decode_quoted(input@).0,
            input@.skip(i as int) == decode_quoted(input@).1,
        decreases n - i,
    {
        if i == n {
            proof {
                assert(input@.skip(i as int) =~= Seq::<char>::empty());
                assert(out@ + decode_quoted(input@.skip(i as int)).0 =~= out@);
            }
            break ;
        }
        let c = input.get_char(i);
        let ghost tail = input@.skip(i as int);
        proof {
            assert(tail[0] == input@[i as int]);
        }
        if c != '"' {
            let piece = input.substring_char(i, i + 1);
            proof {
                assert(piece@ =~= seq![input@[i as int]]);
                assert(tail.skip(1) =~= input@.skip(i as int + 1));
                assert(decode_quoted(tail).0 == seq![tail[0]] + decode_quoted(tail.skip(1)).0);
                assert(out@ + piece@ + decode_quoted(input@.skip(i as int + 1)).0 =~= out@
                    + decode_quoted(tail).0);
            }
            out.append(piece);
            i = i + 1;
        } else if i + 1 < n && input.get_char(i + 1) == '"' {
            proof {
                reveal_strlit("\"");
                assert(("\"")@ =~= seq!['"']);
                assert(tail[1] == input@[i as int + 1]);
                assert(tail.skip(2) =~= input@.skip(i as int + 2));
                assert(decode_quoted(tail).0 == seq!['"'] + decode_quoted(tail.skip(2)).0);
                assert(out@ + ("\"")@ + decode_quoted(input@.skip(i as int + 2)).0 =~= out@
                    + decode_quoted(tail).0);
            }
            out.append("\"");
            i = i + 2;
        } else {
            proof {
                assert(tail.len() >= 2 ==> tail[1] == input@[i as int + 1]);
                assert(decode_quoted(tail).0 =~= Seq::<char>::empty());
                assert(out@ + decode_quoted(tail).0 =~= out@);
            }
            break ;
        }
    }
    let rest = input.substring_char(i, n);
    proof {
        assert(rest@ =~= input@.skip(i as int));
    }
    (out, rest)
}

/// Parses one cell: a quoted field with its surrounding whitespace
/// stripped, if the input (after optional whitespace) starts with a quote;
/// otherwise the longest run of characters that are neither comma nor
/// newline, possibly empty. Returns the decoded cell value and the rest of
/// the input.
pub fn cell<'a>(input: &'a str) -> (r: (String, &'a str))
    ensures
        r.0@ == spec_cell(input@).0,
        r.1@ == spec_cell(input@).1,
{
    let n: usize = input.unicode_len();
    let mut j: usize = 0;
    while j < n && is_space_char(input.get_char(j))
        invariant
            j <= n,
            n == input@.len(),
            forall|i: int| 0 <= i < j ==> is_space(input@[i]),
        decreases n - j,
    {
        j = j + 1;
    }
    proof {
        lemma_char_run_at(|x: char| is_space(x), input@, j as int);
        assert(space_run(input@) == j);
    }
    if j < n && input.get_char(j) == '"' {
        let inner = input.substring_char(j + 1, n);
        proof {
            assert(inner@ =~= input@.skip(j as int + 1));
        }
        let (val, rest1) = match_inside_quotes(inner);
        let m: usize = rest1.unicode_len();
        let k: usize = if m > 0 {
            1
        } else {
            0
        };
        let mut t: usize = k;
        while t < m && is_space_char(rest1.get_char(t))
            invariant
                k <= t <= m,
                k <= 1,
                m == rest1@.len(),
                forall|i: int| k <= i < t ==> is_space(rest1@[i]),
            decreases m - t,
        {
            t = t + 1;
        }
        let ghost r2 = rest1@.skip(k as int);
        proof {
            assert(forall|i: int| 0 <= i < r2.len() ==> r2[i] == rest1@[i + k]);
            lemma_char_run_at(|x: char| is_space(x), r2, t as int - k as int);
            assert(space_run(r2) == t - k);
        }
        let rest = rest1.substring_char(t, m);
        proof {
            let d = decode_quoted(input@.skip(j as int + 1));
            assert(rest1@ == d.1);
            assert(r2 =~= (if d.1.len() > 0 {
                d.1.skip(1)
            } else {
                d.1
            }));
            assert(rest@ =~= r2.skip(space_run(r2) as int));
            assert(val@ == spec_cell(input@).0);
            assert(rest@ == spec_cell(input@).1);
        }
        (val, rest)
    } else {
        let mut k2: usize = 0;
        while k2 < n && is_unquoted_char(input.get_char(k2))
            invariant
                k2 <= n,
                n == input@.len(),
                forall|i: int| 0 <= i < k2 ==> is_cell_char(input@[i]),
            decreases n - k2,
        {
            k2 = k2 + 1;
        }
        proof {
            lemma_char_run_at(|x: char| is_cell_char(x), input@, k2 as int);
            assert(unquoted_run(input@) == k2);
        }
        let val = input.substring_char(0, k2).to_owned();
        let rest = input.substring_char(k2, n);
        proof {
            assert(val@ =~= input@.take(k2 as int));
            assert(rest@ =~= input@.skip(k2 as int));
        }
        (val, rest)
    }
}

/// Splits the front of the input into comma-separated cells: one cell, then
/// another after each comma. Returns the decoded cells and the rest of the
/// input. Every input yields at least one cell; an empty input yields one
/// empty cell.
pub fn many_cells<'a>(input: &'a str) -> (r: (Vec<String>, &'a str))
    ensures
        r.0.deep_view() == spec_row(input@).0,
        r.1@ == spec_row(input@).1,
{
    let mut cells: Vec<String> = Vec::new();
    let mut cur: &str = input;
    proof {
        assert(cells.deep_view() =~= Seq::<Seq<char>>::empty());
        assert(spec_row(input@).0 =~= cells.deep_view() + spec_row(cur@).0);
    }
    loop
        invariant
            spec_row(input@).0 == cells.deep_view() + spec_row(cur@).0,
            spec_row(input@).1 == spec_row(cur@).1,
        decreases cur@.len(),
    {
        let ghost prev_cells = cells.deep_view();
        let ghost prev = cur@;
        let (v, rest) = cell(cur);
        let ghost v_chars = v@;
        let m: usize = rest.unicode_len();
        cells.push(v);
        proof {
            assert(cells.deep_view() =~= prev_cells.push(v_chars));
        }
        if m > 0 && rest.get_char(0) == ',' {
            cur = rest.substring_char(1, m);
            proof {
                lemma_cell_rest_le(prev);
                assert(cur@ =~= spec_cell(prev).1.skip(1));
                assert(spec_row(prev).0 == seq![spec_cell(prev).0] + spec_row(cur@).0);
                assert(spec_row(prev).1 == spec_row(cur@).1);
                assert(spec_row(input@).0 =~= cells.deep_view() + spec_row(cur@).0);
            }
        } else {
            proof {
                assert(spec_row(prev).0 == seq![spec_cell(prev).0]);
                assert(spec_row(prev).1 == spec_cell(prev).1);
                assert(cells.deep_view() =~= spec_row(input@).0);
            }
            return (cells, rest);
        }
    }
}

/// Consumes the run of newline characters at the front of the input and
/// returns what follows it.
pub fn consume_newlines<'a>(input: &'a str) -> (r: &'a str)
    ensures
        r@ == input@.skip(newline_run(input@) as int),
{
    let n: usize = input.unicode_len();
    let mut k: usize = 0;
    while k < n && input.get_char(k) == '\n'
        invariant
            k <= n,
            n == input@.len(),
            forall|i: int| 0 <= i < k ==> input@[i] == '\n',
        decreases n - k,
    {
        k = k + 1;
    }
    proof {
        lemma_char_run_at(|x: char| x == '\n', input@, k as int);
        assert(newline_run(input@) == k);
    }
    let rest = input.substring_char(k, n);
    proof {
        assert(rest@ =~= input@.skip(k as int));
    }
    rest
}

/// Parses a full CSV text into a table of decoded cells.
///
/// The first row establishes the expected column count. Each further row is
/// read after a run of newline separators; the first row whose cell count
/// differs stops the parse with a column-count error carrying its 1-based
/// line number, the expected count and the actual count. If every row
/// matches, the whole table is returned.
pub fn parse_csv(input: &str) -> (r: Result<Vec<Vec<String>>, CSVError>)
    ensures
        spec_parse(input@) is Ok ==> r is Ok && r->Ok_0.deep_view() == spec_parse(input@)->Ok_0,
        spec_parse(input@) is Err ==> ({
            let e = spec_parse(input@)->Err_0;
            &&& r is Err
            &&& (r->Err_0 matches CSVError::UnequalColumns(se) && se.line_no as int == e.line_no
                && se.expected_size as int == e.expected_size && se.actual_size as int
                == e.actual_size)
        }),
{
    let (row0, rest0) = many_cells(input);
    let expected: usize = row0.len();
    proof {
        assert(row0.deep_view().len() == row0@.len());
        assert(expected as int == spec_row(input@).0.len());
    }
    let mut out: Vec<Vec<String>> = Vec::new();
    out.push(row0);
    let mut cur: &str = rest0;
    proof {
        assert(out.deep_view() =~= seq![spec_row(input@).0]);
    }
    loop
        invariant
            expected as int == spec_row(input@).0.len(),
            spec_parse(input@) == spec_rows(cur@, out.deep_view(), expected as int),
        decreases cur@.len(),
    {
        let n: usize = cur.unicode_len();
        if n == 0 {
            proof {
                assert(spec_rows(cur@, out.deep_view(), expected as int) == Ok::<
                    Seq<Seq<Seq<char>>>,
                    crate::grammar::Mismatch,
                >(out.deep_view()));
            }
            return Ok(out);
        }
        let ghost prev = cur@;
        let ghost acc = out.deep_view();
        let after_nl = consume_newlines(cur);
        let (row, rest) = many_cells(after_nl);
        let actual: usize = row.len();
        out.push(row);
        proof {
            assert(out.deep_view() =~= acc.push(spec_row(after_nl@).0));
            lemma_rows_progress(prev);
        }
        if actual != expected {
            let line_no: usize = out.len();
            proof {
                assert(spec_rows(prev, acc, expected as int) matches Err(e) && e.line_no
                    == acc.len() + 1 && e.expected_size == expected as int && e.actual_size
                    == actual as int);
                assert(line_no as int == acc.len() + 1);
            }
            return Err(
                CSVError::UnequalColumns(
                    SizeError { line_no, expected_size: expected, actual_size: actual },
                ),
            );
        } else {
            cur = rest;
            proof {
                assert(spec_rows(prev, acc, expected as int) == spec_rows(
                    cur@,
                    out.deep_view(),
                    expected as int,
                ));
            }
        }
    }
}

} // verus!
