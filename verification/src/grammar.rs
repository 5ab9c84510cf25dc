//! The mathematical model of the CSV grammar: what the decoder, the cell
//! parser, the row parser and the whole parse return, as functions over
//! sequences of characters.

use vstd::prelude::*;

verus! {

/// Whitespace that may surround a quoted field: spaces and tabs.
pub open spec fn is_space(c: char) -> bool {
    c == ' ' || c == '\t'
}

/// A character that an unquoted cell may contain.
pub open spec fn is_cell_char(c: char) -> bool {
    c != ',' && c != '\n'
}

/// The length of the longest prefix of `s` whose characters satisfy `p`.
pub open spec fn char_run(p: spec_fn(char) -> bool, s: Seq<char>) -> nat
    decreases s.len(),
{
    if s.len() > 0 && p(s[0]) {
        1 + char_run(p, s.skip(1))
    } else {
        0
    }
}

/// The longest run of spaces and tabs at the front of `s`.
pub open spec fn space_run(s: Seq<char>) -> nat {
    char_run(|x: char| is_space(x), s)
}

/// The longest run of newline characters at the front of `s`.
pub open spec fn newline_run(s: Seq<char>) -> nat {
    char_run(|x: char| x == '\n', s)
}

/// The longest run of characters at the front of `s` that are neither a
/// comma nor a newline.
pub open spec fn unquoted_run(s: Seq<char>) -> nat {
    char_run(|x: char| is_cell_char(x), s)
}

pub proof fn lemma_char_run_le(p: spec_fn(char) -> bool, s: Seq<char>)
    ensures
        char_run(p, s) <= s.len(),
    decreases s.len(),
{
    if s.len() > 0 && p(s[0]) {
        lemma_char_run_le(p, s.skip(1));
    }
}

/// Every character before the run's end satisfies `p`, and the character at
/// its end, if any, does not.
pub proof fn lemma_char_run_props(p: spec_fn(char) -> bool, s: Seq<char>)
    ensures
        char_run(p, s) <= s.len(),
        forall|i: int| 0 <= i < char_run(p, s) ==> p(s[i]),
        char_run(p, s) < s.len() ==> !p(s[char_run(p, s) as int]),
    decreases s.len(),
{
    if s.len() > 0 && p(s[0]) {
        lemma_char_run_props(p, s.skip(1));
        assert(char_run(p, s) == 1 + char_run(p, s.skip(1)));
        assert forall|i: int| 1 <= i < char_run(p, s) implies p(s[i]) by {
            assert(s.skip(1)[i - 1] == s[i]);
            assert(p(s.skip(1)[i - 1]));
        }
        if char_run(p, s) < s.len() {
            assert(s.skip(1)[char_run(p, s) - 1] == s[char_run(p, s) as int]);
        }
    }
}

/// `char_run` is the unique boundary `j`: everything before `j` satisfies
/// `p`, and `j` is the end of the sequence or fails `p`.
pub proof fn lemma_char_run_at(p: spec_fn(char) -> bool, s: Seq<char>, j: int)
    requires
        0 <= j <= s.len(),
        forall|i: int| 0 <= i < j ==> p(s[i]),
        j == s.len() || !p(s[j]),
    ensures
        char_run(p, s) == j,
    decreases j,
{
    if j == 0 {
        if s.len() > 0 {
            assert(!p(s[0]));
        }
    } else {
        assert(p(s[0]));
        assert(forall|i: int| 0 <= i < j - 1 ==> s.skip(1)[i] == s[i + 1] && p(s[i + 1]));
        assert(j - 1 == s.skip(1).len() || !p(s.skip(1)[j - 1]));
        lemma_char_run_at(p, s.skip(1), j - 1);
    }
}

/// What the quoted-content decoder returns on the text after an opening
/// quote: the decoded interior, and the rest of the input starting at the
/// terminating lone quote (or empty if the input ran out). A doubled quote
/// decodes to one literal quote; every other character is kept verbatim.
pub open spec fn decode_quoted(s: Seq<char>) -> (Seq<char>, Seq<char>)
    decreases s.len(),
{
    if s.len() == 0 {
        (Seq::empty(), s)
    } else if s[0] != '"' {
        let r = decode_quoted(s.skip(1));
        (seq![s[0]] + r.0, r.1)
    } else if s.len() >= 2 && s[1] == '"' {
        let r = decode_quoted(s.skip(2));
        (seq!['"'] + r.0, r.1)
    } else {
        (Seq::empty(), s)
    }
}

/// The decoder never consumes past the end, and stops only at a quote.
pub proof fn lemma_decode_rest(s: Seq<char>)
    ensures
        decode_quoted(s).1.len() <= s.len(),
        decode_quoted(s).1.len() > 0 ==> decode_quoted(s).1[0] == '"',
    decreases s.len(),
{
    if s.len() == 0 {
    } else if s[0] != '"' {
        lemma_decode_rest(s.skip(1));
    } else if s.len() >= 2 && s[1] == '"' {
        lemma_decode_rest(s.skip(2));
    }
}

/// What the cell parser returns: the decoded cell value and the rest of the
/// input. A quoted field (optional whitespace, a quote, the decoded
/// interior, a closing quote or end of input, optional whitespace) is tried
/// first; otherwise the cell is the longest run of characters that are
/// neither comma nor newline, possibly empty.
pub open spec fn spec_cell(s: Seq<char>) -> (Seq<char>, Seq<char>) {
    let j = space_run(s) as int;
    if j < s.len() && s[j] == '"' {
        let d = decode_quoted(s.skip(j + 1));
        let r = if d.1.len() > 0 {
            d.1.skip(1)
        } else {
            d.1
        };
        (d.0, r.skip(space_run(r) as int))
    } else {
        let k = unquoted_run(s) as int;
        (s.take(k), s.skip(k))
    }
}

/// The cell parser never consumes past the end of the input.
pub proof fn lemma_cell_rest_le(s: Seq<char>)
    ensures
        spec_cell(s).1.len() <= s.len(),
{
    let j = space_run(s) as int;
    lemma_char_run_le(|x: char| is_space(x), s);
    if j < s.len() && s[j] == '"' {
        let d = decode_quoted(s.skip(j + 1));
        lemma_decode_rest(s.skip(j + 1));
        let r = if d.1.len() > 0 {
            d.1.skip(1)
        } else {
            d.1
        };
        lemma_char_run_le(|x: char| is_space(x), r);
    } else {
        lemma_char_run_le(|x: char| is_cell_char(x), s);
    }
}

/// A cell that starts at anything but a delimiter consumes at least one
/// character.
pub proof fn lemma_cell_progress(s: Seq<char>)
    requires
        s.len() > 0,
        s[0] != ',',
        s[0] != '\n',
    ensures
        spec_cell(s).1.len() < s.len(),
{
    let j = space_run(s) as int;
    lemma_char_run_le(|x: char| is_space(x), s);
    if j < s.len() && s[j] == '"' {
        let d = decode_quoted(s.skip(j + 1));
        lemma_decode_rest(s.skip(j + 1));
        let r = if d.1.len() > 0 {
            d.1.skip(1)
        } else {
            d.1
        };
        lemma_char_run_le(|x: char| is_space(x), r);
    } else {
        assert(is_cell_char(s[0]));
        assert(unquoted_run(s) > 0);
        lemma_char_run_le(|x: char| is_cell_char(x), s);
    }
}

/// What the row parser returns: the comma-separated cells from the front of
/// the input, and the rest of the input. A row always holds at least one
/// cell; empty input yields one empty cell.
pub open spec fn spec_row(s: Seq<char>) -> (Seq<Seq<char>>, Seq<char>)
    decreases s.len(),
{
    let c = spec_cell(s);
    if c.1.len() > 0 && c.1[0] == ',' {
        proof {
            lemma_cell_rest_le(s);
        }
        let r = spec_row(c.1.skip(1));
        (seq![c.0] + r.0, r.1)
    } else {
        (seq![c.0], c.1)
    }
}

/// The row parser never consumes past the end of the input.
pub proof fn lemma_row_rest_le(s: Seq<char>)
    ensures
        spec_row(s).1.len() <= s.len(),
    decreases s.len(),
{
    let c = spec_cell(s);
    lemma_cell_rest_le(s);
    if c.1.len() > 0 && c.1[0] == ',' {
        lemma_row_rest_le(c.1.skip(1));
    }
}

/// A row that starts at anything but a newline consumes at least one
/// character.
pub proof fn lemma_row_progress(s: Seq<char>)
    requires
        s.len() > 0,
        s[0] != '\n',
    ensures
        spec_row(s).1.len() < s.len(),
{
    let c = spec_cell(s);
    lemma_cell_rest_le(s);
    if s[0] == ',' {
        assert(space_run(s) == 0) by {
            lemma_char_run_at(|x: char| is_space(x), s, 0);
        }
        assert(unquoted_run(s) == 0) by {
            lemma_char_run_at(|x: char| is_cell_char(x), s, 0);
        }
        assert(c.1 =~= s);
        assert(c.1.len() > 0 && c.1[0] == ',');
        lemma_row_rest_le(c.1.skip(1));
    } else {
        lemma_cell_progress(s);
        if c.1.len() > 0 && c.1[0] == ',' {
            lemma_row_rest_le(c.1.skip(1));
        }
    }
}

/// A column-count mismatch, as the model states it: the 1-based line number
/// of the offending row, the column count the first row established, and
/// the count actually found.
pub struct Mismatch {
    pub line_no: int,
    pub expected_size: int,
    pub actual_size: int,
}

/// What parsing returns once the first row is in hand: rows are read from
/// the rest of the input, each after a run of newline separators, until the
/// input is exhausted or a row's cell count differs from `width`.
pub open spec fn spec_rows(s: Seq<char>, acc: Seq<Seq<Seq<char>>>, width: int) -> Result<
    Seq<Seq<Seq<char>>>,
    Mismatch,
>
    decreases s.len(),
{
    if s.len() == 0 {
        Ok(acc)
    } else {
        let t = s.skip(newline_run(s) as int);
        let r = spec_row(t);
        if r.0.len() as int != width {
            Err(
                Mismatch {
                    line_no: acc.len() as int + 1,
                    expected_size: width,
                    actual_size: r.0.len() as int,
                },
            )
        } else {
            proof {
                lemma_rows_progress(s);
            }
            spec_rows(r.1, acc.push(r.0), width)
        }
    }
}

/// One pass of the row loop consumes at least one character.
pub proof fn lemma_rows_progress(s: Seq<char>)
    requires
        s.len() > 0,
    ensures
        newline_run(s) <= s.len(),
        spec_row(s.skip(newline_run(s) as int)).1.len() < s.len(),
{
    let k = newline_run(s) as int;
    lemma_char_run_le(|c: char| c == '\n', s);
    let t = s.skip(k);
    lemma_row_rest_le(t);
    if k == 0 {
        assert(s[0] != '\n');
        lemma_row_progress(t);
        assert(t =~= s);
    }
}

/// What the whole parse returns: the table of decoded cells, or the first
/// column-count mismatch. The first row sets the expected column count;
/// the table holds every row parsed before the mismatch, in order.
pub open spec fn spec_parse(s: Seq<char>) -> Result<Seq<Seq<Seq<char>>>, Mismatch> {
    let first = spec_row(s);
    spec_rows(first.1, seq![first.0], first.0.len() as int)
}

} // verus!
