//! General properties of the parser, stated and proved against the grammar
//! model: doubled-quote escaping and its full encode/decode round trip,
//! determinism, rectangularity of every returned table, the exact table
//! returned on rectangular input — plain or fully quoted — and the exact
//! error returned on the first row whose column count differs.

use vstd::prelude::*;

use crate::grammar::decode_quoted;
use crate::grammar::is_cell_char;
use crate::grammar::is_space;
use crate::grammar::lemma_char_run_at;
use crate::grammar::lemma_char_run_props;
use crate::grammar::newline_run;
use crate::grammar::space_run;
use crate::grammar::spec_cell;
use crate::grammar::spec_parse;
use crate::grammar::spec_row;
use crate::grammar::spec_rows;
use crate::grammar::unquoted_run;
use crate::grammar::Mismatch;

verus! {

/// A sequence of `n` quote characters.
pub open spec fn quote_chars(n: nat) -> Seq<char> {
    Seq::new(n, |i: int| '"')
}

/// Doubled-quote escaping round-trips: an interior holding an even number
/// of consecutive quote characters decodes to half as many literal quotes,
/// consuming all of them.
pub proof fn lemma_doubled_quotes(n: nat)
    ensures
        decode_quoted(quote_chars(2 * n)).0 == quote_chars(n),
        decode_quoted(quote_chars(2 * n)).1 == Seq::<char>::empty(),
    decreases n,
{
    if n == 0 {
        assert(quote_chars(0) =~= Seq::<char>::empty());
        assert(decode_quoted(quote_chars(2 * n)).0 =~= quote_chars(n));
    } else {
        let s = quote_chars(2 * n);
        assert(s[0] == '"' && s.len() >= 2 && s[1] == '"');
        assert(s.skip(2) =~= quote_chars(2 * (n - 1) as nat));
        lemma_doubled_quotes((n - 1) as nat);
        assert(decode_quoted(s).0 =~= seq!['"'] + quote_chars((n - 1) as nat));
        assert(decode_quoted(s).0 =~= quote_chars(n));
    }
}

/// The interior text of a quoted field holding `v`: every quote character
/// of `v` doubled, everything else verbatim.
pub open spec fn encode_quoted(v: Seq<char>) -> Seq<char>
    decreases v.len(),
{
    if v.len() == 0 {
        Seq::empty()
    } else if v[0] == '"' {
        seq!['"', '"'] + encode_quoted(v.skip(1))
    } else {
        seq![v[0]] + encode_quoted(v.skip(1))
    }
}

/// Doubled-quote escaping round-trips in full: decoding an encoded interior
/// yields the value back, stops exactly at its end, and leaves the rest —
/// the closing lone quote, or nothing — untouched.
pub proof fn lemma_decode_encode(v: Seq<char>, r: Seq<char>)
    requires
        r.len() == 0 || (r[0] == '"' && (r.len() == 1 || r[1] != '"')),
    ensures
        decode_quoted(encode_quoted(v) + r) == (v, r),
    decreases v.len(),
{
    if v.len() == 0 {
        assert(encode_quoted(v) + r =~= r);
        assert(decode_quoted(r).0 =~= v);
    } else if v[0] == '"' {
        let s = encode_quoted(v) + r;
        assert(s[0] == '"' && s[1] == '"');
        assert(s.skip(2) =~= encode_quoted(v.skip(1)) + r);
        lemma_decode_encode(v.skip(1), r);
        assert(decode_quoted(s).0 =~= seq!['"'] + v.skip(1));
        assert(decode_quoted(s).0 =~= v);
    } else {
        let s = encode_quoted(v) + r;
        assert(s[0] == v[0]);
        assert(s.skip(1) =~= encode_quoted(v.skip(1)) + r);
        lemma_decode_encode(v.skip(1), r);
        assert(decode_quoted(s).0 =~= seq![v[0]] + v.skip(1));
        assert(decode_quoted(s).0 =~= v);
    }
}

/// The text of a quoted field holding the value `v`: an opening quote, the
/// encoded interior, a closing quote.
pub open spec fn quote_cell(v: Seq<char>) -> Seq<char> {
    seq!['"'] + encode_quoted(v) + seq!['"']
}

/// A quoted field round-trips through the cell parser: it yields exactly
/// the value it was built from and leaves what follows — nothing, a comma
/// or a newline — untouched.
pub proof fn lemma_cell_round_trip(v: Seq<char>, rest: Seq<char>)
    requires
        rest.len() == 0 || rest[0] == ',' || rest[0] == '\n',
    ensures
        spec_cell(quote_cell(v) + rest) == (v, rest),
{
    let s = quote_cell(v) + rest;
    assert(s[0] == '"');
    assert(!is_space(s[0]));
    lemma_char_run_at(|x: char| is_space(x), s, 0);
    assert(space_run(s) == 0);
    let close = seq!['"'] + rest;
    assert(close[0] == '"' && (close.len() == 1 || close[1] != '"'));
    assert(s.skip(1) =~= encode_quoted(v) + close);
    lemma_decode_encode(v, close);
    let d = decode_quoted(s.skip(1));
    assert(d == (v, close));
    assert(d.1.skip(1) =~= rest);
    if rest.len() > 0 {
        assert(!is_space(rest[0]));
    }
    lemma_char_run_at(|x: char| is_space(x), rest, 0);
    assert(space_run(rest) == 0);
    assert(rest.skip(0) =~= rest);
    assert(spec_cell(s).0 == v);
    assert(spec_cell(s).1 == rest);
}

/// One row of quoted fields: the cells' quoted texts joined with commas.
pub open spec fn join_quoted_row(vs: Seq<Seq<char>>) -> Seq<char>
    decreases vs.len(),
{
    if vs.len() == 0 {
        Seq::empty()
    } else if vs.len() == 1 {
        quote_cell(vs[0])
    } else {
        quote_cell(vs[0]) + seq![','] + join_quoted_row(vs.skip(1))
    }
}

/// A row of quoted fields round-trips through the row parser: it yields
/// exactly the values it was built from, whatever characters — commas,
/// newlines, quotes — those values hold.
pub proof fn lemma_row_round_trip(vs: Seq<Seq<char>>, r: Seq<char>)
    requires
        vs.len() >= 1,
        r.len() == 0 || r[0] == '\n',
    ensures
        spec_row(join_quoted_row(vs) + r) == (vs, r),
    decreases vs.len(),
{
    let s = join_quoted_row(vs) + r;
    if vs.len() == 1 {
        assert(s =~= quote_cell(vs[0]) + r);
        lemma_cell_round_trip(vs[0], r);
        assert(!(r.len() > 0 && r[0] == ','));
        assert(spec_row(s).0 =~= vs);
    } else {
        let rest0 = seq![','] + (join_quoted_row(vs.skip(1)) + r);
        assert(s =~= quote_cell(vs[0]) + rest0);
        assert(rest0[0] == ',');
        lemma_cell_round_trip(vs[0], rest0);
        let c = spec_cell(s);
        assert(c.1 == rest0 && c.1.len() > 0 && c.1[0] == ',');
        assert(c.1.skip(1) =~= join_quoted_row(vs.skip(1)) + r);
        lemma_row_round_trip(vs.skip(1), r);
        assert(spec_row(s).0 =~= seq![vs[0]] + vs.skip(1));
        assert(spec_row(s).0 =~= vs);
        assert(spec_row(s).1 == r);
    }
}

/// A full table of quoted fields: the rows' texts joined with newlines.
pub open spec fn join_quoted_table(table: Seq<Seq<Seq<char>>>) -> Seq<char>
    decreases table.len(),
{
    if table.len() == 0 {
        Seq::empty()
    } else if table.len() == 1 {
        join_quoted_row(table[0])
    } else {
        join_quoted_row(table[0]) + seq!['\n'] + join_quoted_table(table.skip(1))
    }
}

/// What remains once a row of the quoted table is parsed.
pub open spec fn pending_quoted(table: Seq<Seq<Seq<char>>>) -> Seq<char> {
    if table.len() == 0 {
        Seq::empty()
    } else {
        seq!['\n'] + join_quoted_table(table)
    }
}

proof fn lemma_join_quoted_unfold(table: Seq<Seq<Seq<char>>>)
    requires
        table.len() >= 1,
    ensures
        join_quoted_table(table) == join_quoted_row(table[0]) + pending_quoted(table.skip(1)),
{
    let head = table[0];
    let tail = table.skip(1);
    if table.len() == 1 {
        assert(pending_quoted(tail) =~= Seq::<char>::empty());
        assert(join_quoted_row(head) + pending_quoted(tail) =~= join_quoted_row(head));
    } else {
        assert(join_quoted_table(table) == join_quoted_row(head) + seq!['\n']
            + join_quoted_table(tail));
        assert(join_quoted_row(head) + seq!['\n'] + join_quoted_table(tail) =~= join_quoted_row(
            head,
        ) + (seq!['\n'] + join_quoted_table(tail)));
    }
}

proof fn lemma_rows_round_trip(table: Seq<Seq<Seq<char>>>, acc: Seq<Seq<Seq<char>>>, w: int)
    requires
        forall|i: int| 0 <= i < table.len() ==> (#[trigger] table[i]).len() == w,
        w >= 1,
    ensures
        spec_rows(pending_quoted(table), acc, w) == Ok::<Seq<Seq<Seq<char>>>, Mismatch>(
            acc + table,
        ),
    decreases table.len(),
{
    if table.len() == 0 {
        assert(acc + table =~= acc);
    } else {
        let s = pending_quoted(table);
        let head = table[0];
        let tail = table.skip(1);
        assert(head.len() == w && w >= 1);
        assert(s[0] == '\n');
        assert(join_quoted_table(table)[0] == '"') by {
            assert(quote_cell(head[0])[0] == '"');
            if table.len() == 1 {
                assert(join_quoted_table(table) == join_quoted_row(head));
                if head.len() == 1 {
                } else {
                    assert(join_quoted_row(head) == quote_cell(head[0]) + seq![',']
                        + join_quoted_row(head.skip(1)));
                }
            } else {
                assert(join_quoted_table(table) == join_quoted_row(head) + seq!['\n']
                    + join_quoted_table(tail));
                if head.len() == 1 {
                } else {
                    assert(join_quoted_row(head) == quote_cell(head[0]) + seq![',']
                        + join_quoted_row(head.skip(1)));
                }
            }
        }
        assert(s[1] == join_quoted_table(table)[0]);
        lemma_char_run_at(|x: char| x == '\n', s, 1);
        assert(newline_run(s) == 1);
        let t = s.skip(1);
        assert(t =~= join_quoted_table(table));
        lemma_join_quoted_unfold(table);
        lemma_row_round_trip(head, pending_quoted(tail));
        assert(spec_row(t) == (head, pending_quoted(tail)));
        assert(forall|i: int| 0 <= i < tail.len() ==> tail[i] == table[i + 1]);
        lemma_rows_round_trip(tail, acc.push(head), w);
        assert(acc.push(head) + tail =~= acc + table);
    }
}

/// A whole table round-trips: any rectangular table of values, rendered
/// with every cell quoted, rows joined by newlines, parses back to exactly
/// that table — embedded commas, newlines and quotes included, and the
/// embedded newlines do not add rows.
pub proof fn lemma_table_round_trip(table: Seq<Seq<Seq<char>>>)
    requires
        table.len() >= 1,
        table[0].len() >= 1,
        forall|i: int| 0 <= i < table.len() ==> (#[trigger] table[i]).len() == table[0].len(),
    ensures
        spec_parse(join_quoted_table(table)) == Ok::<Seq<Seq<Seq<char>>>, Mismatch>(table),
{
    let head = table[0];
    let tail = table.skip(1);
    let w = head.len() as int;
    lemma_join_quoted_unfold(table);
    lemma_row_round_trip(head, pending_quoted(tail));
    assert(forall|i: int| 0 <= i < tail.len() ==> tail[i] == table[i + 1]);
    lemma_rows_round_trip(tail, seq![head], w);
    assert(seq![head] + tail =~= table);
}

/// Parsing has no hidden state: the outcome is a function of the text
/// alone, so re-parsing equal text yields an identical outcome.
pub proof fn lemma_parse_deterministic(a: Seq<char>, b: Seq<char>)
    requires
        a == b,
    ensures
        spec_parse(a) == spec_parse(b),
{
}

proof fn lemma_rows_rectangular(s: Seq<char>, acc: Seq<Seq<Seq<char>>>, w: int, t: Seq<Seq<Seq<char>>>)
    requires
        spec_rows(s, acc, w) == Ok::<Seq<Seq<Seq<char>>>, Mismatch>(t),
        forall|i: int| 0 <= i < acc.len() ==> (#[trigger] acc[i]).len() == w,
    ensures
        t.len() >= acc.len(),
        forall|i: int| 0 <= i < acc.len() ==> t[i] == acc[i],
        forall|i: int| 0 <= i < t.len() ==> (#[trigger] t[i]).len() == w,
    decreases s.len(),
{
    if s.len() == 0 {
    } else {
        let rest = s.skip(newline_run(s) as int);
        let r = spec_row(rest);
        crate::grammar::lemma_rows_progress(s);
        assert(forall|i: int|
            0 <= i < acc.push(r.0).len() ==> (#[trigger] acc.push(r.0)[i]).len() == w);
        lemma_rows_rectangular(r.1, acc.push(r.0), w, t);
    }
}

/// Every table a successful parse returns is rectangular: it has at least
/// one row, and every row has exactly as many cells as the first row.
pub proof fn lemma_table_rectangular(s: Seq<char>)
    requires
        spec_parse(s) is Ok,
    ensures
        spec_parse(s)->Ok_0.len() >= 1,
        forall|i: int| 0 <= i < spec_parse(s)->Ok_0.len() ==> (#[trigger] spec_parse(s)->Ok_0[i]).len()
            == spec_parse(s)->Ok_0[0].len(),
{
    let first = spec_row(s);
    let t = spec_parse(s)->Ok_0;
    lemma_rows_rectangular(first.1, seq![first.0], first.0.len() as int, t);
    assert(t[0] == first.0);
}

/// A line of plain rectangular input: it contains no newline and no quote,
/// so its cells are exactly the runs between its commas.
pub open spec fn plain_chars(l: Seq<char>) -> bool {
    forall|i: int| 0 <= i < l.len() ==> l[i] != '\n' && l[i] != '"'
}

/// The cells of a plain line: the text split at its commas.
pub open spec fn comma_split(l: Seq<char>) -> Seq<Seq<char>>
    decreases l.len(),
{
    let k = unquoted_run(l) as int;
    if 0 <= k < l.len() {
        seq![l.take(k)] + comma_split(l.skip(k + 1))
    } else {
        seq![l]
    }
}

/// The input text formed by joining `lines` with single newline separators.
pub open spec fn join_lines(lines: Seq<Seq<char>>) -> Seq<char>
    decreases lines.len(),
{
    if lines.len() == 0 {
        Seq::empty()
    } else if lines.len() == 1 {
        lines[0]
    } else {
        lines[0] + seq!['\n'] + join_lines(lines.skip(1))
    }
}

/// What remains to parse once a row is done: nothing, or a newline
/// separator followed by the remaining lines.
pub open spec fn pending_lines(lines: Seq<Seq<char>>) -> Seq<char> {
    if lines.len() == 0 {
        Seq::empty()
    } else {
        seq!['\n'] + join_lines(lines)
    }
}

/// The table that rectangular input should parse to: one row of
/// comma-split cells per line.
pub open spec fn split_table(lines: Seq<Seq<char>>) -> Seq<Seq<Seq<char>>> {
    Seq::new(lines.len(), |i: int| comma_split(lines[i]))
}

proof fn lemma_join_unfold(lines: Seq<Seq<char>>)
    requires
        lines.len() >= 1,
    ensures
        join_lines(lines) == lines[0] + pending_lines(lines.skip(1)),
{
    let head = lines[0];
    let tail = lines.skip(1);
    if lines.len() == 1 {
        assert(pending_lines(tail) =~= Seq::<char>::empty());
        assert(head + pending_lines(tail) =~= head);
    } else {
        assert(join_lines(lines) == head + seq!['\n'] + join_lines(tail));
        assert(head + seq!['\n'] + join_lines(tail) =~= head + (seq!['\n'] + join_lines(tail)));
    }
}

/// On a plain line followed by nothing or a newline, the row parser returns
/// exactly the line's comma-split cells and leaves the rest untouched.
#[verifier::rlimit(50)]
pub proof fn lemma_row_on_plain_line(l: Seq<char>, r: Seq<char>)
    requires
        plain_chars(l),
        r.len() == 0 || r[0] == '\n',
    ensures
        spec_row(l + r) == (comma_split(l), r),
    decreases l.len(),
{
    let s = l + r;
    let j = space_run(s) as int;
    lemma_char_run_props(|x: char| is_space(x), s);
    if j > l.len() {
        assert(is_space(s[l.len() as int]));
        assert(false);
    }
    if j < s.len() {
        if j < l.len() {
            assert(s[j] == l[j]);
        } else {
            assert(s[j] == r[0]);
        }
        assert(s[j] != '"');
    }
    let k = unquoted_run(s) as int;
    lemma_char_run_props(|x: char| is_cell_char(x), s);
    if k > l.len() {
        assert(is_cell_char(s[l.len() as int]));
        assert(false);
    }
    assert forall|i: int| 0 <= i < k implies l[i] == s[i] && is_cell_char(l[i]) by {
        assert(s[i] == l[i]);
        assert((|x: char| is_cell_char(x))(s[i]));
    }
    if k < l.len() {
        assert(!is_cell_char(s[k]) && s[k] == l[k]);
        lemma_char_run_at(|x: char| is_cell_char(x), l, k);
        assert(l[k] == ',');
        let c = spec_cell(s);
        assert(c.1 =~= s.skip(k));
        assert(c.1[0] == ',');
        assert(c.1.skip(1) =~= l.skip(k + 1) + r);
        assert(forall|i: int|
            0 <= i < l.skip(k + 1).len() ==> #[trigger] l.skip(k + 1)[i] == l[i + k + 1]);
        assert(plain_chars(l.skip(k + 1)));
        lemma_row_on_plain_line(l.skip(k + 1), r);
        assert(c.0 =~= l.take(k));
        assert(spec_row(s).0 =~= seq![l.take(k)] + comma_split(l.skip(k + 1)));
        assert(spec_row(s).0 =~= comma_split(l));
        assert(spec_row(s).1 == r);
    } else {
        lemma_char_run_at(|x: char| is_cell_char(x), l, k);
        let c = spec_cell(s);
        assert(c.1 =~= r);
        assert(!(c.1.len() > 0 && c.1[0] == ','));
        assert(c.0 =~= l);
        assert(comma_split(l) =~= seq![l]);
        assert(spec_row(s).0 =~= comma_split(l));
        assert(spec_row(s).1 == r);
    }
}

proof fn lemma_rows_on_plain_lines(lines: Seq<Seq<char>>, acc: Seq<Seq<Seq<char>>>, w: int)
    requires
        forall|i: int| 0 <= i < lines.len() ==> plain_chars(#[trigger] lines[i]) && lines[i].len()
            > 0,
        forall|i: int| 0 <= i < lines.len() ==> comma_split(#[trigger] lines[i]).len() == w,
    ensures
        spec_rows(pending_lines(lines), acc, w) == Ok::<Seq<Seq<Seq<char>>>, Mismatch>(
            acc + split_table(lines),
        ),
    decreases lines.len(),
{
    if lines.len() == 0 {
        assert(acc + split_table(lines) =~= acc);
    } else {
        let s = pending_lines(lines);
        let head = lines[0];
        let tail = lines.skip(1);
        assert(plain_chars(head) && head.len() > 0);
        assert(forall|i: int|
            0 <= i < tail.len() ==> plain_chars(#[trigger] tail[i]) && tail[i].len() > 0
                && comma_split(tail[i]).len() == w) by {
            assert(forall|i: int| 0 <= i < tail.len() ==> tail[i] == lines[i + 1]);
        }
        assert(s[0] == '\n');
        lemma_join_unfold(lines);
        assert(join_lines(lines)[0] == head[0]);
        assert(s[1] == join_lines(lines)[0]);
        assert(head[0] != '\n');
        lemma_char_run_at(|x: char| x == '\n', s, 1);
        assert(newline_run(s) == 1);
        let t = s.skip(1);
        assert(t =~= join_lines(lines));
        lemma_join_unfold(lines);
        lemma_row_on_plain_line(head, pending_lines(tail));
        assert(spec_row(t) == (comma_split(head), pending_lines(tail)));
        lemma_rows_on_plain_lines(tail, acc.push(comma_split(head)), w);
        assert(acc.push(comma_split(head)) + split_table(tail) =~= acc + split_table(lines));
    }
}

#[verifier::rlimit(50)]
proof fn lemma_rows_on_mismatch(lines: Seq<Seq<char>>, acc: Seq<Seq<Seq<char>>>, w: int, m: int)
    requires
        0 <= m < lines.len(),
        forall|i: int| 0 <= i <= m ==> plain_chars(#[trigger] lines[i]) && lines[i].len() > 0,
        forall|i: int| 0 <= i < m ==> comma_split(#[trigger] lines[i]).len() == w,
        comma_split(lines[m]).len() as int != w,
    ensures
        spec_rows(pending_lines(lines), acc, w) == Err::<Seq<Seq<Seq<char>>>, Mismatch>(
            Mismatch {
                line_no: acc.len() as int + 1 + m,
                expected_size: w,
                actual_size: comma_split(lines[m]).len() as int,
            },
        ),
    decreases m,
{
    let s = pending_lines(lines);
    let head = lines[0];
    let tail = lines.skip(1);
    assert(plain_chars(head) && head.len() > 0);
    assert(s[0] == '\n');
    lemma_join_unfold(lines);
    assert(join_lines(lines)[0] == head[0]);
    assert(s[1] == join_lines(lines)[0]);
    assert(head[0] != '\n');
    lemma_char_run_at(|x: char| x == '\n', s, 1);
    assert(newline_run(s) == 1);
    let t = s.skip(1);
    assert(t =~= join_lines(lines));
    lemma_join_unfold(lines);
    lemma_row_on_plain_line(head, pending_lines(tail));
    assert(spec_row(t) == (comma_split(head), pending_lines(tail)));
    if m == 0 {
        assert(spec_rows(s, acc, w) == Err::<Seq<Seq<Seq<char>>>, Mismatch>(
            Mismatch {
                line_no: acc.len() as int + 1,
                expected_size: w,
                actual_size: comma_split(head).len() as int,
            },
        ));
    } else {
        assert(forall|i: int| 0 <= i < tail.len() ==> tail[i] == lines[i + 1]);
        lemma_rows_on_mismatch(tail, acc.push(comma_split(head)), w, m - 1);
    }
}

/// The first offending row stops the parse: on newline-separated lines that
/// are plain and nonempty up to line `m` (0-based), where every line before
/// `m` splits at commas into as many cells as the first line and line `m`
/// does not, the parse returns exactly the column-count error for line
/// `m + 1` (1-based) — whatever text follows line `m`.
#[verifier::rlimit(50)]
pub proof fn lemma_parse_mismatch(lines: Seq<Seq<char>>, m: int)
    requires
        1 <= m < lines.len(),
        forall|i: int| 0 <= i <= m ==> plain_chars(#[trigger] lines[i]) && lines[i].len() > 0,
        forall|i: int| 0 <= i < m ==> comma_split(#[trigger] lines[i]).len() == comma_split(
            lines[0],
        ).len(),
        comma_split(lines[m]).len() != comma_split(lines[0]).len(),
    ensures
        spec_parse(join_lines(lines)) == Err::<Seq<Seq<Seq<char>>>, Mismatch>(
            Mismatch {
                line_no: m + 1,
                expected_size: comma_split(lines[0]).len() as int,
                actual_size: comma_split(lines[m]).len() as int,
            },
        ),
{
    let head = lines[0];
    let tail = lines.skip(1);
    let w = comma_split(head).len() as int;
    assert(plain_chars(head) && head.len() > 0);
    assert(forall|i: int|
        0 <= i <= m - 1 ==> plain_chars(#[trigger] tail[i]) && tail[i].len() > 0) by {
        assert(forall|i: int| 0 <= i < tail.len() ==> tail[i] == lines[i + 1]);
    }
    assert(forall|i: int| 0 <= i < m - 1 ==> comma_split(#[trigger] tail[i]).len() == w) by {
        assert(forall|i: int| 0 <= i < tail.len() ==> tail[i] == lines[i + 1]);
    }
    assert(tail[m - 1] == lines[m]);
    lemma_join_unfold(lines);
    lemma_row_on_plain_line(head, pending_lines(tail));
    lemma_rows_on_mismatch(tail, seq![comma_split(head)], w, m - 1);
}

/// Rectangular input parses to a table of the same shape: for lines that
/// contain no quote and no newline, are not empty, and split at commas into
/// equally many cells, the parse succeeds with one row per line, and each
/// row holds exactly that line's comma-split cells.
pub proof fn lemma_parse_rectangular(lines: Seq<Seq<char>>)
    requires
        lines.len() >= 1,
        forall|i: int| 0 <= i < lines.len() ==> plain_chars(#[trigger] lines[i]) && lines[i].len()
            > 0,
        forall|i: int| 0 <= i < lines.len() ==> comma_split(#[trigger] lines[i]).len()
            == comma_split(lines[0]).len(),
    ensures
        spec_parse(join_lines(lines)) is Ok,
        spec_parse(join_lines(lines))->Ok_0.len() == lines.len(),
        forall|i: int| 0 <= i < lines.len() ==> spec_parse(join_lines(lines))->Ok_0[i]
            == comma_split(lines[i]),
{
    let head = lines[0];
    let tail = lines.skip(1);
    let w = comma_split(head).len() as int;
    assert(plain_chars(head) && head.len() > 0);
    assert(forall|i: int|
        0 <= i < tail.len() ==> plain_chars(#[trigger] tail[i]) && tail[i].len() > 0
            && comma_split(tail[i]).len() == w) by {
        assert(forall|i: int| 0 <= i < tail.len() ==> tail[i] == lines[i + 1]);
    }
    lemma_join_unfold(lines);
    lemma_row_on_plain_line(head, pending_lines(tail));
    assert(forall|i: int| 0 <= i < tail.len() ==> tail[i] == lines[i + 1]);
    lemma_rows_on_plain_lines(tail, seq![comma_split(head)], w);
    assert(seq![comma_split(head)] + split_table(tail) =~= split_table(lines));
    assert(spec_parse(join_lines(lines)) == Ok::<Seq<Seq<Seq<char>>>, Mismatch>(
        split_table(lines),
    ));
}

} // verus!
