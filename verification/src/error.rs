//! Error values returned by the parser, and their human-readable rendering.

use vstd::prelude::*;

verus! {

/// A column-count mismatch: row `line_no` (1-based) has `actual_size` cells
/// where the first row established `expected_size` columns.
#[derive(Debug, PartialEq, Eq, Structural)]
pub struct SizeError {
    pub line_no: usize,
    pub expected_size: usize,
    pub actual_size: usize,
}

/// The two ways a parse can fail: a row whose cell count differs from the
/// first row's, or input that the row grammar cannot match, each carrying
/// the 1-based line number at which it occurred.
#[derive(Debug, PartialEq, Eq, Structural)]
pub enum CSVError {
    UnequalColumns(SizeError),
    SyntaxError(usize),
}

/// The character for a single decimal digit.
pub open spec fn digit_char(d: nat) -> char {
    if d == 0 {
        '0'
    } else if d == 1 {
        '1'
    } else if d == 2 {
        '2'
    } else if d == 3 {
        '3'
    } else if d == 4 {
        '4'
    } else if d == 5 {
        '5'
    } else if d == 6 {
        '6'
    } else if d == 7 {
        '7'
    } else if d == 8 {
        '8'
    } else {
        '9'
    }
}

/// The decimal digit characters of `n`, most significant first.
pub open spec fn spec_digits(n: nat) -> Seq<char>
    decreases n,
{
    if n < 10 {
        seq![digit_char(n)]
    } else {
        spec_digits(n / 10) + seq![digit_char(n % 10)]
    }
}

/// The exact rendering of an error, character for character.
pub open spec fn spec_message(e: CSVError) -> Seq<char> {
    match e {
        CSVError::UnequalColumns(v) => "Unequal number of columns at line "@ + spec_digits(
            v.line_no as nat,
        ) + ", expected: "@ + spec_digits(v.expected_size as nat) + " columns, got: "@
            + spec_digits(v.actual_size as nat),
        CSVError::SyntaxError(l) => "Syntax error at line number: "@ + spec_digits(l as nat),
    }
}

/// The digit characters of a sequence of digits stored least significant
/// first, read back most significant first.
spec fn low_digit_chars(digits: Seq<usize>) -> Seq<char>
    decreases digits.len(),
{
    if digits.len() == 0 {
        Seq::empty()
    } else {
        seq![digit_char(digits.last() as nat)] + low_digit_chars(digits.drop_last())
    }
}

/// `spec_digits(r)` when `r` still has digits to emit, nothing when done.
spec fn pending_digits(r: nat) -> Seq<char> {
    if r == 0 {
        Seq::empty()
    } else {
        spec_digits(r)
    }
}

proof fn lemma_low_prepend(x: usize, s: Seq<usize>)
    ensures
        low_digit_chars(seq![x] + s) == low_digit_chars(s) + seq![digit_char(x as nat)],
    decreases s.len(),
{
    if s.len() == 0 {
        assert(seq![x] + s =~= seq![x]);
        assert((seq![x]).drop_last() =~= Seq::<usize>::empty());
        assert(low_digit_chars(Seq::<usize>::empty()) == Seq::<char>::empty());
        assert(low_digit_chars(seq![x] + s) =~= low_digit_chars(s) + seq![digit_char(x as nat)]);
    } else {
        lemma_low_prepend(x, s.drop_last());
        assert((seq![x] + s).last() == s.last());
        assert((seq![x] + s).drop_last() =~= seq![x] + s.drop_last());
        assert(low_digit_chars(seq![x] + s) =~= low_digit_chars(s) + seq![digit_char(x as nat)]);
    }
}

/// Appends the character of `d`, a single decimal digit, to `out`.
fn push_digit(out: &mut String, d: usize)
    requires
        d < 10,
    ensures
        final(out)@ == old(out)@ + seq![digit_char(d as nat)],
{
    let lit: &str = if d == 0 {
        "0"
    } else if d == 1 {
        "1"
    } else if d == 2 {
        "2"
    } else if d == 3 {
        "3"
    } else if d == 4 {
        "4"
    } else if d == 5 {
        "5"
    } else if d == 6 {
        "6"
    } else if d == 7 {
        "7"
    } else if d == 8 {
        "8"
    } else {
        "9"
    };
    proof {
        reveal_strlit("0");
        reveal_strlit("1");
        reveal_strlit("2");
        reveal_strlit("3");
        reveal_strlit("4");
        reveal_strlit("5");
        reveal_strlit("6");
        reveal_strlit("7");
        reveal_strlit("8");
        reveal_strlit("9");
        assert(lit@ =~= seq![digit_char(d as nat)]);
    }
    out.append(lit);
}

/// Appends the decimal rendering of `n` to `out`.
fn push_usize(out: &mut String, n: usize)
    ensures
        final(out)@ == old(out)@ + spec_digits(n as nat),
{
    let mut digits: Vec<usize> = Vec::new();
    let mut rem: usize = n;
    let d0: usize = rem % 10;
    rem = rem / 10;
    digits.push(d0);
    proof {
        assert(digits@ =~= seq![d0]);
        assert(digits@.drop_last() =~= Seq::<usize>::empty());
        assert(low_digit_chars(Seq::<usize>::empty()) == Seq::<char>::empty());
        assert(digits@.last() == d0);
        assert(low_digit_chars(digits@) =~= seq![digit_char(d0 as nat)]);
        assert(spec_digits(n as nat) =~= pending_digits(rem as nat) + low_digit_chars(digits@));
    }
    while rem > 0
        invariant
            spec_digits(n as nat) == pending_digits(rem as nat) + low_digit_chars(digits@),
            forall|i: int| 0 <= i < digits@.len() ==> digits@[i] < 10,
        decreases rem,
    {
        let ghost prev = digits@;
        let ghost prem = rem as nat;
        let d: usize = rem % 10;
        rem = rem / 10;
        digits.push(d);
        proof {
            assert(digits@.drop_last() =~= prev);
            assert(low_digit_chars(digits@) =~= seq![digit_char(d as nat)] + low_digit_chars(
                prev,
            ));
            if prem >= 10 {
                assert(spec_digits(prem) == spec_digits(prem / 10) + seq![
                    digit_char(prem % 10),
                ]);
                assert(pending_digits(prem) + low_digit_chars(prev) =~= pending_digits(
                    rem as nat,
                ) + low_digit_chars(digits@));
            } else {
                assert(spec_digits(prem) == seq![digit_char(prem)]);
                assert(pending_digits(prem) + low_digit_chars(prev) =~= pending_digits(
                    rem as nat,
                ) + low_digit_chars(digits@));
            }
        }
    }
    let ghost all = digits@;
    proof {
        assert(spec_digits(n as nat) =~= low_digit_chars(all));
        assert(all.skip(all.len() as int) =~= Seq::<usize>::empty());
        assert(out@ =~= old(out)@ + low_digit_chars(all.skip(all.len() as int)));
    }
    let mut i: usize = digits.len();
    while i > 0
        invariant
            i <= digits@.len(),
            digits@ == all,
            forall|k: int| 0 <= k < digits@.len() ==> digits@[k] < 10,
            out@ == old(out)@ + low_digit_chars(all.skip(i as int)),
        decreases i,
    {
        i = i - 1;
        push_digit(out, digits[i]);
        proof {
            lemma_low_prepend(all[i as int], all.skip(i as int + 1));
            assert(all.skip(i as int) =~= seq![all[i as int]] + all.skip(i as int + 1));
            assert(out@ =~= old(out)@ + low_digit_chars(all.skip(i as int)));
        }
    }
    proof {
        assert(all.skip(0) =~= all);
        assert(out@ =~= old(out)@ + spec_digits(n as nat));
    }
}

impl CSVError {
    /// The human-readable rendering of this error.
    pub fn message(&self) -> (s: String)
        ensures
            s@ == spec_message(*self),
    {
        let mut out = String::new();
        match self {
            CSVError::UnequalColumns(v) => {
                out.append("Unequal number of columns at line ");
                push_usize(&mut out, v.line_no);
                out.append(", expected: ");
                push_usize(&mut out, v.expected_size);
                out.append(" columns, got: ");
                push_usize(&mut out, v.actual_size);
            },
            CSVError::SyntaxError(l) => {
                out.append("Syntax error at line number: ");
                push_usize(&mut out, *l);
            },
        }
        proof {
            assert(out@ =~= spec_message(*self));
        }
        out
    }
}

} // verus!
