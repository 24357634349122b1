//! Calendar dates in UTC, and their fixed-layout textual form.
//!
//! A commit timestamp is carried through the library as the calendar date it
//! falls on once normalized to UTC. Rendering uses the fixed
//! two-digit-day / abbreviated-month / four-digit-year layout, e.g.
//! `05 Mar 2024`.

use vstd::prelude::*;
use vstd::string::*;

verus! {

/// A calendar date, already normalized to UTC.
#[derive(Clone, Copy, PartialEq, Eq, Structural, Debug)]
pub struct UtcDate {
    pub year: i32,
    pub month: u8,
    pub day: u8,
}

impl UtcDate {
    /// The month and day fields carry ordinary calendar values.
    pub open spec fn wf(self) -> bool {
        1 <= self.month <= 12 && 1 <= self.day <= 31
    }
}

/// The character for a single decimal digit.
pub open spec fn digit_char(d: int) -> char {
    if d == 0 {
        '0'
    } else if d == 1 {
        '1'
    } else if d == 2 {
        '2'
    } else if d == 3 {
        '3'
    } else if d == 4 {
        '4'
    } else if d == 5 {
        '5'
    } else if d == 6 {
        '6'
    } else if d == 7 {
        '7'
    } else if d == 8 {
        '8'
    } else {
        '9'
    }
}

/// The decimal digits of `n`, most significant first, with no leading zeros
/// (a single `0` for zero itself).
pub open spec fn dec_digits(n: nat) -> Seq<char>
    decreases n,
{
    if n < 10 {
        seq![digit_char(n as int)]
    } else {
        dec_digits(n / 10) + seq![digit_char((n % 10) as int)]
    }
}

/// `s` left-padded with `0` up to four characters.
pub open spec fn pad4(s: Seq<char>) -> Seq<char>
    decreases (if s.len() >= 4 { 0int } else { 4 - s.len() }),
{
    if s.len() >= 4 {
        s
    } else {
        pad4(seq!['0'] + s)
    }
}

/// The decimal form of a possibly negative number: a minus sign for negative
/// values, then the digits of the absolute value.
pub open spec fn signed_digits(n: int) -> Seq<char> {
    if n >= 0 {
        dec_digits(n as nat)
    } else {
        seq!['-'] + dec_digits((-n) as nat)
    }
}

/// A year as rendered: the absolute value zero-padded to at least four
/// digits, preceded by a minus sign when negative.
pub open spec fn year_digits(y: int) -> Seq<char> {
    if y >= 0 {
        pad4(dec_digits(y as nat))
    } else {
        seq!['-'] + pad4(dec_digits((-y) as nat))
    }
}

/// A day of the month as rendered: always exactly two digits.
pub open spec fn day_digits(d: int) -> Seq<char> {
    seq![digit_char(d / 10), digit_char(d % 10)]
}

/// The conventional English three-letter abbreviation of a month.
pub open spec fn month_abbrev(m: int) -> Seq<char> {
    if m == 1 {
        "Jan"@
    } else if m == 2 {
        "Feb"@
    } else if m == 3 {
        "Mar"@
    } else if m == 4 {
        "Apr"@
    } else if m == 5 {
        "May"@
    } else if m == 6 {
        "Jun"@
    } else if m == 7 {
        "Jul"@
    } else if m == 8 {
        "Aug"@
    } else if m == 9 {
        "Sep"@
    } else if m == 10 {
        "Oct"@
    } else if m == 11 {
        "Nov"@
    } else {
        "Dec"@
    }
}

/// A whole date as rendered: `DD Mon YYYY`.
pub open spec fn date_digits(d: UtcDate) -> Seq<char> {
    day_digits(d.day as int) + " "@ + month_abbrev(d.month as int) + " "@ + year_digits(
        d.year as int,
    )
}

/// The one-character string for a single decimal digit (or `9` for any
/// larger value, as [`digit_char`] says).
fn digit_str(d: u8) -> (r: &'static str)
    ensures
        r@ =~= seq![digit_char(d as int)],
{
    proof {
        reveal_strlit("0");
        reveal_strlit("1");
        reveal_strlit("2");
        reveal_strlit("3");
        reveal_strlit("4");
        reveal_strlit("5");
        reveal_strlit("6");
        reveal_strlit("7");
        reveal_strlit("8");
        reveal_strlit("9");
    }
    match d {
        0 => "0",
        1 => "1",
        2 => "2",
        3 => "3",
        4 => "4",
        5 => "5",
        6 => "6",
        7 => "7",
        8 => "8",
        _ => "9",
    }
}

/// The three-letter abbreviation of a month as a string slice.
fn month_str(m: u8) -> (r: &'static str)
    ensures
        r@ == month_abbrev(m as int),
{
    match m {
        1 => "Jan",
        2 => "Feb",
        3 => "Mar",
        4 => "Apr",
        5 => "May",
        6 => "Jun",
        7 => "Jul",
        8 => "Aug",
        9 => "Sep",
        10 => "Oct",
        11 => "Nov",
        _ => "Dec",
    }
}

impl UtcDate {
    /// Renders the date in the fixed `DD Mon YYYY` layout.
    pub fn format(&self) -> (r: String)
        ensures
            r@ == date_digits(*self),
    {
        let mut out = String::new();
        out.append(digit_str(self.day / 10));
        out.append(digit_str(self.day % 10));
        out.append(" ");
        out.append(month_str(self.month));
        out.append(" ");
        let y = format_year(self.year);
        out.append(y.as_str());
        out
    }
}

/// Renders a year zero-padded to at least four digits, with a minus sign for
/// negative years.
fn format_year(y: i32) -> (r: String)
    ensures
        r@ == year_digits(y as int),
{
    let wide: i64 = y as i64;
    let magnitude: u64 = if wide < 0 {
        (-wide) as u64
    } else {
        wide as u64
    };
    let mut out = if y < 0 {
        proof {
            reveal_strlit("-");
        }
        String::from_str("-")
    } else {
        String::new()
    };
    let digits = decimal_digits(magnitude);
    let padded = pad_year(digits);
    out.append(padded.as_str());
    assert(out@ == year_digits(y as int));
    out
}

/// The digit characters of `n`, least significant first, read back as the
/// usual most-significant-first digit string.
spec fn rev_digit_chars(s: Seq<u8>) -> Seq<char>
    decreases s.len(),
{
    if s.len() == 0 {
        Seq::empty()
    } else {
        seq![digit_char(s.last() as int)] + rev_digit_chars(s.drop_last())
    }
}

/// Renders an unsigned number in decimal, without padding.
fn decimal_digits(n: u64) -> (r: String)
    ensures
        r@ == dec_digits(n as nat),
{
    let first: u8 = (n % 10) as u8;
    let mut digits: Vec<u8> = Vec::new();
    digits.push(first);
    let mut rest: u64 = n / 10;
    proof {
        assert(rev_digit_chars(Seq::<u8>::empty()) == Seq::<char>::empty());
        assert(digits@.drop_last() =~= Seq::<u8>::empty());
        assert(rev_digit_chars(digits@) == seq![digit_char(first as int)] + rev_digit_chars(
            digits@.drop_last(),
        ));
        assert(rev_digit_chars(digits@) =~= seq![digit_char(first as int)]);
        if rest > 0 {
            assert(dec_digits(n as nat) == dec_digits((n as nat) / 10) + seq![
                digit_char(((n as nat) % 10) as int),
            ]);
            assert(dec_digits(n as nat) =~= dec_digits(rest as nat) + rev_digit_chars(digits@));
        } else {
            assert(dec_digits(n as nat) == seq![digit_char(first as int)]);
            assert(dec_digits(n as nat) =~= rev_digit_chars(digits@));
        }
    }
    while rest > 0
        invariant
            forall|i: int| 0 <= i < digits@.len() ==> digits@[i] < 10,
            rest > 0 ==> dec_digits(n as nat) =~= dec_digits(rest as nat) + rev_digit_chars(
                digits@,
            ),
            rest == 0 ==> dec_digits(n as nat) =~= rev_digit_chars(digits@),
        decreases rest,
    {
        let ghost prev = rest;
        let ghost below: Seq<u8> = digits@;
        let d: u8 = (rest % 10) as u8;
        digits.push(d);
        proof {
            assert(digits@.drop_last() =~= below);
            assert(rev_digit_chars(digits@) == seq![digit_char(d as int)] + rev_digit_chars(
                digits@.drop_last(),
            ));
        }
        rest = rest / 10;
        proof {
            if rest > 0 {
                assert(dec_digits(prev as nat) == dec_digits((prev as nat) / 10) + seq![
                    digit_char(((prev as nat) % 10) as int),
                ]);
                assert((dec_digits(rest as nat) + seq![digit_char(d as int)]) + rev_digit_chars(
                    below,
                ) =~= dec_digits(rest as nat) + (seq![digit_char(d as int)] + rev_digit_chars(
                    below,
                )));
                assert(dec_digits(n as nat) =~= dec_digits(rest as nat) + rev_digit_chars(
                    digits@,
                ));
            } else {
                assert(dec_digits(prev as nat) == seq![digit_char(prev as int)]);
                assert(dec_digits(n as nat) =~= rev_digit_chars(digits@));
            }
        }
    }
    let mut out = String::new();
    emit_digits(&mut out, &digits);
    proof {
        assert(out@ =~= dec_digits(n as nat));
    }
    out
}

/// How many characters `rev_digit_chars` yields, and which.
proof fn lemma_rev_digit_chars_index(s: Seq<u8>)
    ensures
        rev_digit_chars(s).len() == s.len(),
        forall|i: int|
            0 <= i < s.len() ==> rev_digit_chars(s)[i] == digit_char(s[s.len() - 1 - i] as int),
    decreases s.len(),
{
    if s.len() > 0 {
        lemma_rev_digit_chars_index(s.drop_last());
    }
}

/// Appends the digits of `digits`, most significant (last element) first.
fn emit_digits(out: &mut String, digits: &Vec<u8>)
    requires
        forall|i: int| 0 <= i < digits@.len() ==> digits@[i] < 10,
    ensures
        final(out)@ == old(out)@ + rev_digit_chars(digits@),
{
    proof {
        lemma_rev_digit_chars_index(digits@);
    }
    let ghost start = out@;
    let mut k: usize = digits.len();
    while k > 0
        invariant
            k <= digits@.len(),
            forall|i: int| 0 <= i < digits@.len() ==> digits@[i] < 10,
            rev_digit_chars(digits@).len() == digits@.len(),
            forall|i: int|
                0 <= i < digits@.len() ==> rev_digit_chars(digits@)[i] == digit_char(
                    digits@[digits@.len() - 1 - i] as int,
                ),
            out@ == start + rev_digit_chars(digits@).take(digits@.len() - k),
        decreases k,
    {
        k = k - 1;
        out.append(digit_str(digits[k]));
        proof {
            assert(rev_digit_chars(digits@).take(digits@.len() - k) =~= rev_digit_chars(
                digits@,
            ).take(digits@.len() - (k + 1)) + seq![digit_char(digits@[k as int] as int)]);
        }
    }
    proof {
        assert(rev_digit_chars(digits@).take(digits@.len() as int) =~= rev_digit_chars(digits@));
    }
}

/// Renders a signed number in decimal, without padding.
pub(crate) fn format_signed(n: i32) -> (r: String)
    ensures
        r@ == signed_digits(n as int),
{
    if n >= 0 {
        decimal_digits(n as u64)
    } else {
        proof {
            reveal_strlit("-");
        }
        let magnitude: u64 = (-(n as i64)) as u64;
        let mut out = String::from_str("-");
        let digits = decimal_digits(magnitude);
        out.append(digits.as_str());
        proof {
            assert(out@ =~= signed_digits(n as int));
        }
        out
    }
}

/// Left-pads a digit string with `0` to at least four characters.
fn pad_year(s: String) -> (r: String)
    ensures
        r@ == pad4(s@),
{
    let ghost orig = s@;
    let mut acc = s;
    while acc.as_str().unicode_len() < 4
        invariant
            pad4(acc@) == pad4(orig),
        decreases 4 - acc@.len(),
    {
        proof {
            reveal_strlit("0");
        }
        let mut next = String::from_str("0");
        next.append(acc.as_str());
        proof {
            assert(next@ =~= seq!['0'] + acc@);
        }
        acc = next;
    }
    acc
}

} // verus!
