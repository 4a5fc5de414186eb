//! Text for messages: numbers in decimal and in hexadecimal.

use vstd::prelude::*;

verus! {

/// The character of one hexadecimal digit.
pub open spec fn digit(d: int) -> char {
    if d < 10 {
        (('0' as u32) + d) as char
    } else {
        (('a' as u32) + (d - 10)) as char
    }
}

/// A number in decimal, without leading zeros.
pub open spec fn decimal(n: nat) -> Seq<char>
    decreases n,
{
    if n < 10 {
        seq![digit(n as int)]
    } else {
        decimal(n / 10).push(digit((n % 10) as int))
    }
}

/// The last `width` hexadecimal digits of a number.
pub open spec fn hex(n: nat, width: nat) -> Seq<char>
    decreases width,
{
    if width == 0 {
        Seq::empty()
    } else {
        hex(n / 16, (width - 1) as nat).push(digit((n % 16) as int))
    }
}

/// One hexadecimal digit as text.
fn digit_text(d: u64) -> (s: &'static str)
    requires
        d < 16,
    ensures
        s@ == seq![digit(d as int)],
{
    proof {
        reveal_strlit("0");
        reveal_strlit("1");
        reveal_strlit("2");
        reveal_strlit("3");
        reveal_strlit("4");
        reveal_strlit("5");
        reveal_strlit("6");
        reveal_strlit("7");
        reveal_strlit("8");
        reveal_strlit("9");
        reveal_strlit("a");
        reveal_strlit("b");
        reveal_strlit("c");
        reveal_strlit("d");
        reveal_strlit("e");
        reveal_strlit("f");
    }
    let s = match d {
        0 => "0",
        1 => "1",
        2 => "2",
        3 => "3",
        4 => "4",
        5 => "5",
        6 => "6",
        7 => "7",
        8 => "8",
        9 => "9",
        10 => "a",
        11 => "b",
        12 => "c",
        13 => "d",
        14 => "e",
        _ => "f",
    };
    assert(s@ =~= seq![digit(d as int)]);
    s
}

/// A number in decimal.
pub fn decimal_text(n: u64) -> (s: String)
    ensures
        s@ == decimal(n as nat),
    decreases n,
{
    if n < 10 {
        String::from_str(digit_text(n))
    } else {
        let mut s = decimal_text(n / 10);
        s.append(digit_text(n % 10));
        assert(s@ =~= decimal(n as nat));
        s
    }
}

/// The last `width` hexadecimal digits of a number.
fn hex_digits(n: u64, width: u32) -> (s: String)
    ensures
        s@ == hex(n as nat, width as nat),
    decreases width,
{
    if width == 0 {
        let s = String::new();
        assert(s@ =~= Seq::empty());
        s
    } else {
        let mut s = hex_digits(n / 16, width - 1);
        s.append(digit_text(n % 16));
        assert(s@ =~= hex(n as nat, width as nat));
        s
    }
}

/// A 32-bit number as `0x` and eight hexadecimal digits.
pub fn hex_text(n: u32) -> (s: String)
    ensures
        s@ == "0x"@ + hex(n as nat, 8),
{
    String::from_str("0x").concat(hex_digits(n as u64, 8).as_str())
}

/// Two pieces of text, one after the other.
pub fn two(a: &str, b: &str) -> (s: String)
    ensures
        s@ == a@ + b@,
{
    String::from_str(a).concat(b)
}

/// A number between two pieces of text.
pub fn around(left: &str, n: u64, right: &str) -> (s: String)
    ensures
        s@ == left@ + decimal(n as nat) + right@,
{
    String::from_str(left).concat(decimal_text(n).as_str()).concat(right)
}

/// Text and a number, twice.
pub fn between(left: &str, n: u64, mid: &str, m: u64) -> (s: String)
    ensures
        s@ == left@ + decimal(n as nat) + mid@ + decimal(m as nat),
{
    two(around(left, n, mid).as_str(), decimal_text(m).as_str())
}

/// Two numbers between three pieces of text.
pub fn around_two(left: &str, n: u64, mid: &str, m: u64, right: &str) -> (s: String)
    ensures
        s@ == left@ + decimal(n as nat) + mid@ + decimal(m as nat) + right@,
{
    around(left, n, mid).concat(decimal_text(m).as_str()).concat(right)
}

/// What `{:?}` writes for a string: the string in quotes, with what does not
/// print escaped.
pub uninterp spec fn quoted(s: Seq<char>) -> Seq<char>;

/// `std::fmt`'s `{:?}` of a string. Which characters it escapes, and how, is
/// not said here; only that the text is determined by the string.
#[verifier::external_body]
pub(crate) fn quoted_text(s: &str) -> (r: String)
    ensures
        r@ == quoted(s@),
{
    format!("{s:?}")
}

/// The number that digits spell.
pub open spec fn spelt_number(text: Seq<char>) -> int
    decreases text.len(),
{
    if text.len() == 0 {
        0
    } else {
        10 * spelt_number(text.drop_last()) + (text.last() as u32 - '0' as u32)
    }
}

/// A number in decimal is spelt with digits, reads back as the number, and has no
/// zero in front but zero itself.
pub proof fn a_decimal_reads_back(n: nat)
    ensures
        spelt_number(decimal(n)) == n,
        decimal(n).len() > 0,
        forall|i: int| 0 <= i < decimal(n).len() ==> '0' <= #[trigger] decimal(n)[i] <= '9',
        n > 0 ==> decimal(n)[0] != '0',
    decreases n,
{
    reveal_with_fuel(spelt_number, 2);
    if n < 10 {
        assert(decimal(n).drop_last() =~= Seq::<char>::empty());
    } else {
        a_decimal_reads_back(n / 10);
        assert(decimal(n).drop_last() =~= decimal(n / 10));
        assert(decimal(n)[0] == decimal(n / 10)[0]);
        assert forall|i: int| 0 <= i < decimal(n).len() implies '0' <= #[trigger] decimal(n)[i] <= '9' by {
            if i < decimal(n / 10).len() {
                assert(decimal(n)[i] == decimal(n / 10)[i]);
            }
        }
    }
}

} // verus!
