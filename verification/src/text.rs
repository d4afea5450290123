//! Pieces of report text: padding, decimal numbers and byte counts made
//! readable.

use humansize::{file_size_opts, FileSize};
use vstd::prelude::*;
use vstd::utf8::encode_utf8;

verus! {

/// `n` blanks.
pub open spec fn spaces(n: nat) -> Seq<char> {
    Seq::new(n, |i: int| ' ')
}

/// `n` zero digits.
pub open spec fn zeros(n: nat) -> Seq<char> {
    Seq::new(n, |i: int| '0')
}

/// `s` with blanks behind it up to `width` characters; `s` itself where it is
/// that wide already.
pub open spec fn pad_right(s: Seq<char>, width: nat) -> Seq<char> {
    if s.len() >= width {
        s
    } else {
        s + spaces((width - s.len()) as nat)
    }
}

/// `s` with blanks before it up to `width` characters; `s` itself where it is
/// that wide already.
pub open spec fn pad_left(s: Seq<char>, width: nat) -> Seq<char> {
    if s.len() >= width {
        s
    } else {
        spaces((width - s.len()) as nat) + s
    }
}

/// `s` with zero digits before it up to `width` characters; `s` itself where
/// it is that wide already.
pub open spec fn pad_zeros(s: Seq<char>, width: nat) -> Seq<char> {
    if s.len() >= width {
        s
    } else {
        zeros((width - s.len()) as nat) + s
    }
}

/// The decimal digit for a number below ten.
pub open spec fn digit(d: nat) -> char {
    if d == 0 {
        '0'
    } else if d == 1 {
        '1'
    } else if d == 2 {
        '2'
    } else if d == 3 {
        '3'
    } else if d == 4 {
        '4'
    } else if d == 5 {
        '5'
    } else if d == 6 {
        '6'
    } else if d == 7 {
        '7'
    } else if d == 8 {
        '8'
    } else {
        '9'
    }
}

/// A number written in decimal, without leading zeros.
pub open spec fn decimal(n: nat) -> Seq<char>
    decreases n,
{
    if n < 10 {
        seq![digit(n)]
    } else {
        decimal(n / 10).push(digit(n % 10))
    }
}

/// The number of bytes that a text takes when encoded as UTF-8.
pub open spec fn byte_len(s: Seq<char>) -> nat {
    encode_utf8(s).len()
}

/// The text that `humansize` gives for a number of bytes under its decimal
/// options: the number divided by 1000 until it is below 1000, written with
/// two decimals unless it is whole, then a blank and the unit (`B`, `KB`,
/// `MB` and so on).
pub uninterp spec fn decimal_size_text(bytes: u64) -> Seq<char>;

/// Calls `humansize`'s `FileSize::file_size` on a `u64` with
/// `file_size_opts::DECIMAL`. Believed of it, not proved: for an unsigned
/// number the call always succeeds; its text depends on the number alone;
/// and a number below 1000 is not scaled, so that its text is the number in
/// decimal, a blank and `B`. What the text of a larger number is, is only
/// named here.
#[verifier::external_body]
fn human_size(bytes: u64) -> (text: Result<String, String>)
    ensures
        text is Ok,
        text->Ok_0@ == decimal_size_text(bytes),
        bytes < 1000 ==> text->Ok_0@ == decimal(bytes as nat) + " B"@,
{
    bytes.file_size(file_size_opts::DECIMAL)
}

/// The readable text for a number of bytes: below 1000 the number itself
/// with the unit `B`, above that the number scaled by thousands.
pub fn readable_size(bytes: u64) -> (text: String)
    ensures
        text@ == decimal_size_text(bytes),
        bytes < 1000 ==> text@ == decimal(bytes as nat) + " B"@,
{
    human_size(bytes).unwrap()
}

/// The power of ten with exponent `k`.
pub open spec fn pow10(k: nat) -> nat
    decreases k,
{
    if k == 0 {
        1
    } else {
        10 * pow10((k - 1) as nat)
    }
}

/// A number below the power of ten with exponent `k` has at most `k` digits.
pub proof fn lemma_decimal_digits(n: nat, k: nat)
    requires
        k >= 1,
        n < pow10(k),
    ensures
        1 <= decimal(n).len() <= k,
    decreases k,
{
    if n >= 10 {
        assert(pow10(1) == 10) by {
            reveal_with_fuel(pow10, 2);
        }
        lemma_decimal_digits(n / 10, (k - 1) as nat);
    }
}

/// A number that fits in 64 bits has at most 20 digits.
pub proof fn lemma_decimal_len(n: nat)
    requires
        n <= u64::MAX,
    ensures
        1 <= decimal(n).len() <= 20,
{
    assert(pow10(20) == 100000000000000000000) by {
        reveal_with_fuel(pow10, 21);
    }
    lemma_decimal_digits(n, 20);
}

/// A text takes at least one byte for each of its characters.
pub proof fn lemma_byte_len_covers_chars(s: Seq<char>)
    ensures
        s.len() <= byte_len(s),
    decreases s.len(),
{
    if s.len() > 0 {
        lemma_byte_len_covers_chars(s.drop_first());
    }
}

/// Appends `n` blanks to `out`.
pub fn push_spaces(out: &mut String, n: usize)
    ensures
        final(out)@ == old(out)@ + spaces(n as nat),
{
    let ghost start = out@;
    let mut i: usize = 0;
    while i < n
        invariant
            i <= n,
            out@ == start + spaces(i as nat),
        decreases n - i,
    {
        proof {
            reveal_strlit(" ");
        }
        out.append(" ");
        i = i + 1;
    }
}

/// Appends `n` zero digits to `out`.
pub fn push_zeros(out: &mut String, n: usize)
    ensures
        final(out)@ == old(out)@ + zeros(n as nat),
{
    let ghost start = out@;
    let mut i: usize = 0;
    while i < n
        invariant
            i <= n,
            out@ == start + zeros(i as nat),
        decreases n - i,
    {
        proof {
            reveal_strlit("0");
        }
        out.append("0");
        i = i + 1;
    }
}

/// Appends `s` to `out`, with blanks behind it up to `width` characters.
pub fn push_padded_right(out: &mut String, s: &str, width: usize)
    ensures
        final(out)@ == old(out)@ + pad_right(s@, width as nat),
{
    let len: usize = s.unicode_len();
    out.append(s);
    if len < width {
        push_spaces(out, width - len);
    }
}

/// Appends `s` to `out`, with blanks before it up to `width` characters.
pub fn push_padded_left(out: &mut String, s: &str, width: usize)
    ensures
        final(out)@ == old(out)@ + pad_left(s@, width as nat),
{
    let len: usize = s.unicode_len();
    if len < width {
        push_spaces(out, width - len);
    }
    out.append(s);
}

/// Appends `s` to `out`, with zero digits before it up to `width` characters.
pub fn push_zero_padded(out: &mut String, s: &str, width: usize)
    ensures
        final(out)@ == old(out)@ + pad_zeros(s@, width as nat),
{
    let len: usize = s.unicode_len();
    if len < width {
        push_zeros(out, width - len);
    }
    out.append(s);
}

/// The text of one decimal digit.
fn digit_text(d: u64) -> (text: &'static str)
    requires
        d < 10,
    ensures
        text@ == seq![digit(d as nat)],
{
    proof {
        reveal_strlit("0");
        reveal_strlit("1");
        reveal_strlit("2");
        reveal_strlit("3");
        reveal_strlit("4");
        reveal_strlit("5");
        reveal_strlit("6");
        reveal_strlit("7");
        reveal_strlit("8");
        reveal_strlit("9");
    }
    if d == 0 {
        "0"
    } else if d == 1 {
        "1"
    } else if d == 2 {
        "2"
    } else if d == 3 {
        "3"
    } else if d == 4 {
        "4"
    } else if d == 5 {
        "5"
    } else if d == 6 {
        "6"
    } else if d == 7 {
        "7"
    } else if d == 8 {
        "8"
    } else {
        "9"
    }
}

/// Writes a number in decimal, without leading zeros.
pub fn decimal_text(n: u64) -> (text: String)
    ensures
        text@ == decimal(n as nat),
    decreases n,
{
    if n < 10 {
        let mut text = String::new();
        text.append(digit_text(n));
        text
    } else {
        let mut text = decimal_text(n / 10);
        text.append(digit_text(n % 10));
        text
    }
}

/// The number of bytes that `s` takes.
pub fn text_byte_len(s: &str) -> (len: usize)
    ensures
        len == byte_len(s@),
{
    s.as_bytes().len()
}

} // verus!
