//! Decimal rendering of integers and the padding used by clocks, dates and
//! diagnostic gutters.
use vstd::prelude::*;

use crate::text::push_char;

verus! {

/// The character of a decimal digit.
pub open spec fn digit_char(d: int) -> char {
    if d == 0 {
        '0'
    } else if d == 1 {
        '1'
    } else if d == 2 {
        '2'
    } else if d == 3 {
        '3'
    } else if d == 4 {
        '4'
    } else if d == 5 {
        '5'
    } else if d == 6 {
        '6'
    } else if d == 7 {
        '7'
    } else if d == 8 {
        '8'
    } else {
        '9'
    }
}

/// Decimal digits of `n`, most significant first, with no leading zeros
/// (`0` is rendered as a single `0`).
pub open spec fn dec(n: nat) -> Seq<char>
    decreases n,
{
    if n < 10 {
        seq![digit_char(n as int)]
    } else {
        dec(n / 10) + seq![digit_char((n % 10) as int)]
    }
}

/// Decimal rendering of a signed integer: a leading `-` for negatives.
pub open spec fn dec_signed(n: int) -> Seq<char> {
    if n < 0 {
        seq!['-'] + dec((-n) as nat)
    } else {
        dec(n as nat)
    }
}

/// `s` preceded by enough copies of `fill` to make it `width` long.
pub open spec fn pad_left(s: Seq<char>, width: int, fill: char) -> Seq<char> {
    if s.len() >= width {
        s
    } else {
        Seq::new((width - s.len()) as nat, |i: int| fill) + s
    }
}

/// `n` copies of `c`.
pub open spec fn repeat_char(c: char, n: int) -> Seq<char> {
    Seq::new(if n < 0 { 0 } else { n as nat }, |i: int| c)
}

pub proof fn lemma_dec_nonempty(n: nat)
    ensures
        dec(n).len() >= 1,
    decreases n,
{
    if n >= 10 {
        lemma_dec_nonempty(n / 10);
    }
}

fn digit(d: u64) -> (c: char)
    requires
        d < 10,
    ensures
        c == digit_char(d as int),
{
    if d == 0 {
        '0'
    } else if d == 1 {
        '1'
    } else if d == 2 {
        '2'
    } else if d == 3 {
        '3'
    } else if d == 4 {
        '4'
    } else if d == 5 {
        '5'
    } else if d == 6 {
        '6'
    } else if d == 7 {
        '7'
    } else if d == 8 {
        '8'
    } else {
        '9'
    }
}

/// Appends the decimal digits of `n` to `s`.
pub fn push_dec(s: &mut String, n: u64)
    ensures
        final(s)@ == old(s)@ + dec(n as nat),
    decreases n,
{
    if n < 10 {
        push_char(s, digit(n));
    } else {
        push_dec(s, n / 10);
        push_char(s, digit(n % 10));
    }
}

/// Decimal rendering of an unsigned integer.
pub fn u64_to_dec(n: u64) -> (r: String)
    ensures
        r@ == dec(n as nat),
{
    let mut s = String::new();
    push_dec(&mut s, n);
    assert(s@ =~= dec(n as nat));
    s
}

/// Decimal rendering of a signed integer.
pub fn i64_to_dec(n: i64) -> (r: String)
    ensures
        r@ == dec_signed(n as int),
{
    let mut s = String::new();
    if n < 0 {
        push_char(&mut s, '-');
        let m: u64 = if n == i64::MIN {
            9223372036854775808u64
        } else {
            (-n) as u64
        };
        push_dec(&mut s, m);
    } else {
        push_dec(&mut s, n as u64);
    }
    assert(s@ =~= dec_signed(n as int));
    s
}

/// Appends `n` copies of `c`.
pub fn push_repeat(s: &mut String, c: char, n: usize)
    ensures
        final(s)@ == old(s)@ + repeat_char(c, n as int),
{
    let ghost start = s@;
    let mut k: usize = 0;
    while k < n
        invariant
            k <= n,
            s@ == start + repeat_char(c, k as int),
        decreases n - k,
    {
        push_char(s, c);
        k += 1;
        assert(s@ =~= start + repeat_char(c, k as int));
    }
}

/// `n` rendered in decimal and left-padded with `fill` to at least `width`
/// characters (as `{:0w}` or `{:>w}` would).
pub fn u64_padded(n: u64, width: usize, fill: char) -> (r: String)
    ensures
        r@ == pad_left(dec(n as nat), width as int, fill),
{
    let digits = u64_to_dec(n);
    let len = digits.unicode_len();
    let mut s = String::new();
    if len < width {
        push_repeat(&mut s, fill, width - len);
    }
    s.append(digits.as_str());
    assert(s@ =~= pad_left(dec(n as nat), width as int, fill));
    s
}

/// Padding on the left: the result is as long as the text or the width,
/// whichever is more; it ends with the text and everything before it is
/// the fill character.
pub proof fn law_pad_left(s: Seq<char>, width: int, fill: char)
    ensures
        pad_left(s, width, fill).len() == if s.len() >= width {
            s.len() as int
        } else {
            width
        },
        pad_left(s, width, fill).skip(pad_left(s, width, fill).len() - s.len()) == s,
        forall|i: int|
            0 <= i < pad_left(s, width, fill).len() - s.len() ==> #[trigger] pad_left(s, width, fill)[i] == fill,
{
    let p = pad_left(s, width, fill);
    assert(p.skip(p.len() - s.len()) =~= s);
}

/// Decimal digits have no leading zero: the first digit of a number other
/// than 0 is not `0`, and each digit is the character of its value.
pub proof fn law_decimal_digits(n: nat)
    ensures
        n > 0 ==> dec(n)[0] != '0',
        dec(0) == seq!['0'],
        digit_char(0) == '0' && digit_char(1) == '1' && digit_char(2) == '2' && digit_char(3) == '3',
        digit_char(4) == '4' && digit_char(5) == '5' && digit_char(6) == '6' && digit_char(7) == '7',
        digit_char(8) == '8' && digit_char(9) == '9',
    decreases n,
{
    if n >= 10 {
        law_decimal_digits(n / 10);
        lemma_dec_nonempty(n / 10);
        assert(dec(n)[0] == dec(n / 10)[0]);
    }
}

} // verus!
