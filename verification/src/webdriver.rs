//! The computing half of the W3C WebDriver client: which driver serves which
//! browser, the capabilities document, and the decoding of what a driver
//! sends back (HTTP responses, chunked bodies, base64 screenshots). The
//! sockets and processes are the application's.
use vstd::prelude::*;
use vstd::string::StringSliceAdditionalSpecFns;
use vstd::utf8::{decode_utf8, encode_utf8, is_ascii_chars, valid_utf8};

use crate::json::{get_spec, path_spec, push_json_string, str_at2, str_of, Json};
use crate::native::{b64_char, b64_encode_spec, hex8_spec};
use crate::numfmt::{dec, u64_to_dec};
use crate::text::{
    ascii_lower, contains_str, has_substring, is_white, is_white_exec, lines_of, push_char,
    split_lines, str_chars, str_eq, strings_view, to_ascii_lower, trim, trim_range,
};

verus! {

/// An error from the WebDriver layer.
#[derive(Debug)]
pub struct WdError(pub String);

fn wd_err(s: &str) -> (e: WdError)
    ensures
        e.0@ == s@,
{
    WdError(String::from_str(s))
}

// ---------------------------------------------------------------- base64
/// The bytes that base64 input may carry between symbols.
pub open spec fn is_ascii_space(b: u8) -> bool {
    b == 32 || b == 9 || b == 10 || b == 12 || b == 13
}

/// The 6-bit value of a base64 symbol, or -1 for a byte outside the alphabet.
pub open spec fn sextet(b: u8) -> int {
    if 65 <= b <= 90 {
        b - 65
    } else if 97 <= b <= 122 {
        b - 97 + 26
    } else if 48 <= b <= 57 {
        b - 48 + 52
    } else if b == 43 {
        62
    } else if b == 47 {
        63
    } else {
        -1
    }
}

/// The symbols that decoding reads: every non-space byte before the first `=`.
pub open spec fn b64_symbols(bs: Seq<u8>) -> Seq<u8>
    decreases bs.len(),
{
    if bs.len() == 0 || bs[0] == 61 {
        seq![]
    } else if is_ascii_space(bs[0]) {
        b64_symbols(bs.drop_first())
    } else {
        seq![bs[0]] + b64_symbols(bs.drop_first())
    }
}

/// The first symbol that is not in the alphabet, if any.
pub open spec fn first_bad(syms: Seq<u8>) -> Option<u8>
    decreases syms.len(),
{
    if syms.len() == 0 {
        None
    } else if sextet(syms[0]) < 0 {
        Some(syms[0])
    } else {
        first_bad(syms.drop_first())
    }
}

/// The three bytes that four sextets carry, each cut to its low 8 bits.
pub open spec fn byte0(a: int, b: int) -> u8 {
    ((a * 4) % 256 + b / 16) as u8
}

pub open spec fn byte1(b: int, c: int) -> u8 {
    ((b % 16) * 16 + c / 4) as u8
}

pub open spec fn byte2(c: int, d: int) -> u8 {
    ((c % 4) * 64 + d) as u8
}

/// The bytes carried by a run of valid symbols: three per full group of four,
/// then one for a trailing pair and two for a trailing triple (a lone
/// trailing symbol carries nothing).
pub open spec fn b64_bytes(syms: Seq<u8>) -> Seq<u8>
    decreases syms.len(),
{
    if syms.len() >= 4 {
        seq![
            byte0(sextet(syms[0]), sextet(syms[1])),
            byte1(sextet(syms[1]), sextet(syms[2])),
            byte2(sextet(syms[2]), sextet(syms[3])),
        ] + b64_bytes(syms.skip(4))
    } else if syms.len() == 3 {
        seq![byte0(sextet(syms[0]), sextet(syms[1])), byte1(sextet(syms[1]), sextet(syms[2]))]
    } else if syms.len() == 2 {
        seq![byte0(sextet(syms[0]), sextet(syms[1]))]
    } else {
        seq![]
    }
}

/// What decoding `bs` gives: the bytes, or the first byte outside the alphabet.
pub open spec fn b64_spec(bs: Seq<u8>) -> Result<Seq<u8>, u8> {
    let syms = b64_symbols(bs);
    match first_bad(syms) {
        Some(b) => Err(b),
        None => Ok(b64_bytes(syms)),
    }
}

fn sextet_of(b: u8) -> (r: u8)
    ensures
        sextet(b) >= 0 ==> r as int == sextet(b),
        sextet(b) < 0 ==> r == 255,
{
    if 65 <= b && b <= 90 {
        b - 65
    } else if 97 <= b && b <= 122 {
        b - 97 + 26
    } else if 48 <= b && b <= 57 {
        b - 48 + 52
    } else if b == 43 {
        62
    } else if b == 47 {
        63
    } else {
        255
    }
}

proof fn lemma_bytes(a: u8, b: u8, c: u8, d: u8)
    requires
        a < 64,
        b < 64,
        c < 64,
        d < 64,
    ensures
        ((a << 2u8) | (b >> 4u8)) == byte0(a as int, b as int),
        ((b << 4u8) | (c >> 2u8)) == byte1(b as int, c as int),
        ((c << 6u8) | d) == byte2(c as int, d as int),
{
    assert(((a << 2u8) | (b >> 4u8)) == ((a * 4) % 256 + b / 16) as u8) by (bit_vector)
        requires
            a < 64,
            b < 64,
    ;
    assert(((b << 4u8) | (c >> 2u8)) == ((b % 16) * 16 + c / 4) as u8) by (bit_vector)
        requires
            b < 64,
            c < 64,
    ;
    assert(((c << 6u8) | d) == ((c % 4) * 64 + d) as u8) by (bit_vector)
        requires
            c < 64,
            d < 64,
    ;
}

proof fn lemma_first_bad_at(syms: Seq<u8>, i: int)
    requires
        0 <= i <= syms.len(),
        forall|j: int| 0 <= j < i ==> sextet(#[trigger] syms[j]) >= 0,
    ensures
        i < syms.len() && sextet(syms[i]) < 0 ==> first_bad(syms) == Some(syms[i]),
        i == syms.len() ==> first_bad(syms) is None,
    decreases i,
{
    if i > 0 {
        let t = syms.drop_first();
        assert forall|j: int| 0 <= j < i - 1 implies sextet(#[trigger] t[j]) >= 0 by {
            assert(t[j] == syms[j + 1]);
        }
        lemma_first_bad_at(t, i - 1);
    } else if syms.len() > 0 {
    }
}

/// The bytes of a text whose characters are all ASCII.
pub open spec fn ascii_bytes(cs: Seq<char>) -> Seq<u8> {
    cs.map_values(|c: char| c as u8)
}

proof fn lemma_symbol_byte(v: int)
    requires
        0 <= v < 64,
    ensures
        sextet(b64_char(v) as u8) == v,
        !is_ascii_space(b64_char(v) as u8),
        b64_char(v) as u8 != 61,
{
}

proof fn lemma_symbols_prefix(s1: Seq<u8>, s2: Seq<u8>)
    requires
        forall|i: int| 0 <= i < s1.len() ==> !is_ascii_space(#[trigger] s1[i]) && s1[i] != 61,
    ensures
        b64_symbols(s1 + s2) == s1 + b64_symbols(s2),
    decreases s1.len(),
{
    if s1.len() > 0 {
        assert((s1 + s2).drop_first() =~= s1.drop_first() + s2);
        assert((s1 + s2)[0] == s1[0]);
        lemma_symbols_prefix(s1.drop_first(), s2);
        assert(s1 + b64_symbols(s2) =~= seq![s1[0]] + (s1.drop_first() + b64_symbols(s2)));
    } else {
        assert(s1 + s2 =~= s2);
        assert(s1 + b64_symbols(s2) =~= b64_symbols(s2));
    }
}

proof fn lemma_group_arith(a: int, b: int, c: int)
    requires
        0 <= a < 256,
        0 <= b < 256,
        0 <= c < 256,
    ensures
        byte0(a / 4, (a % 4) * 16) == a,
        byte0(a / 4, (a % 4) * 16 + b / 16) == a,
        byte1((a % 4) * 16 + b / 16, (b % 16) * 4) == b,
        byte1((a % 4) * 16 + b / 16, (b % 16) * 4 + c / 64) == b,
        byte2((b % 16) * 4 + c / 64, c % 64) == c,
{
}

proof fn lemma_roundtrip(bs: Seq<u8>)
    ensures
        b64_bytes(b64_symbols(ascii_bytes(b64_encode_spec(bs)))) == bs,
        forall|i: int|
            0 <= i < b64_symbols(ascii_bytes(b64_encode_spec(bs))).len() ==> sextet(
                #[trigger] b64_symbols(ascii_bytes(b64_encode_spec(bs)))[i],
            ) >= 0,
    decreases bs.len(),
{
    let syms = b64_symbols(ascii_bytes(b64_encode_spec(bs)));
    if bs.len() == 0 {
        assert(ascii_bytes(b64_encode_spec(bs)) =~= Seq::<u8>::empty());
        assert(b64_bytes(syms) =~= bs);
    } else if bs.len() == 1 {
        let a = bs[0] as int;
        let x0 = a / 4;
        let x1 = (a % 4) * 16;
        lemma_symbol_byte(x0);
        lemma_symbol_byte(x1);
        let g = seq![b64_char(x0) as u8, b64_char(x1) as u8];
        assert(ascii_bytes(b64_encode_spec(bs)) =~= g + seq![61u8, 61u8]);
        lemma_symbols_prefix(g, seq![61u8, 61u8]);
        assert(b64_symbols(seq![61u8, 61u8]) =~= Seq::<u8>::empty());
        assert(syms =~= g);
        lemma_group_arith(a, 0, 0);
        assert(b64_bytes(syms) =~= bs);
    } else if bs.len() == 2 {
        let a = bs[0] as int;
        let b = bs[1] as int;
        let x0 = a / 4;
        let x1 = (a % 4) * 16 + b / 16;
        let x2 = (b % 16) * 4;
        lemma_symbol_byte(x0);
        lemma_symbol_byte(x1);
        lemma_symbol_byte(x2);
        let g = seq![b64_char(x0) as u8, b64_char(x1) as u8, b64_char(x2) as u8];
        assert(ascii_bytes(b64_encode_spec(bs)) =~= g + seq![61u8]);
        lemma_symbols_prefix(g, seq![61u8]);
        assert(b64_symbols(seq![61u8]) =~= Seq::<u8>::empty());
        assert(syms =~= g);
        lemma_group_arith(a, b, 0);
        assert(b64_bytes(syms) =~= bs);
    } else {
        let a = bs[0] as int;
        let b = bs[1] as int;
        let c = bs[2] as int;
        let x0 = a / 4;
        let x1 = (a % 4) * 16 + b / 16;
        let x2 = (b % 16) * 4 + c / 64;
        let x3 = c % 64;
        lemma_symbol_byte(x0);
        lemma_symbol_byte(x1);
        lemma_symbol_byte(x2);
        lemma_symbol_byte(x3);
        let rest = bs.skip(3);
        lemma_roundtrip(rest);
        let g = seq![b64_char(x0) as u8, b64_char(x1) as u8, b64_char(x2) as u8, b64_char(x3) as u8];
        let tail = ascii_bytes(b64_encode_spec(rest));
        assert(ascii_bytes(b64_encode_spec(bs)) =~= g + tail);
        lemma_symbols_prefix(g, tail);
        let rs = b64_symbols(tail);
        assert(syms =~= g + rs);
        assert(syms.skip(4) =~= rs);
        lemma_group_arith(a, b, c);
        assert(b64_bytes(syms) =~= seq![bs[0], bs[1], bs[2]] + rest);
        assert(seq![bs[0], bs[1], bs[2]] + rest =~= bs);
        assert forall|i: int| 0 <= i < syms.len() implies sextet(#[trigger] syms[i]) >= 0 by {
            if i >= 4 {
                assert(syms[i] == rs[i - 4]);
            }
        }
    }
}

/// Decoding inverts standard base64 encoding: the padded text that the
/// encoder writes for any byte sequence, read back as bytes, decodes to that
/// sequence. In particular each symbol decodes to the value it was written
/// for: `A`-`Z` to 0-25, `a`-`z` to 26-51, `0`-`9` to 52-61, `+` to 62 and
/// `/` to 63.
pub proof fn law_decode_inverts_encode(bs: Seq<u8>)
    ensures
        b64_spec(ascii_bytes(b64_encode_spec(bs))) == Ok::<Seq<u8>, u8>(bs),
        forall|v: int| 0 <= v < 64 ==> sextet(#[trigger] b64_char(v) as u8) == v,
        sextet(43) == 62,
        sextet(47) == 63,
{
    lemma_roundtrip(bs);
    let syms = b64_symbols(ascii_bytes(b64_encode_spec(bs)));
    lemma_first_bad_at(syms, syms.len() as int);
    assert forall|v: int| 0 <= v < 64 implies sextet(#[trigger] b64_char(v) as u8) == v by {
        lemma_symbol_byte(v);
    }
}

/// Decodes standard base64: ASCII whitespace is skipped, decoding stops at
/// the first `=`, a trailing pair or triple of symbols yields one or two
/// bytes, and a byte outside the alphabet is an error naming it.
pub fn b64_decode(input: &str) -> (r: Result<Vec<u8>, WdError>)
    ensures
        match (r, b64_spec(input.spec_bytes())) {
            (Ok(v), Ok(bytes)) => v@ == bytes,
            (Err(e), Err(b)) => e.0@ == "base64: bad char "@ + seq![b as char],
            _ => false,
        },
{
    let bytes = input.as_bytes();
    let ghost bs = bytes@;
    let n = bytes.len();
    // the symbols: non-space bytes before the first `=`
    let mut syms: Vec<u8> = Vec::new();
    let mut k: usize = 0;
    assert(bs.skip(0) =~= bs);
    assert(syms@ + b64_symbols(bs) =~= b64_symbols(bs));
    while k < n
        invariant_except_break
            syms@ + b64_symbols(bs.skip(k as int)) == b64_symbols(bs),
        invariant
            n == bs.len(),
            bs == bytes@,
            k <= n,
        ensures
            syms@ == b64_symbols(bs),
        decreases n - k,
    {
        let b = bytes[k];
        let ghost rest = bs.skip(k as int);
        assert(rest[0] == b);
        assert(rest.drop_first() =~= bs.skip(k + 1));
        if b == 61 {
            assert(syms@ =~= syms@ + b64_symbols(rest));
            break;
        }
        if !(b == 32 || b == 9 || b == 10 || b == 12 || b == 13) {
            syms.push(b);
        }
        k += 1;
        assert(syms@ + b64_symbols(bs.skip(k as int)) =~= b64_symbols(bs));
    }
    proof {
        if k >= n {
            assert(bs.skip(k as int) =~= Seq::<u8>::empty());
            assert(syms@ + b64_symbols(bs.skip(k as int)) =~= syms@);
        }
    }
    // every symbol must be in the alphabet
    let m = syms.len();
    let mut i: usize = 0;
    while i < m
        invariant
            m == syms@.len(),
            syms@ == b64_symbols(bs),
            bs == input.spec_bytes(),
            i <= m,
            forall|j: int| 0 <= j < i ==> sextet(#[trigger] syms@[j]) >= 0,
        decreases m - i,
    {
        let b = syms[i];
        if sextet_of(b) == 255 {
            proof {
                lemma_first_bad_at(syms@, i as int);
            }
            let mut msg = String::from_str("base64: bad char ");
            push_char(&mut msg, b as char);
            assert(msg@ =~= "base64: bad char "@ + seq![b as char]);
            return Err(WdError(msg));
        }
        i += 1;
    }
    proof {
        lemma_first_bad_at(syms@, m as int);
    }
    // four symbols make three bytes
    let mut out: Vec<u8> = Vec::new();
    let mut g: usize = 0;
    assert(syms@.skip(0) =~= syms@);
    assert(out@ + b64_bytes(syms@) =~= b64_bytes(syms@));
    while m - g >= 4
        invariant
            m == syms@.len(),
            g <= m,
            forall|j: int| 0 <= j < m ==> 0 <= sextet(#[trigger] syms@[j]) < 64,
            out@ + b64_bytes(syms@.skip(g as int)) == b64_bytes(syms@),
        decreases m - g,
    {
        let a = sextet_of(syms[g]);
        let b = sextet_of(syms[g + 1]);
        let c = sextet_of(syms[g + 2]);
        let d = sextet_of(syms[g + 3]);
        proof {
            lemma_bytes(a, b, c, d);
            let t = syms@.skip(g as int);
            assert(t.skip(4) =~= syms@.skip(g + 4));
        }
        out.push((a << 2u8) | (b >> 4u8));
        out.push((b << 4u8) | (c >> 2u8));
        out.push((c << 6u8) | d);
        g += 4;
        assert(out@ + b64_bytes(syms@.skip(g as int)) =~= b64_bytes(syms@));
    }
    let rem = m - g;
    let ghost before = out@;
    if rem >= 2 {
        let a = sextet_of(syms[g]);
        let b = sextet_of(syms[g + 1]);
        if rem == 3 {
            let c = sextet_of(syms[g + 2]);
            proof {
                lemma_bytes(a, b, c, 0);
            }
            out.push((a << 2u8) | (b >> 4u8));
            out.push((b << 4u8) | (c >> 2u8));
        } else {
            proof {
                lemma_bytes(a, b, 0, 0);
            }
            out.push((a << 2u8) | (b >> 4u8));
        }
    }
    assert(out@ =~= before + b64_bytes(syms@.skip(g as int)));
    Ok(out)
}

// ---------------------------------------------------------------- UTF-8
/// Decodes UTF-8 bytes into a `String`.
///
/// Trusted: calls `String::from_utf8`, which std documents as succeeding
/// exactly when the bytes are valid UTF-8, in which case the string holds the
/// characters they encode.
#[verifier::external_body]
fn utf8_string(bytes: Vec<u8>) -> (r: Option<String>)
    ensures
        match r {
            Some(s) => valid_utf8(bytes@) && s@ == decode_utf8(bytes@),
            None => !valid_utf8(bytes@),
        },
{
    String::from_utf8(bytes).ok()
}

/// A copy of `bs[from..to]`.
fn byte_range(bs: &[u8], from: usize, to: usize) -> (r: Vec<u8>)
    requires
        from <= to <= bs@.len(),
    ensures
        r@ == bs@.subrange(from as int, to as int),
{
    let mut v: Vec<u8> = Vec::new();
    let mut k = from;
    while k < to
        invariant
            from <= k <= to <= bs@.len(),
            v@ == bs@.subrange(from as int, k as int),
        decreases to - k,
    {
        v.push(bs[k]);
        k += 1;
        assert(v@ =~= bs@.subrange(from as int, k as int));
    }
    v
}

// ---------------------------------------------------------------- numbers
/// The value of a hexadecimal digit, or -1.
pub open spec fn hex_digit(c: char) -> int {
    if '0' <= c <= '9' {
        c as int - '0' as int
    } else if 'a' <= c <= 'f' {
        c as int - 'a' as int + 10
    } else if 'A' <= c <= 'F' {
        c as int - 'A' as int + 10
    } else {
        -1
    }
}

/// The value of a run of digits in base `radix`, given each digit's value.
pub open spec fn digits_value(ds: Seq<char>, radix: int) -> int
    decreases ds.len(),
{
    if ds.len() == 0 {
        0
    } else {
        digits_value(ds.drop_last(), radix) * radix + if radix == 16 {
            hex_digit(ds.last())
        } else {
            ds.last() as int - '0' as int
        }
    }
}

pub open spec fn is_radix_digit(c: char, radix: int) -> bool {
    if radix == 16 {
        hex_digit(c) >= 0
    } else {
        '0' <= c <= '9'
    }
}

/// The digits of an unsigned number: the text after an optional `+`.
pub open spec fn unsigned_digits(s: Seq<char>) -> Seq<char> {
    if s.len() > 0 && s[0] == '+' {
        s.drop_first()
    } else {
        s
    }
}

/// What `from_str_radix` gives for an unsigned type whose largest value is
/// `max`: an optional `+`, then at least one digit, and no overflow.
pub open spec fn parse_unsigned(s: Seq<char>, radix: int, max: int) -> Option<int> {
    let ds = unsigned_digits(s);
    if ds.len() == 0 {
        None
    } else if exists|i: int| 0 <= i < ds.len() && !is_radix_digit(#[trigger] ds[i], radix) {
        None
    } else if digits_value(ds, radix) > max {
        None
    } else {
        Some(digits_value(ds, radix))
    }
}

proof fn lemma_digits_step(ds: Seq<char>, k: int, radix: int)
    requires
        0 <= k < ds.len(),
    ensures
        digits_value(ds.take(k + 1), radix) == digits_value(ds.take(k), radix) * radix + if radix
            == 16 {
            hex_digit(ds[k])
        } else {
            ds[k] as int - '0' as int
        },
{
    assert(ds.take(k + 1).drop_last() =~= ds.take(k));
}

proof fn lemma_digits_nonneg(ds: Seq<char>, radix: int)
    requires
        radix == 10 || radix == 16,
        forall|i: int| 0 <= i < ds.len() ==> is_radix_digit(#[trigger] ds[i], radix),
    ensures
        digits_value(ds, radix) >= 0,
    decreases ds.len(),
{
    if ds.len() > 0 {
        lemma_digits_nonneg(ds.drop_last(), radix);
        assert(is_radix_digit(ds[ds.len() - 1], radix));
    }
}

proof fn lemma_digits_mono(ds: Seq<char>, k: int, radix: int)
    requires
        radix == 10 || radix == 16,
        0 <= k <= ds.len(),
        forall|i: int| 0 <= i < ds.len() ==> is_radix_digit(#[trigger] ds[i], radix),
    ensures
        digits_value(ds.take(k), radix) <= digits_value(ds, radix),
    decreases ds.len() - k,
{
    if k < ds.len() {
        lemma_digits_mono(ds, k + 1, radix);
        lemma_digits_step(ds, k, radix);
        assert forall|i: int| 0 <= i < ds.take(k).len() implies is_radix_digit(
            #[trigger] ds.take(k)[i],
            radix,
        ) by {}
        lemma_digits_nonneg(ds.take(k), radix);
        assert(is_radix_digit(ds[k], radix));
        assert(digits_value(ds.take(k), radix) <= digits_value(ds.take(k), radix) * radix)
            by (nonlinear_arith)
            requires
                digits_value(ds.take(k), radix) >= 0,
                radix >= 10,
        ;
    } else {
        assert(ds.take(k) =~= ds);
    }
}

/// Parses `cs[from..to]` as `from_str_radix` does for an unsigned integer no
/// larger than `max`.
pub fn parse_unsigned_exec(cs: &Vec<char>, from: usize, to: usize, radix: u64, max: u64) -> (r: Option<
    u64,
>)
    requires
        from <= to <= cs@.len(),
        radix == 10 || radix == 16,
    ensures
        match r {
            Some(v) => parse_unsigned(cs@.subrange(from as int, to as int), radix as int, max as int)
                == Some(v as int),
            None => parse_unsigned(cs@.subrange(from as int, to as int), radix as int, max as int)
                is None,
        },
{
    let ghost s = cs@.subrange(from as int, to as int);
    let mut a = from;
    if a < to && cs[a] == '+' {
        a += 1;
    }
    let ghost ds = cs@.subrange(a as int, to as int);
    assert(ds =~= unsigned_digits(s));
    if a == to {
        assert(ds.len() == 0);
        assert(parse_unsigned(s, radix as int, max as int) is None);
        return None;
    }
    let mut v: u64 = 0;
    let mut k = a;
    while k < to
        invariant
            a <= k <= to <= cs@.len(),
            radix == 10 || radix == 16,
            ds == cs@.subrange(a as int, to as int),
            s == cs@.subrange(from as int, to as int),
            ds == unsigned_digits(s),
            ds.len() > 0,
            v as int == digits_value(ds.take(k - a), radix as int),
            v <= max,
            forall|i: int| 0 <= i < k - a ==> is_radix_digit(#[trigger] ds[i], radix as int),
        decreases to - k,
    {
        let c = cs[k];
        proof {
            lemma_digits_step(ds, k - a, radix as int);
            assert(ds[k - a] == c);
        }
        let ok = if radix == 16 {
            ('0' <= c && c <= '9') || ('a' <= c && c <= 'f') || ('A' <= c && c <= 'F')
        } else {
            '0' <= c && c <= '9'
        };
        if !ok {
            assert(!is_radix_digit(ds[k - a], radix as int));
            assert(exists|i: int| 0 <= i < ds.len() && !is_radix_digit(#[trigger] ds[i], radix as int));
            assert(parse_unsigned(s, radix as int, max as int) is None);
            return None;
        }
        let d: u64 = if '0' <= c && c <= '9' {
            (c as u64) - ('0' as u64)
        } else if 'a' <= c && c <= 'f' {
            (c as u64) - ('a' as u64) + 10
        } else {
            (c as u64) - ('A' as u64) + 10
        };
        assert(d as int == if radix == 16 {
            hex_digit(c)
        } else {
            c as int - '0' as int
        });
        assert(is_radix_digit(ds[k - a], radix as int));
        let big = match v.checked_mul(radix) {
            None => true,
            Some(m) => match m.checked_add(d) {
                None => true,
                Some(nv) => {
                    if nv > max {
                        true
                    } else {
                        v = nv;
                        false
                    }
                },
            },
        };
        if big {
            proof {
                assert(digits_value(ds.take(k - a + 1), radix as int) > max) by (nonlinear_arith)
                    requires
                        digits_value(ds.take(k - a + 1), radix as int) == v * radix + d,
                        v * radix + d > max || v * radix > u64::MAX,
                        d >= 0,
                        max <= u64::MAX,
                ;
                lemma_too_big(ds, k - a, radix as int, max as int);
                assert(parse_unsigned(s, radix as int, max as int) is None);
            }
            return None;
        }
        k += 1;
    }
    assert(ds.take(k - a) =~= ds);
    Some(v)
}

proof fn lemma_too_big(ds: Seq<char>, k: int, radix: int, max: int)
    requires
        radix == 10 || radix == 16,
        0 <= k < ds.len(),
        forall|i: int| 0 <= i <= k ==> is_radix_digit(#[trigger] ds[i], radix),
        digits_value(ds.take(k + 1), radix) > max,
    ensures
        parse_unsigned(ds, radix, max) is None || exists|i: int|
            0 <= i < ds.len() && !is_radix_digit(#[trigger] ds[i], radix),
{
    if forall|i: int| 0 <= i < ds.len() ==> is_radix_digit(#[trigger] ds[i], radix) {
        lemma_digits_mono(ds, k + 1, radix);
    }
}

// ---------------------------------------------------------------- chunked bodies
/// Index of the first CRLF at or after `i` (the length when there is none).
pub open spec fn find_crlf(s: Seq<u8>, i: int) -> int
    decreases s.len() - i,
{
    if i < 0 || i + 1 >= s.len() {
        s.len() as int
    } else if s[i] == 13 && s[i + 1] == 10 {
        i
    } else {
        find_crlf(s, i + 1)
    }
}

pub proof fn lemma_find_crlf(s: Seq<u8>, i: int)
    requires
        0 <= i <= s.len(),
    ensures
        find_crlf(s, i) >= i,
        find_crlf(s, i) < s.len() ==> find_crlf(s, i) + 1 < s.len() && s[find_crlf(s, i)] == 13
            && s[find_crlf(s, i) + 1] == 10,
    decreases s.len() - i,
{
    if i + 1 < s.len() && !(s[i] == 13 && s[i + 1] == 10) {
        lemma_find_crlf(s, i + 1);
    }
}

/// The characters before the first `;` (all of them when there is none).
pub open spec fn before_semicolon(cs: Seq<char>) -> Seq<char>
    decreases cs.len(),
{
    if cs.len() == 0 || cs[0] == ';' {
        seq![]
    } else {
        seq![cs[0]] + before_semicolon(cs.drop_first())
    }
}

/// The size of the chunk whose size line is `line`.
pub open spec fn chunk_size(line: Seq<u8>) -> Result<nat, Seq<char>> {
    if !valid_utf8(line) {
        Err("chunked: non-utf8 size"@)
    } else {
        match parse_unsigned(trim(before_semicolon(decode_utf8(line))), 16, usize::MAX as int) {
            None => Err("chunked: bad size"@),
            Some(n) => Ok(n as nat),
        }
    }
}

/// The payload of a chunked body from index `i` on: each chunk is a
/// hexadecimal size line (extensions after `;` ignored) and that many bytes
/// with an optional CRLF after them; a zero size ends the body, as does the
/// end of the input.
pub open spec fn chunk_payload(input: Seq<u8>, i: int) -> Result<Seq<u8>, Seq<char>>
    decreases input.len() - i,
{
    if i < 0 || i >= input.len() {
        Ok(seq![])
    } else {
        let e = find_crlf(input, i);
        proof {
            lemma_find_crlf(input, i);
        }
        if e >= input.len() {
            Err("chunked: no size line terminator"@)
        } else {
            match chunk_size(input.subrange(i, e)) {
                Err(m) => Err(m),
                Ok(size) => {
                    let j = e + 2;
                    if size == 0 {
                        Ok(seq![])
                    } else if j + size > input.len() {
                        Err("chunked: short chunk"@)
                    } else {
                        let k = j + size;
                        let next = if k + 2 <= input.len() && input[k] == 13 && input[k + 1] == 10 {
                            k + 2
                        } else {
                            k
                        };
                        match chunk_payload(input, next) {
                            Ok(rest) => Ok(input.subrange(j, k) + rest),
                            Err(m) => Err(m),
                        }
                    }
                },
            }
        }
    }
}

/// What decoding a chunked body gives.
pub open spec fn chunked_spec(input: Seq<u8>) -> Result<Seq<char>, Seq<char>> {
    match chunk_payload(input, 0) {
        Err(m) => Err(m),
        Ok(bytes) => if valid_utf8(bytes) {
            Ok(decode_utf8(bytes))
        } else {
            Err("chunked: non-utf8 body"@)
        },
    }
}

/// `p` in front of a successful result.
pub open spec fn prepend(p: Seq<u8>, r: Result<Seq<u8>, Seq<char>>) -> Result<Seq<u8>, Seq<char>> {
    match r {
        Ok(b) => Ok(p + b),
        Err(m) => Err(m),
    }
}

/// The size of the chunk whose size line is `bs[from..to]`.
fn chunk_size_exec(bs: &[u8], from: usize, to: usize) -> (r: Result<usize, WdError>)
    requires
        from <= to <= bs@.len(),
    ensures
        match (r, chunk_size(bs@.subrange(from as int, to as int))) {
            (Ok(n), Ok(m)) => n as int == m,
            (Err(e), Err(m)) => e.0@ == m,
            _ => false,
        },
{
    let line = byte_range(bs, from, to);
    let ghost lv = line@;
    let text = match utf8_string(line) {
        None => return Err(wd_err("chunked: non-utf8 size")),
        Some(t) => t,
    };
    let cs = str_chars(text.as_str());
    let mut semi: usize = 0;
    assert(cs@.skip(0) =~= cs@);
    assert(cs@.take(0) + before_semicolon(cs@) =~= before_semicolon(cs@));
    while semi < cs.len() && cs[semi] != ';'
        invariant
            semi <= cs@.len(),
            before_semicolon(cs@) == cs@.take(semi as int) + before_semicolon(cs@.skip(semi as int)),
        decreases cs@.len() - semi,
    {
        let ghost rest = cs@.skip(semi as int);
        assert(rest.drop_first() =~= cs@.skip(semi + 1));
        semi += 1;
        assert(cs@.take(semi as int) =~= cs@.take(semi - 1).push(rest[0]));
    }
    proof {
        let rest = cs@.skip(semi as int);
        assert(before_semicolon(rest) =~= Seq::<char>::empty());
        assert(cs@.take(semi as int) =~= cs@.subrange(0, semi as int));
    }
    let hex = trim_range(&cs, 0, semi);
    let hcs = str_chars(hex.as_str());
    let hl = hcs.len();
    assert(hcs@.subrange(0, hl as int) =~= hcs@);
    match parse_unsigned_exec(&hcs, 0, hl, 16, usize::MAX as u64) {
        None => Err(wd_err("chunked: bad size")),
        Some(n) => Ok(n as usize),
    }
}

proof fn lemma_find_crlf_at(s: Seq<u8>, i: int, e: int)
    requires
        0 <= i <= e,
        e + 1 < s.len(),
        s[e] == 13 && s[e + 1] == 10,
        forall|j: int| i <= j < e ==> #[trigger] s[j] != 13,
    ensures
        find_crlf(s, i) == e,
    decreases e - i,
{
    if i < e {
        lemma_find_crlf_at(s, i + 1, e);
    }
}

/// The size line of a chunk: `digits` as ASCII bytes, read as a hex number.
proof fn lemma_size_line(digits: Seq<char>, v: nat)
    requires
        digits.len() > 0,
        forall|k: int|
            0 <= k < digits.len() ==> ('0' <= #[trigger] digits[k] <= '9') || ('a' <= digits[k] <= 'f'),
        digits_value(digits, 16) == v,
        v <= usize::MAX,
    ensures
        encode_utf8(digits).len() == digits.len(),
        forall|k: int| 0 <= k < digits.len() ==> #[trigger] encode_utf8(digits)[k] != 13,
        chunk_size(encode_utf8(digits)) == Ok::<nat, Seq<char>>(v),
{
    assert(is_ascii_chars(digits));
    vstd::utf8::is_ascii_chars_encode_utf8(digits);
    vstd::utf8::encode_utf8_valid_utf8(digits);
    vstd::utf8::encode_utf8_decode_utf8(digits);
    assert forall|k: int| 0 <= k < digits.len() implies #[trigger] encode_utf8(digits)[k] != 13 by {
        assert(digits[k] as u8 == encode_utf8(digits)[k]);
    }
    lemma_before_semicolon_none(digits);
    crate::text::law_trim(digits);
    assert(unsigned_digits(digits) == digits);
    assert(!exists|i: int| 0 <= i < digits.len() && !is_radix_digit(#[trigger] digits[i], 16));
}

proof fn lemma_before_semicolon_none(cs: Seq<char>)
    requires
        forall|k: int| 0 <= k < cs.len() ==> #[trigger] cs[k] != ';',
    ensures
        before_semicolon(cs) == cs,
    decreases cs.len(),
{
    if cs.len() > 0 {
        lemma_before_semicolon_none(cs.drop_first());
        assert(seq![cs[0]] + cs.drop_first() =~= cs);
    }
}

/// Decoding undoes chunked transfer encoding: a body made of one chunk
/// holding the bytes `p` (its size as eight hex digits, a CRLF, the bytes, a
/// CRLF) and the closing zero-size chunk decodes to the text those bytes
/// encode.
pub proof fn law_chunked_roundtrip(p: Seq<u8>)
    requires
        0 < p.len() <= u32::MAX,
        valid_utf8(p),
    ensures
        chunked_spec(
            encode_utf8(hex8_spec(p.len() as u32)) + seq![13u8, 10u8] + p + seq![13u8, 10u8] + encode_utf8(
                seq!['0'],
            ) + seq![13u8, 10u8, 13u8, 10u8],
        ) == Ok::<Seq<char>, Seq<char>>(decode_utf8(p)),
{
    let v = p.len() as u32;
    let hx = hex8_spec(v);
    crate::native::law_hex8_reads_back(v);
    lemma_size_line(hx, v as nat);
    let zero = seq!['0'];
    assert(digits_value(zero, 16) == 0) by {
        assert(zero.drop_last() =~= Seq::<char>::empty());
        assert(zero.last() == '0');
        assert(hex_digit('0') == 0);
        assert(digits_value(zero.drop_last(), 16) == 0);
    }
    lemma_size_line(zero, 0);
    let a = encode_utf8(hx);
    let z = encode_utf8(zero);
    let body = a + seq![13u8, 10u8] + p + seq![13u8, 10u8] + z + seq![13u8, 10u8, 13u8, 10u8];
    let n = p.len() as int;
    // the size line of the first chunk
    assert forall|j: int| 0 <= j < 8 implies #[trigger] body[j] != 13 by {
        assert(body[j] == a[j]);
    }
    lemma_find_crlf_at(body, 0, 8);
    assert(body.subrange(0, 8) =~= a);
    // the chunk's bytes and the size line of the closing chunk
    let k = 10 + n;
    assert(body.subrange(10, k) =~= p);
    assert(body[k] == 13 && body[k + 1] == 10);
    let next = k + 2;
    assert(body[next] == z[0]);
    assert(body[next + 1] == 13 && body[next + 2] == 10);
    lemma_find_crlf_at(body, next, next + 1);
    assert(body.subrange(next, next + 1) =~= z);
    assert(chunk_payload(body, next) == Ok::<Seq<u8>, Seq<char>>(seq![]));
    assert(chunk_payload(body, 0) == Ok::<Seq<u8>, Seq<char>>(p + seq![]));
    assert(p + Seq::<u8>::empty() =~= p);
}

/// Decodes an HTTP chunked transfer-encoded body into text.
pub fn decode_chunked(input: &[u8]) -> (r: Result<String, WdError>)
    ensures
        match (r, chunked_spec(input@)) {
            (Ok(s), Ok(t)) => s@ == t,
            (Err(e), Err(m)) => e.0@ == m,
            _ => false,
        },
{
    let ghost inp = input@;
    let n = input.len();
    let mut out: Vec<u8> = Vec::new();
    let mut i: usize = 0;
    while i < n
        invariant_except_break
            prepend(out@, chunk_payload(inp, i as int)) == chunk_payload(inp, 0),
        invariant
            inp == input@,
            n == inp.len(),
            i <= n,
        ensures
            Ok::<Seq<u8>, Seq<char>>(out@) == chunk_payload(inp, 0),
        decreases n - i,
    {
        proof {
            lemma_find_crlf(inp, i as int);
        }
        let mut e = i;
        while e + 1 < n && !(input[e] == 13 && input[e + 1] == 10)
            invariant
                i <= e < n,
                n == inp.len(),
                inp == input@,
                find_crlf(inp, i as int) == find_crlf(inp, e as int),
            decreases n - e,
        {
            e += 1;
        }
        if e + 1 >= n {
            return Err(wd_err("chunked: no size line terminator"));
        }
        let size = match chunk_size_exec(input, i, e) {
            Err(err) => return Err(err),
            Ok(sz) => sz,
        };
        let j = e + 2;
        if size == 0 {
            assert(prepend(out@, chunk_payload(inp, i as int)) =~= prepend(out@, Ok(seq![])));
            break;
        }
        if size > n - j {
            return Err(wd_err("chunked: short chunk"));
        }
        let k = j + size;
        let mut kk: usize = 0;
        let ghost before = out@;
        while kk < size
            invariant
                j + size == k <= n,
                n == inp.len(),
                inp == input@,
                kk <= size,
                out@ == before + inp.subrange(j as int, j + kk),
            decreases size - kk,
        {
            out.push(input[j + kk]);
            kk += 1;
            assert(out@ =~= before + inp.subrange(j as int, j + kk));
        }
        let next = if n - k >= 2 && input[k] == 13 && input[k + 1] == 10 {
            k + 2
        } else {
            k
        };
        proof {
            let r = chunk_payload(inp, next as int);
            match r {
                Ok(rest) => {
                    assert(before + inp.subrange(j as int, k as int) + rest =~= before + (inp.subrange(
                        j as int,
                        k as int,
                    ) + rest));
                },
                Err(_) => {},
            }
        }
        i = next;
    }
    proof {
        if i >= n {
            assert(prepend(out@, chunk_payload(inp, i as int)) =~= prepend(out@, Ok(seq![])));
            assert(out@ + Seq::<u8>::empty() =~= out@);
        }
    }
    match utf8_string(out) {
        None => Err(wd_err("chunked: non-utf8 body")),
        Some(s) => Ok(s),
    }
}

// ---------------------------------------------------------------- HTTP responses
/// Index of the first blank line (`\r\n\r\n`) at or after `i`, or -1.
pub open spec fn find_blank_line(raw: Seq<u8>, i: int) -> int
    decreases raw.len() - i,
{
    if i < 0 || i + 4 > raw.len() {
        -1
    } else if raw[i] == 13 && raw[i + 1] == 10 && raw[i + 2] == 13 && raw[i + 3] == 10 {
        i
    } else {
        find_blank_line(raw, i + 1)
    }
}

/// First index at or after `i` that is not white space.
pub open spec fn skip_white(s: Seq<char>, i: int) -> int
    decreases s.len() - i,
{
    if i < 0 || i >= s.len() || !is_white(s[i]) {
        i
    } else {
        skip_white(s, i + 1)
    }
}

/// First index at or after `i` that is white space (or the end).
pub open spec fn skip_word(s: Seq<char>, i: int) -> int
    decreases s.len() - i,
{
    if i < 0 || i >= s.len() || is_white(s[i]) {
        i
    } else {
        skip_word(s, i + 1)
    }
}

/// The second white-space separated word of `s`, if it has one.
pub open spec fn second_word(s: Seq<char>) -> Option<Seq<char>> {
    let c = skip_white(s, skip_word(s, skip_white(s, 0)));
    if c < 0 || c >= s.len() {
        None
    } else {
        Some(s.subrange(c, skip_word(s, c)))
    }
}

/// The status code of a status line: its second word read as a `u16`, or 0.
pub open spec fn status_code(line: Seq<char>) -> int {
    match second_word(line) {
        Some(w) => match parse_unsigned(w, 10, 65535) {
            Some(v) => v,
            None => 0,
        },
        None => 0,
    }
}

proof fn lemma_skip_word_to(s: Seq<char>, i: int, e: int)
    requires
        0 <= i <= e <= s.len(),
        forall|j: int| i <= j < e ==> !is_white(#[trigger] s[j]),
        e == s.len() || is_white(s[e]),
    ensures
        skip_word(s, i) == e,
    decreases e - i,
{
    if i < e {
        lemma_skip_word_to(s, i + 1, e);
    }
}

proof fn lemma_skip_white_to(s: Seq<char>, i: int, e: int)
    requires
        0 <= i <= e <= s.len(),
        forall|j: int| i <= j < e ==> is_white(#[trigger] s[j]),
        e == s.len() || !is_white(s[e]),
    ensures
        skip_white(s, i) == e,
    decreases e - i,
{
    if i < e {
        lemma_skip_white_to(s, i + 1, e);
    }
}

/// The status of a response is read from its status line `VERSION CODE
/// REASON`: for every version word and every code up to 65535, the code
/// written after the version is the status, whatever reason follows.
pub proof fn law_status_line_code(version: Seq<char>, code: nat, reason: Seq<char>)
    requires
        version.len() > 0,
        forall|j: int| 0 <= j < version.len() ==> !is_white(#[trigger] version[j]),
        code <= 65535,
        reason.len() == 0 || is_white(reason[0]),
    ensures
        status_code(version + seq![' '] + dec(code) + reason) == code,
{
    let d = dec(code);
    let s = version + seq![' '] + d + reason;
    let v = version.len() as int;
    crate::http::lemma_dec_digits(code);
    crate::http::lemma_parse_dec(code, 65535);
    lemma_skip_white_to(s, 0, 0);
    assert forall|j: int| 0 <= j < v implies !is_white(#[trigger] s[j]) by {
        assert(s[j] == version[j]);
    }
    lemma_skip_word_to(s, 0, v);
    assert(s[v] == ' ');
    assert(s[v + 1] == d[0]);
    lemma_skip_white_to(s, v, v + 1);
    let c = v + 1;
    let e = c + d.len();
    assert forall|j: int| c <= j < e implies !is_white(#[trigger] s[j]) by {
        assert(s[j] == d[j - c]);
        assert('0' <= d[j - c] <= '9');
    }
    if e < s.len() {
        assert(s[e] == reason[0]);
    }
    lemma_skip_word_to(s, c, e);
    assert(s.subrange(c, e) =~= d);
}

/// What reading a raw HTTP/1.1 response gives: its status code and its body
/// as text (undoing chunked transfer encoding when the headers announce it).
pub open spec fn http_spec(raw: Seq<u8>) -> Result<(int, Seq<char>), Seq<char>> {
    let p = find_blank_line(raw, 0);
    if p < 0 {
        Err("malformed http response (no header/body separator)"@)
    } else {
        let head = raw.subrange(0, p);
        let body = raw.subrange(p + 4, raw.len() as int);
        if !valid_utf8(head) {
            Err("non-utf8 headers"@)
        } else {
            let hs = decode_utf8(head);
            let ls = lines_of(hs);
            if ls.len() == 0 {
                Err("empty status line"@)
            } else {
                let status = status_code(ls[0]);
                if has_substring(ascii_lower(hs), "transfer-encoding: chunked"@) {
                    match chunked_spec(body) {
                        Ok(t) => Ok((status, t)),
                        Err(m) => Err(m),
                    }
                } else if valid_utf8(body) {
                    Ok((status, decode_utf8(body)))
                } else {
                    Err("non-utf8 body"@)
                }
            }
        }
    }
}

/// `10` to the power `k`.
spec fn ten_to(k: nat) -> nat
    decreases k,
{
    if k == 0 {
        1
    } else {
        10 * ten_to((k - 1) as nat)
    }
}

proof fn lemma_dec_len(n: nat, k: nat)
    requires
        k >= 1,
        n < ten_to(k),
    ensures
        dec(n).len() <= k,
    decreases k,
{
    if n >= 10 {
        assert(k >= 2) by {
            if k == 1 {
                assert(ten_to(1) == 10) by {
                    reveal_with_fuel(ten_to, 2);
                }
            }
        }
        assert(n / 10 < ten_to((k - 1) as nat));
        lemma_dec_len(n / 10, (k - 1) as nat);
    }
}

proof fn lemma_find_blank_line_at(s: Seq<u8>, i: int, e: int)
    requires
        0 <= i <= e,
        e + 3 < s.len(),
        s[e] == 13 && s[e + 1] == 10 && s[e + 2] == 13 && s[e + 3] == 10,
        forall|j: int| i <= j < e ==> #[trigger] s[j] != 13,
    ensures
        find_blank_line(s, i) == e,
    decreases e - i,
{
    if i < e {
        lemma_find_blank_line_at(s, i + 1, e);
    }
}

/// Reading a response gives back its status and body: the response whose
/// status line is `HTTP/1.1 CODE OK`, followed by the blank line and the
/// bytes of a body, reads as that code (for every code up to 65535) and the
/// text those bytes encode.
pub proof fn law_response_status_and_body(code: nat, body: Seq<u8>)
    requires
        code <= 65535,
        valid_utf8(body),
    ensures
        http_spec(
            encode_utf8("HTTP/1.1"@ + seq![' '] + dec(code) + " OK"@) + seq![13u8, 10u8, 13u8, 10u8] + body,
        ) == Ok::<(int, Seq<char>), Seq<char>>((code as int, decode_utf8(body))),
{
    reveal_strlit("HTTP/1.1");
    reveal_strlit(" OK");
    let version = "HTTP/1.1"@;
    let reason = " OK"@;
    let d = dec(code);
    crate::http::lemma_dec_digits(code);
    assert(ten_to(5) == 100000) by {
        reveal_with_fuel(ten_to, 6);
    }
    lemma_dec_len(code, 5);
    let sl = version + seq![' '] + d + reason;
    assert forall|k: int| 0 <= k < sl.len() implies #[trigger] sl[k] != '\r' && sl[k] != '\n' && sl[k]
        <= '\u{7f}' by {
        if k >= 9 && k < 9 + d.len() {
            assert(sl[k] == d[k - 9]);
        }
    }
    assert(is_ascii_chars(sl));
    vstd::utf8::is_ascii_chars_encode_utf8(sl);
    vstd::utf8::encode_utf8_valid_utf8(sl);
    vstd::utf8::encode_utf8_decode_utf8(sl);
    let a = encode_utf8(sl);
    let raw = a + seq![13u8, 10u8, 13u8, 10u8] + body;
    let e = a.len() as int;
    assert forall|j: int| 0 <= j < e implies #[trigger] raw[j] != 13 by {
        assert(raw[j] == a[j]);
        assert(sl[j] as u8 == a[j]);
    }
    lemma_find_blank_line_at(raw, 0, e);
    assert(raw.subrange(0, e) =~= a);
    assert(raw.subrange(e + 4, raw.len() as int) =~= body);
    crate::text::lemma_next_newline(sl, 0);
    assert(lines_of(sl) =~= seq![sl.subrange(0, sl.len() as int)]);
    assert(sl.subrange(0, sl.len() as int) =~= sl);
    assert forall|j: int| 0 <= j < version.len() implies !is_white(#[trigger] version[j]) by {}
    law_status_line_code(version, code, reason);
    assert(!has_substring(ascii_lower(sl), "transfer-encoding: chunked"@)) by {
        reveal_strlit("transfer-encoding: chunked");
        assert(ascii_lower(sl).len() <= 17);
    }
}

fn skip_white_exec(s: &Vec<char>, i: usize) -> (r: usize)
    requires
        i <= s@.len(),
    ensures
        r as int == skip_white(s@, i as int),
        i <= r <= s@.len(),
{
    let mut j = i;
    while j < s.len() && is_white_exec(s[j])
        invariant
            i <= j <= s@.len(),
            skip_white(s@, i as int) == skip_white(s@, j as int),
        decreases s@.len() - j,
    {
        j += 1;
    }
    j
}

fn skip_word_exec(s: &Vec<char>, i: usize) -> (r: usize)
    requires
        i <= s@.len(),
    ensures
        r as int == skip_word(s@, i as int),
        i <= r <= s@.len(),
{
    let mut j = i;
    while j < s.len() && !is_white_exec(s[j])
        invariant
            i <= j <= s@.len(),
            skip_word(s@, i as int) == skip_word(s@, j as int),
        decreases s@.len() - j,
    {
        j += 1;
    }
    j
}

fn status_code_exec(line: &String) -> (r: u16)
    ensures
        r as int == status_code(line@),
{
    let cs = str_chars(line.as_str());
    let n = cs.len();
    let a = skip_white_exec(&cs, 0);
    let b = skip_word_exec(&cs, a);
    let c = skip_white_exec(&cs, b);
    if c >= n {
        return 0;
    }
    let d = skip_word_exec(&cs, c);
    match parse_unsigned_exec(&cs, c, d, 10, 65535) {
        Some(v) => v as u16,
        None => 0,
    }
}

/// Splits a raw HTTP/1.1 response into its status code and body text.
pub fn parse_http_response(raw: &[u8]) -> (r: Result<(u16, String), WdError>)
    ensures
        match (r, http_spec(raw@)) {
            (Ok((st, body)), Ok((st2, body2))) => st as int == st2 && body@ == body2,
            (Err(e), Err(m)) => e.0@ == m,
            _ => false,
        },
{
    let ghost rv = raw@;
    let n = raw.len();
    let mut p: usize = 0;
    loop
        invariant
            rv == raw@,
            n == rv.len(),
            p <= n,
            find_blank_line(rv, 0) == find_blank_line(rv, p as int),
        ensures
            p + 4 <= n,
            find_blank_line(rv, 0) == p as int,
        decreases n - p,
    {
        if n - p < 4 {
            return Err(wd_err("malformed http response (no header/body separator)"));
        }
        if raw[p] == 13 && raw[p + 1] == 10 && raw[p + 2] == 13 && raw[p + 3] == 10 {
            break;
        }
        p += 1;
    }
    let head = byte_range(raw, 0, p);
    let body = byte_range(raw, p + 4, n);
    let head_str = match utf8_string(head) {
        None => return Err(wd_err("non-utf8 headers")),
        Some(h) => h,
    };
    let lines = split_lines(head_str.as_str());
    if lines.len() == 0 {
        return Err(wd_err("empty status line"));
    }
    let status = status_code_exec(&lines[0]);
    let lower = to_ascii_lower(head_str.as_str());
    if contains_str(lower.as_str(), "transfer-encoding: chunked") {
        match decode_chunked(body.as_slice()) {
            Ok(t) => Ok((status, t)),
            Err(e) => Err(e),
        }
    } else {
        match utf8_string(body) {
            None => Err(wd_err("non-utf8 body")),
            Some(t) => Ok((status, t)),
        }
    }
}

// ---------------------------------------------------------------- browsers and drivers
/// A browser that a WebDriver session can drive.
#[derive(Debug, Clone, Copy, PartialEq, Eq, Structural)]
pub enum Browser {
    Chrome,
    Firefox,
    Edge,
    Safari,
}

impl Browser {
    /// The driver executable that serves this browser.
    pub fn driver_bin(self) -> (r: &'static str)
        ensures
            r@ == match self {
                Browser::Chrome => "chromedriver"@,
                Browser::Firefox => "geckodriver"@,
                Browser::Edge => "msedgedriver"@,
                Browser::Safari => "safaridriver"@,
            },
    {
        match self {
            Browser::Chrome => "chromedriver",
            Browser::Firefox => "geckodriver",
            Browser::Edge => "msedgedriver",
            Browser::Safari => "safaridriver",
        }
    }

    /// The `browserName` capability for this browser.
    pub fn capability_name(self) -> (r: &'static str)
        ensures
            r@ == match self {
                Browser::Chrome => "chrome"@,
                Browser::Firefox => "firefox"@,
                Browser::Edge => "MicrosoftEdge"@,
                Browser::Safari => "safari"@,
            },
    {
        match self {
            Browser::Chrome => "chrome",
            Browser::Firefox => "firefox",
            Browser::Edge => "MicrosoftEdge",
            Browser::Safari => "safari",
        }
    }
}

/// The browsers to try, in order: the one asked for by name (any case), or
/// else those whose desktop application is installed (Chrome, Firefox, Edge;
/// Safari is never picked on its own), falling back to Firefox.
pub open spec fn search_order_spec(preferred: Option<Seq<char>>, chrome: bool, firefox: bool, edge: bool) -> Seq<
    Browser,
> {
    let auto = (if chrome {
        seq![Browser::Chrome]
    } else {
        seq![]
    }) + (if firefox {
        seq![Browser::Firefox]
    } else {
        seq![]
    }) + (if edge {
        seq![Browser::Edge]
    } else {
        seq![]
    });
    let picked = if auto.len() == 0 {
        seq![Browser::Firefox]
    } else {
        auto
    };
    match preferred {
        Some(p) => {
            let l = ascii_lower(p);
            if l == "chrome"@ {
                seq![Browser::Chrome]
            } else if l == "firefox"@ {
                seq![Browser::Firefox]
            } else if l == "edge"@ {
                seq![Browser::Edge]
            } else if l == "safari"@ {
                seq![Browser::Safari]
            } else {
                picked
            }
        },
        None => picked,
    }
}

/// Which browsers are tried: a browser asked for by name, in any case,
/// alone (`chrome`, `firefox`, `edge`, `safari`); otherwise, and for any
/// other name, the installed ones among Chrome, Firefox and Edge in that
/// order, or Firefox when none is installed. Safari is never picked unless
/// asked for.
pub proof fn law_browser_search_order(p: Seq<char>, chrome: bool, firefox: bool, edge: bool)
    ensures
        search_order_spec(Some(p), chrome, firefox, edge) == search_order_spec(
            Some(ascii_lower(p)),
            chrome,
            firefox,
            edge,
        ),
        search_order_spec(Some("chrome"@), chrome, firefox, edge) == seq![Browser::Chrome],
        search_order_spec(Some("firefox"@), chrome, firefox, edge) == seq![Browser::Firefox],
        search_order_spec(Some("edge"@), chrome, firefox, edge) == seq![Browser::Edge],
        search_order_spec(Some("safari"@), chrome, firefox, edge) == seq![Browser::Safari],
        search_order_spec(None, true, true, true) == seq![Browser::Chrome, Browser::Firefox, Browser::Edge],
        search_order_spec(None, true, false, true) == seq![Browser::Chrome, Browser::Edge],
        search_order_spec(None, false, false, true) == seq![Browser::Edge],
        search_order_spec(None, false, false, false) == seq![Browser::Firefox],
        search_order_spec(None, chrome, firefox, edge).len() >= 1,
        !search_order_spec(None, chrome, firefox, edge).contains(Browser::Safari),
{
    crate::text::lemma_ascii_lower_twice(p);
    reveal_strlit("chrome");
    reveal_strlit("firefox");
    reveal_strlit("edge");
    reveal_strlit("safari");
    assert(ascii_lower("chrome"@) =~= "chrome"@);
    assert(ascii_lower("firefox"@) =~= "firefox"@);
    assert(ascii_lower("edge"@) =~= "edge"@);
    assert(ascii_lower("safari"@) =~= "safari"@);
    assert("chrome"@.len() == 6 && "firefox"@.len() == 7 && "edge"@.len() == 4 && "safari"@.len() == 6);
    assert("chrome"@[0] != "safari"@[0]);
    let o = search_order_spec(None, chrome, firefox, edge);
    assert forall|i: int| 0 <= i < o.len() implies o[i] != Browser::Safari by {}
}

/// The order in which drivers are looked for; `chrome`, `firefox` and `edge`
/// say which desktop browsers were found installed.
pub fn driver_search_order(preferred: Option<&str>, chrome: bool, firefox: bool, edge: bool) -> (r: Vec<
    Browser,
>)
    ensures
        r@ == search_order_spec(
            match preferred {
                Some(p) => Some(p@),
                None => None,
            },
            chrome,
            firefox,
            edge,
        ),
{
    let mut auto: Vec<Browser> = Vec::new();
    if chrome {
        auto.push(Browser::Chrome);
    }
    if firefox {
        auto.push(Browser::Firefox);
    }
    if edge {
        auto.push(Browser::Edge);
    }
    if auto.len() == 0 {
        auto.push(Browser::Firefox);
    }
    let ghost want_auto = search_order_spec(None, chrome, firefox, edge);
    assert(auto@ =~= want_auto);
    match preferred {
        None => auto,
        Some(p) => {
            let l = to_ascii_lower(p);
            if str_eq(l.as_str(), "chrome") {
                vec![Browser::Chrome]
            } else if str_eq(l.as_str(), "firefox") {
                vec![Browser::Firefox]
            } else if str_eq(l.as_str(), "edge") {
                vec![Browser::Edge]
            } else if str_eq(l.as_str(), "safari") {
                vec![Browser::Safari]
            } else {
                auto
            }
        },
    }
}

/// The advice given when no driver could be found or installed.
pub open spec fn install_hint_spec(preferred: Option<Seq<char>>, last_err: Option<Seq<char>>) -> Seq<
    char,
> {
    let want = match preferred {
        Some(p) => p,
        None => "any"@,
    };
    let msg = "no usable WebDriver for `"@ + want + "`.\n  \
         tried: $PATH, ~/.cache/rach/drivers, and auto-install.\n  \
         install a browser so we can auto-download a driver, or install the driver yourself:\n    \
         brew install --cask google-chrome   # macOS \u{2014} Chrome (auto-fetches chromedriver)\n    \
         brew install --cask firefox         # macOS \u{2014} Firefox (auto-fetches geckodriver)\n    \
         apt install chromium-browser        # Linux \u{2014} Chromium (driver via auto-install)\n    \
         apt install firefox                 # Linux \u{2014} Firefox\n    \
         /usr/bin/safaridriver --enable      # macOS Safari \u{2014} one-time, then enable Remote Automation in Develop menu"@;
    match last_err {
        Some(e) => msg + "\n  last error: "@ + e,
        None => msg,
    }
}

/// The message for a failed driver search: what was tried and how to
/// install a browser or driver, with the last auto-install error if any.
pub fn install_hint(preferred: Option<&str>, last_err: Option<String>) -> (r: String)
    ensures
        r@ == install_hint_spec(
            match preferred {
                Some(p) => Some(p@),
                None => None,
            },
            match last_err {
                Some(e) => Some(e@),
                None => None,
            },
        ),
{
    let mut msg = String::from_str("no usable WebDriver for `");
    match preferred {
        Some(p) => msg.append(p),
        None => msg.append("any"),
    }
    msg.append(
        "`.\n  \
         tried: $PATH, ~/.cache/rach/drivers, and auto-install.\n  \
         install a browser so we can auto-download a driver, or install the driver yourself:\n    \
         brew install --cask google-chrome   # macOS \u{2014} Chrome (auto-fetches chromedriver)\n    \
         brew install --cask firefox         # macOS \u{2014} Firefox (auto-fetches geckodriver)\n    \
         apt install chromium-browser        # Linux \u{2014} Chromium (driver via auto-install)\n    \
         apt install firefox                 # Linux \u{2014} Firefox\n    \
         /usr/bin/safaridriver --enable      # macOS Safari \u{2014} one-time, then enable Remote Automation in Develop menu",
    );
    match last_err {
        Some(e) => {
            msg.append("\n  last error: ");
            msg.append(e.as_str());
        },
        None => {},
    }
    msg
}

/// The arguments that make a driver listen on `port`.
pub fn driver_args(browser: Browser, port: u16) -> (r: Vec<String>)
    ensures
        match browser {
            Browser::Chrome | Browser::Edge => r@.len() == 1 && r@[0]@ == "--port="@ + dec(
                port as nat,
            ),
            _ => r@.len() == 2 && r@[0]@ == "--port"@ && r@[1]@ == dec(port as nat),
        },
{
    let num = u64_to_dec(port as u64);
    match browser {
        Browser::Chrome | Browser::Edge => {
            let mut a = String::from_str("--port=");
            a.append(num.as_str());
            vec![a]
        },
        _ => vec![String::from_str("--port"), num],
    }
}

/// The capabilities document (compact JSON, keys in sorted order) that asks
/// for a session of `browser`, headless where the browser supports it.
pub open spec fn capabilities_spec(browser: Browser, headless: bool) -> Seq<char> {
    let name = match browser {
        Browser::Chrome => "chrome"@,
        Browser::Firefox => "firefox"@,
        Browser::Edge => "MicrosoftEdge"@,
        Browser::Safari => "safari"@,
    };
    let options = if !headless {
        ""@
    } else {
        match browser {
            Browser::Chrome => ",\"goog:chromeOptions\":{\"args\":[\"--headless=new\",\"--no-sandbox\",\"--disable-dev-shm-usage\"]}"@,
            Browser::Edge => ",\"ms:edgeOptions\":{\"args\":[\"--headless=new\",\"--no-sandbox\",\"--disable-dev-shm-usage\"]}"@,
            Browser::Firefox => ",\"moz:firefoxOptions\":{\"args\":[\"-headless\"]}"@,
            Browser::Safari => ""@,
        }
    };
    "{\"capabilities\":{\"alwaysMatch\":{\"browserName\":\""@ + name + "\""@ + options + "}}}"@
}

pub fn capabilities_json(browser: Browser, headless: bool) -> (r: String)
    ensures
        r@ == capabilities_spec(browser, headless),
{
    let mut s = String::from_str("{\"capabilities\":{\"alwaysMatch\":{\"browserName\":\"");
    s.append(browser.capability_name());
    s.append("\"");
    let options = if !headless {
        ""
    } else {
        match browser {
            Browser::Chrome => ",\"goog:chromeOptions\":{\"args\":[\"--headless=new\",\"--no-sandbox\",\"--disable-dev-shm-usage\"]}",
            Browser::Edge => ",\"ms:edgeOptions\":{\"args\":[\"--headless=new\",\"--no-sandbox\",\"--disable-dev-shm-usage\"]}",
            Browser::Firefox => ",\"moz:firefoxOptions\":{\"args\":[\"-headless\"]}",
            Browser::Safari => "",
        }
    };
    s.append(options);
    s.append("}}}");
    s
}

/// The request line and headers of a request to a driver on localhost.
pub open spec fn request_head_spec(method: Seq<char>, path: Seq<char>, port: nat, body_len: Option<nat>) -> Seq<
    char,
> {
    let start = method + " "@ + path + " HTTP/1.1\r\nHost: 127.0.0.1:"@ + dec(port)
        + "\r\nUser-Agent: rach/0.2\r\nAccept: application/json\r\nConnection: close\r\n"@;
    match body_len {
        Some(n) => start + "Content-Type: application/json\r\nContent-Length: "@ + dec(n) + "\r\n\r\n"@,
        None => start + "\r\n"@,
    }
}

/// The head of an HTTP/1.1 request; a body is announced as JSON with its
/// length in bytes.
pub fn request_head(method: &str, path: &str, port: u16, body: Option<&str>) -> (r: String)
    ensures
        r@ == request_head_spec(
            method@,
            path@,
            port as nat,
            match body {
                Some(b) => Some(b.spec_bytes().len()),
                None => None,
            },
        ),
{
    let mut s = String::from_str(method);
    s.append(" ");
    s.append(path);
    s.append(" HTTP/1.1\r\nHost: 127.0.0.1:");
    let p = u64_to_dec(port as u64);
    s.append(p.as_str());
    s.append("\r\nUser-Agent: rach/0.2\r\nAccept: application/json\r\nConnection: close\r\n");
    match body {
        Some(b) => {
            s.append("Content-Type: application/json\r\nContent-Length: ");
            let n = b.as_bytes().len();
            let len = u64_to_dec(n as u64);
            s.append(len.as_str());
            s.append("\r\n\r\n");
        },
        None => {
            s.append("\r\n");
        },
    }
    s
}

// ---------------------------------------------------------------- driver downloads
/// The Chrome for Testing platform name of an OS and CPU architecture.
pub open spec fn chrome_platform_spec(os: Seq<char>, arch: Seq<char>) -> Option<Seq<char>> {
    if os == "macos"@ && arch == "aarch64"@ {
        Some("mac-arm64"@)
    } else if os == "macos"@ && arch == "x86_64"@ {
        Some("mac-x64"@)
    } else if os == "linux"@ && arch == "x86_64"@ {
        Some("linux64"@)
    } else if os == "windows"@ && arch == "x86_64"@ {
        Some("win64"@)
    } else if os == "windows"@ && arch == "x86"@ {
        Some("win32"@)
    } else {
        None
    }
}

pub open spec fn unsupported_platform(os: Seq<char>, arch: Seq<char>) -> Seq<char> {
    "unsupported platform: "@ + os + "/"@ + arch
}

fn unsupported(os: &str, arch: &str) -> (r: String)
    ensures
        r@ == unsupported_platform(os@, arch@),
{
    let mut m = String::from_str("unsupported platform: ");
    m.append(os);
    m.append("/");
    m.append(arch);
    m
}

/// The Chrome for Testing platform for `os`/`arch` (as `std::env::consts`
/// names them), or an error naming the unsupported pair.
pub fn chrome_platform(os: &str, arch: &str) -> (r: Result<&'static str, String>)
    ensures
        match (r, chrome_platform_spec(os@, arch@)) {
            (Ok(p), Some(q)) => p@ == q,
            (Err(m), None) => m@ == unsupported_platform(os@, arch@),
            _ => false,
        },
{
    if str_eq(os, "macos") && str_eq(arch, "aarch64") {
        Ok("mac-arm64")
    } else if str_eq(os, "macos") && str_eq(arch, "x86_64") {
        Ok("mac-x64")
    } else if str_eq(os, "linux") && str_eq(arch, "x86_64") {
        Ok("linux64")
    } else if str_eq(os, "windows") && str_eq(arch, "x86_64") {
        Ok("win64")
    } else if str_eq(os, "windows") && str_eq(arch, "x86") {
        Ok("win32")
    } else {
        Err(unsupported(os, arch))
    }
}

/// The geckodriver release that is downloaded.
pub const GECKODRIVER_VERSION: &'static str = "0.36.0";

/// The geckodriver release asset's platform suffix for `os`/`arch`.
pub open spec fn gecko_suffix(os: Seq<char>, arch: Seq<char>) -> Option<Seq<char>> {
    if os == "macos"@ && arch == "aarch64"@ {
        Some("-macos-aarch64.tar.gz"@)
    } else if os == "macos"@ && arch == "x86_64"@ {
        Some("-macos.tar.gz"@)
    } else if os == "linux"@ && arch == "x86_64"@ {
        Some("-linux64.tar.gz"@)
    } else if os == "linux"@ && arch == "aarch64"@ {
        Some("-linux-aarch64.tar.gz"@)
    } else if os == "windows"@ && arch == "x86_64"@ {
        Some("-win64.zip"@)
    } else {
        None
    }
}

/// Which driver builds exist for which platform. Chrome for Testing
/// publishes `mac-arm64` and `mac-x64` for macOS on Apple silicon and Intel,
/// `linux64` for Linux on x86-64, `win64` and `win32` for Windows on x86-64
/// and x86; geckodriver assets end in `-macos-aarch64.tar.gz`,
/// `-macos.tar.gz`, `-linux64.tar.gz`, `-linux-aarch64.tar.gz` and
/// `-win64.zip`. Any other pair is unsupported.
pub proof fn law_driver_platforms(os: Seq<char>, arch: Seq<char>)
    ensures
        chrome_platform_spec("macos"@, "aarch64"@) == Some("mac-arm64"@),
        chrome_platform_spec("macos"@, "x86_64"@) == Some("mac-x64"@),
        chrome_platform_spec("linux"@, "x86_64"@) == Some("linux64"@),
        chrome_platform_spec("windows"@, "x86_64"@) == Some("win64"@),
        chrome_platform_spec("windows"@, "x86"@) == Some("win32"@),
        chrome_platform_spec("linux"@, "aarch64"@) is None,
        gecko_suffix("macos"@, "aarch64"@) == Some("-macos-aarch64.tar.gz"@),
        gecko_suffix("macos"@, "x86_64"@) == Some("-macos.tar.gz"@),
        gecko_suffix("linux"@, "x86_64"@) == Some("-linux64.tar.gz"@),
        gecko_suffix("linux"@, "aarch64"@) == Some("-linux-aarch64.tar.gz"@),
        gecko_suffix("windows"@, "x86_64"@) == Some("-win64.zip"@),
        gecko_suffix("windows"@, "x86"@) is None,
        os != "macos"@ && os != "linux"@ && os != "windows"@ ==> chrome_platform_spec(os, arch) is None
            && gecko_suffix(os, arch) is None,
{
    reveal_strlit("macos");
    reveal_strlit("linux");
    reveal_strlit("windows");
    reveal_strlit("aarch64");
    reveal_strlit("x86_64");
    reveal_strlit("x86");
    assert("macos"@.len() == 5 && "linux"@.len() == 5 && "windows"@.len() == 7);
    assert("macos"@[0] != "linux"@[0]);
    assert("aarch64"@.len() == 7 && "x86_64"@.len() == 6 && "x86"@.len() == 3);
}

/// The name of the geckodriver release asset for `os`/`arch`, or an error
/// naming the unsupported pair.
pub fn geckodriver_asset(os: &str, arch: &str) -> (r: Result<String, String>)
    ensures
        match (r, gecko_suffix(os@, arch@)) {
            (Ok(a), Some(sfx)) => a@ == "geckodriver-v"@ + GECKODRIVER_VERSION@ + sfx,
            (Err(m), None) => m@ == unsupported_platform(os@, arch@),
            _ => false,
        },
{
    let suffix = if str_eq(os, "macos") && str_eq(arch, "aarch64") {
        "-macos-aarch64.tar.gz"
    } else if str_eq(os, "macos") && str_eq(arch, "x86_64") {
        "-macos.tar.gz"
    } else if str_eq(os, "linux") && str_eq(arch, "x86_64") {
        "-linux64.tar.gz"
    } else if str_eq(os, "linux") && str_eq(arch, "aarch64") {
        "-linux-aarch64.tar.gz"
    } else if str_eq(os, "windows") && str_eq(arch, "x86_64") {
        "-win64.zip"
    } else {
        return Err(unsupported(os, arch));
    };
    let mut a = String::from_str("geckodriver-v");
    a.append(GECKODRIVER_VERSION);
    a.append(suffix);
    Ok(a)
}

// ---------------------------------------------------------------- driver replies
/// The body of an `execute/sync` request: the script and no arguments
/// (members in the order JSON objects are written, by name).
pub fn script_body(script: &str) -> (r: String)
    ensures
        r@ == "{\"args\":[],\"script\":"@ + crate::json::json_string_spec(script@) + "}"@,
{
    let mut s = String::from_str("{\"args\":[],\"script\":");
    push_json_string(&mut s, script);
    s.append("}");
    s
}

/// The error a driver reply reports, if any: `value.error`, with
/// `value.message` when present.
pub open spec fn reply_error(doc: Json) -> Option<Seq<char>> {
    match str_of(path_spec(doc, seq!["value"@, "error"@])) {
        Some(err) => Some(
            "WebDriver error: "@ + err + " \u{2014} "@ + match str_of(
                path_spec(doc, seq!["value"@, "message"@]),
            ) {
                Some(m) => m,
                None => seq![],
            },
        ),
        None => None,
    }
}

/// Accepts a driver reply unless it reports an error.
pub fn ensure_ok(doc: &Json) -> (r: Result<(), WdError>)
    ensures
        match (r, reply_error(*doc)) {
            (Ok(()), None) => true,
            (Err(e), Some(m)) => e.0@ == m,
            _ => false,
        },
{
    match str_at2(doc, "value", "error") {
        None => Ok(()),
        Some(err) => {
            let mut m = String::from_str("WebDriver error: ");
            m.append(err.as_str());
            m.append(" \u{2014} ");
            match str_at2(doc, "value", "message") {
                Some(msg) => m.append(msg.as_str()),
                None => {},
            }
            Err(WdError(m))
        },
    }
}

/// The session id of a new-session reply; `shown` is the reply as text,
/// quoted in the error.
pub fn session_id(doc: &Json, shown: &str) -> (r: Result<String, WdError>)
    ensures
        match (r, str_of(path_spec(*doc, seq!["value"@, "sessionId"@]))) {
            (Ok(id), Some(s)) => id@ == s,
            (Err(e), None) => e.0@ == "session response missing sessionId: "@ + shown@,
            _ => false,
        },
{
    match str_at2(doc, "value", "sessionId") {
        Some(id) => Ok(id),
        None => {
            let mut m = String::from_str("session response missing sessionId: ");
            m.append(shown);
            Err(WdError(m))
        },
    }
}

/// The first member of an object whose value is a string.
pub open spec fn first_str_member(fs: Seq<(String, Json)>) -> Option<Seq<char>>
    decreases fs.len(),
{
    if fs.len() == 0 {
        None
    } else {
        match fs[0].1 {
            Json::Str(s) => Some(s@),
            _ => first_str_member(fs.drop_first()),
        }
    }
}

/// The element reference held by `value` (the first string member of the
/// object there).
pub open spec fn element_ref(doc: Json) -> Option<Seq<char>> {
    match get_spec(doc, "value"@) {
        Some(Json::Object(fs)) => first_str_member(fs@),
        _ => None,
    }
}

fn first_str_member_exec(fs: &Vec<(String, Json)>) -> (r: Option<String>)
    ensures
        match (r, first_str_member(fs@)) {
            (Some(a), Some(b)) => a@ == b,
            (None, None) => true,
            _ => false,
        },
{
    let mut k: usize = 0;
    assert(fs@.skip(0) =~= fs@);
    while k < fs.len()
        invariant
            k <= fs@.len(),
            first_str_member(fs@) == first_str_member(fs@.skip(k as int)),
        decreases fs@.len() - k,
    {
        assert(fs@.skip(k as int).drop_first() =~= fs@.skip(k + 1));
        assert(fs@.skip(k as int)[0] == fs@[k as int]);
        match &fs[k].1 {
            Json::Str(s) => {
                return Some(s.clone());
            },
            _ => {},
        }
        k += 1;
    }
    None
}

fn element_ref_exec(doc: &Json) -> (r: Option<String>)
    ensures
        match (r, element_ref(*doc)) {
            (Some(a), Some(b)) => a@ == b,
            (None, None) => true,
            _ => false,
        },
{
    match doc.get("value") {
        Some(Json::Object(fs)) => first_str_member_exec(fs),
        _ => None,
    }
}

/// The element found by a find-element reply, or why there is none.
pub fn element_id(doc: &Json, by: &str, value: &str, shown: &str) -> (r: Result<String, WdError>)
    ensures
        match str_of(path_spec(*doc, seq!["value"@, "error"@])) {
            Some(err) => r matches Err(e) && e.0@ == "find_element("@ + by@ + ", "@ + value@ + "): "@
                + err,
            None => match get_spec(*doc, "value"@) {
                None => r matches Err(e) && e.0@ == "find_element: no value: "@ + shown@,
                Some(_) => match element_ref(*doc) {
                    Some(id) => r matches Ok(s) && s@ == id,
                    None => r matches Err(e) && e.0@ == "find_element: no element id in response: "@
                        + shown@,
                },
            },
        },
{
    match str_at2(doc, "value", "error") {
        Some(err) => {
            let mut m = String::from_str("find_element(");
            m.append(by);
            m.append(", ");
            m.append(value);
            m.append("): ");
            m.append(err.as_str());
            return Err(WdError(m));
        },
        None => {},
    }
    if doc.get("value").is_none() {
        let mut m = String::from_str("find_element: no value: ");
        m.append(shown);
        return Err(WdError(m));
    }
    match element_ref_exec(doc) {
        Some(id) => Ok(id),
        None => {
            let mut m = String::from_str("find_element: no element id in response: ");
            m.append(shown);
            Err(WdError(m))
        },
    }
}

/// The focused element of an active-element reply.
pub fn active_element_id(doc: &Json) -> (r: Result<String, WdError>)
    ensures
        match get_spec(*doc, "value"@) {
            None => r matches Err(e) && e.0@ == "active_element: no value"@,
            Some(_) => match element_ref(*doc) {
                Some(id) => r matches Ok(s) && s@ == id,
                None => r matches Err(e) && e.0@ == "active_element: no id"@,
            },
        },
{
    if doc.get("value").is_none() {
        return Err(wd_err("active_element: no value"));
    }
    match element_ref_exec(doc) {
        Some(id) => Ok(id),
        None => Err(wd_err("active_element: no id")),
    }
}

/// The strings among `items`, in order.
pub open spec fn strings_among(items: Seq<Json>) -> Seq<Seq<char>>
    decreases items.len(),
{
    if items.len() == 0 {
        seq![]
    } else {
        strings_among(items.drop_last()) + match items.last() {
            Json::Str(s) => seq![s@],
            _ => seq![],
        }
    }
}

/// The window handles of a window-handles reply: the strings of the
/// `value` array.
pub fn window_handles(doc: &Json) -> (r: Result<Vec<String>, WdError>)
    ensures
        match get_spec(*doc, "value"@) {
            Some(Json::Array(items)) => r matches Ok(v) && strings_view(v@) == strings_among(items@),
            _ => r matches Err(e) && e.0@ == "list_windows: no array"@,
        },
{
    match doc.get("value") {
        Some(Json::Array(items)) => {
            let mut out: Vec<String> = Vec::new();
            let mut k: usize = 0;
            while k < items.len()
                invariant
                    k <= items@.len(),
                    strings_view(out@) == strings_among(items@.take(k as int)),
                decreases items@.len() - k,
            {
                let ghost prev = strings_view(out@);
                match &items[k] {
                    Json::Str(s) => {
                        out.push(s.clone());
                        assert(strings_view(out@) =~= prev.push(s@));
                    },
                    _ => {},
                }
                proof {
                    assert(items@.take(k + 1).drop_last() =~= items@.take(k as int));
                }
                k += 1;
            }
            assert(items@.take(k as int) =~= items@);
            Ok(out)
        },
        _ => Err(wd_err("list_windows: no array")),
    }
}

/// The handle of the window a new-window reply opened, if it names one.
pub fn new_window_handle(doc: &Json) -> (r: Option<String>)
    ensures
        match (r, str_of(path_spec(*doc, seq!["value"@, "handle"@]))) {
            (Some(a), Some(b)) => a@ == b,
            (None, None) => true,
            _ => false,
        },
{
    str_at2(doc, "value", "handle")
}

/// The base64 image of a screenshot reply.
pub fn screenshot_payload(doc: &Json) -> (r: Result<String, WdError>)
    ensures
        match (r, str_of(get_spec(*doc, "value"@))) {
            (Ok(s), Some(b)) => s@ == b,
            (Err(e), None) => e.0@ == "screenshot: no base64 payload"@,
            _ => false,
        },
{
    match doc.get("value") {
        Some(v) => match v.as_str() {
            Some(s) => Ok(String::from_str(s)),
            None => Err(wd_err("screenshot: no base64 payload")),
        },
        None => Err(wd_err("screenshot: no base64 payload")),
    }
}

/// The download URL for `platform` in the Chrome-for-Testing metadata: the
/// `url` of the first entry of `channels.Stable.downloads.chromedriver`
/// whose `platform` is `platform`.
pub open spec fn first_download(items: Seq<Json>, platform: Seq<char>) -> Option<Json>
    decreases items.len(),
{
    if items.len() == 0 {
        None
    } else if str_of(get_spec(items[0], "platform"@)) == Some(platform) {
        Some(items[0])
    } else {
        first_download(items.drop_first(), platform)
    }
}

pub open spec fn chromedriver_url_spec(doc: Json, platform: Seq<char>) -> Result<Seq<char>, Seq<char>> {
    match path_spec(doc, seq!["channels"@, "Stable"@, "downloads"@, "chromedriver"@]) {
        Some(Json::Array(items)) => match first_download(items@, platform) {
            Some(d) => match str_of(get_spec(d, "url"@)) {
                Some(u) => Ok(u),
                None => Err("no chromedriver download for platform `"@ + platform + "`"@),
            },
            None => Err("no chromedriver download for platform `"@ + platform + "`"@),
        },
        _ => Err("Chrome-for-Testing JSON: no chromedriver list"@),
    }
}

pub fn chromedriver_url(doc: &Json, platform: &str) -> (r: Result<String, String>)
    ensures
        match (r, chromedriver_url_spec(*doc, platform@)) {
            (Ok(a), Ok(b)) => a@ == b,
            (Err(a), Err(b)) => a@ == b,
            _ => false,
        },
{
    let ghost keys = seq!["channels"@, "Stable"@, "downloads"@, "chromedriver"@];
    proof {
        reveal_with_fuel(path_spec, 5);
        assert(keys.drop_first() =~= seq!["Stable"@, "downloads"@, "chromedriver"@]);
        assert(keys.drop_first().drop_first() =~= seq!["downloads"@, "chromedriver"@]);
        assert(keys.drop_first().drop_first().drop_first() =~= seq!["chromedriver"@]);
        assert(keys.drop_first().drop_first().drop_first().drop_first() =~= Seq::<Seq<char>>::empty());
    }
    let list = match doc.get("channels") {
        Some(a) => match a.get("Stable") {
            Some(b) => match b.get("downloads") {
                Some(c) => c.get("chromedriver"),
                None => None,
            },
            None => None,
        },
        None => None,
    };
    let items = match list {
        Some(Json::Array(items)) => items,
        _ => return Err(String::from_str("Chrome-for-Testing JSON: no chromedriver list")),
    };
    let mut k: usize = 0;
    assert(items@.skip(0) =~= items@);
    assert(path_spec(*doc, keys) == Some(Json::Array(*items)));
    while k < items.len()
        invariant
            k <= items@.len(),
            path_spec(*doc, keys) == Some(Json::Array(*items)),
            keys == seq!["channels"@, "Stable"@, "downloads"@, "chromedriver"@],
            first_download(items@, platform@) == first_download(items@.skip(k as int), platform@),
        decreases items@.len() - k,
    {
        assert(items@.skip(k as int).drop_first() =~= items@.skip(k + 1));
        assert(items@.skip(k as int)[0] == items@[k as int]);
        let d = &items[k];
        let matches = match d.get("platform") {
            Some(p) => match p.as_str() {
                Some(ps) => str_eq(ps, platform),
                None => false,
            },
            None => false,
        };
        if matches {
            match d.get("url") {
                Some(u) => match u.as_str() {
                    Some(us) => {
                        return Ok(String::from_str(us));
                    },
                    None => {},
                },
                None => {},
            }
            let mut m = String::from_str("no chromedriver download for platform `");
            m.append(platform);
            m.append("`");
            return Err(m);
        }
        k += 1;
    }
    let mut m = String::from_str("no chromedriver download for platform `");
    m.append(platform);
    m.append("`");
    Err(m)
}

/// The commands whose presence on the search path shows that a browser is
/// installed.
pub open spec fn browser_commands_spec(b: Browser) -> Seq<Seq<char>> {
    match b {
        Browser::Firefox => seq!["firefox"@],
        Browser::Chrome => seq![
            "google-chrome"@,
            "google-chrome-stable"@,
            "chromium-browser"@,
            "chromium"@,
            "chrome"@,
        ],
        Browser::Edge => seq!["microsoft-edge"@],
        Browser::Safari => seq![],
    }
}

/// The install locations of a browser checked on `os` (`macos` or
/// `windows`; none on other systems).
pub open spec fn browser_paths_spec(b: Browser, os: Seq<char>) -> Seq<Seq<char>> {
    if os == "macos"@ {
        match b {
            Browser::Firefox => seq!["/Applications/Firefox.app/Contents/MacOS/firefox"@],
            Browser::Chrome => seq![
                "/Applications/Google Chrome.app/Contents/MacOS/Google Chrome"@,
                "/Applications/Chromium.app/Contents/MacOS/Chromium"@,
            ],
            Browser::Edge => seq!["/Applications/Microsoft Edge.app/Contents/MacOS/Microsoft Edge"@],
            Browser::Safari => seq![],
        }
    } else if os == "windows"@ {
        match b {
            Browser::Firefox => seq![
                "C:\\Program Files\\Mozilla Firefox\\firefox.exe"@,
                "C:\\Program Files (x86)\\Mozilla Firefox\\firefox.exe"@,
            ],
            Browser::Chrome => seq![
                "C:\\Program Files\\Google\\Chrome\\Application\\chrome.exe"@,
                "C:\\Program Files (x86)\\Google\\Chrome\\Application\\chrome.exe"@,
            ],
            Browser::Edge => seq!["C:\\Program Files (x86)\\Microsoft\\Edge\\Application\\msedge.exe"@],
            Browser::Safari => seq![],
        }
    } else {
        seq![]
    }
}

fn strings_of(items: &[&str]) -> (r: Vec<String>)
    ensures
        r@.len() == items@.len(),
        forall|k: int| 0 <= k < items@.len() ==> #[trigger] r@[k]@ == items@[k]@,
{
    let mut out: Vec<String> = Vec::new();
    let mut k: usize = 0;
    while k < items.len()
        invariant
            k <= items@.len(),
            out@.len() == k,
            forall|j: int| 0 <= j < k ==> #[trigger] out@[j]@ == items@[j]@,
        decreases items@.len() - k,
    {
        out.push(String::from_str(items[k]));
        k += 1;
    }
    out
}

/// The commands that show a browser is installed, in the order they are
/// tried.
pub fn browser_commands(b: Browser) -> (r: Vec<String>)
    ensures
        strings_view(r@) == browser_commands_spec(b),
{
    let r = match b {
        Browser::Firefox => strings_of(&["firefox"]),
        Browser::Chrome => strings_of(
            &["google-chrome", "google-chrome-stable", "chromium-browser", "chromium", "chrome"],
        ),
        Browser::Edge => strings_of(&["microsoft-edge"]),
        Browser::Safari => Vec::new(),
    };
    assert(strings_view(r@) =~= browser_commands_spec(b));
    r
}

/// The install locations of a browser checked on `os`, in order.
pub fn browser_paths(b: Browser, os: &str) -> (r: Vec<String>)
    ensures
        strings_view(r@) == browser_paths_spec(b, os@),
{
    let r = if str_eq(os, "macos") {
        match b {
            Browser::Firefox => strings_of(&["/Applications/Firefox.app/Contents/MacOS/firefox"]),
            Browser::Chrome => strings_of(
                &[
                    "/Applications/Google Chrome.app/Contents/MacOS/Google Chrome",
                    "/Applications/Chromium.app/Contents/MacOS/Chromium",
                ],
            ),
            Browser::Edge => strings_of(&["/Applications/Microsoft Edge.app/Contents/MacOS/Microsoft Edge"]),
            Browser::Safari => Vec::new(),
        }
    } else if str_eq(os, "windows") {
        match b {
            Browser::Firefox => strings_of(
                &[
                    "C:\\Program Files\\Mozilla Firefox\\firefox.exe",
                    "C:\\Program Files (x86)\\Mozilla Firefox\\firefox.exe",
                ],
            ),
            Browser::Chrome => strings_of(
                &[
                    "C:\\Program Files\\Google\\Chrome\\Application\\chrome.exe",
                    "C:\\Program Files (x86)\\Google\\Chrome\\Application\\chrome.exe",
                ],
            ),
            Browser::Edge => strings_of(&["C:\\Program Files (x86)\\Microsoft\\Edge\\Application\\msedge.exe"]),
            Browser::Safari => Vec::new(),
        }
    } else {
        Vec::new()
    };
    assert(strings_view(r@) =~= browser_paths_spec(b, os@));
    r
}

} // verus!
