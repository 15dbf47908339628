//! The byte computations of the native helper commands: the CRC-32 of a
//! text as eight hex digits (`native_crc32`), its base64 encoding
//! (`native_base64`) and its bytes in reverse order (`native_reverse`).
use vstd::prelude::*;
use vstd::string::{StrSliceExecFns, StringSliceAdditionalSpecFns};

use crate::json::hex_digit_char;
use crate::webdriver::{digits_value, hex_digit};
use crate::text::push_char;

verus! {

// ---------------------------------------------------------------- CRC-32

/// One bit of the reflected CRC-32 (polynomial 0xEDB88320).
pub open spec fn crc_bit(c: u32) -> u32 {
    if c & 1u32 == 1u32 {
        (c >> 1u32) ^ 0xEDB8_8320u32
    } else {
        c >> 1u32
    }
}

/// The CRC register after one more byte.
pub open spec fn crc_byte(c: u32, b: u8) -> u32 {
    let x = c ^ (b as u32);
    crc_bit(crc_bit(crc_bit(crc_bit(crc_bit(crc_bit(crc_bit(crc_bit(x))))))))
}

/// The CRC register after the bytes `bs`, starting from all ones.
pub open spec fn crc_run(bs: Seq<u8>) -> u32
    decreases bs.len(),
{
    if bs.len() == 0 {
        0xFFFF_FFFFu32
    } else {
        crc_byte(crc_run(bs.drop_last()), bs.last())
    }
}

/// The CRC-32 (IEEE) of the bytes `bs`.
pub open spec fn crc32_spec(bs: Seq<u8>) -> u32 {
    crc_run(bs) ^ 0xFFFF_FFFFu32
}

fn crc_bit_exec(c: u32) -> (r: u32)
    ensures
        r == crc_bit(c),
{
    if c & 1 == 1 {
        (c >> 1) ^ 0xEDB8_8320
    } else {
        c >> 1
    }
}

/// The CRC-32 of a byte sequence.
pub fn crc32(bs: &Vec<u8>) -> (r: u32)
    ensures
        r == crc32_spec(bs@),
{
    let mut crc: u32 = 0xFFFF_FFFF;
    let mut i: usize = 0;
    assert(bs@.take(0) =~= Seq::<u8>::empty());
    while i < bs.len()
        invariant
            i <= bs@.len(),
            crc == crc_run(bs@.take(i as int)),
        decreases bs@.len() - i,
    {
        let mut x: u32 = crc ^ (bs[i] as u32);
        let mut k: usize = 0;
        let ghost x0 = x;
        while k < 8
            invariant
                k <= 8,
                x == crc_bits(x0, k as nat),
            decreases 8 - k,
        {
            x = crc_bit_exec(x);
            k += 1;
        }
        proof {
            reveal_with_fuel(crc_bits, 9);
            assert(bs@.take(i + 1).drop_last() =~= bs@.take(i as int));
            assert(bs@.take(i + 1).last() == bs@[i as int]);
        }
        crc = x;
        i += 1;
    }
    assert(bs@.take(i as int) =~= bs@);
    crc ^ 0xFFFF_FFFF
}

/// `crc_bit` applied `n` times.
pub open spec fn crc_bits(c: u32, n: nat) -> u32
    decreases n,
{
    if n == 0 {
        c
    } else {
        crc_bit(crc_bits(c, (n - 1) as nat))
    }
}

proof fn lemma_pow16_pos(e: int)
    ensures
        pow16(e) >= 1,
    decreases e,
{
    if e > 0 {
        lemma_pow16_pos(e - 1);
    }
}

/// Eight lowercase hex digits of `v`, most significant first.
pub open spec fn hex8_spec(v: u32) -> Seq<char> {
    Seq::new(8, |k: int| hex_digit_char(((v as int) / pow16(7 - k)) % 16))
}

/// `16` to the power `e`.
pub open spec fn pow16(e: int) -> int
    decreases e,
{
    if e <= 0 {
        1
    } else {
        16 * pow16(e - 1)
    }
}

fn hex_digit_exec(d: u32) -> (c: char)
    requires
        d < 16,
    ensures
        c == hex_digit_char(d as int),
{
    let b: u8 = if d < 10 {
        (d + 48) as u8
    } else {
        (d + 87) as u8
    };
    assert(b as u32 == if d < 10 {
        d + 48
    } else {
        d + 87
    });
    b as char
}

/// The eight lowercase hex digits of `v`.
pub fn hex8(v: u32) -> (r: String)
    ensures
        r@ == hex8_spec(v),
{
    let mut out = String::new();
    let mut k: u32 = 0;
    let mut div: u32 = 0x1000_0000;
    assert(pow16(7) == 0x1000_0000) by {
        reveal_with_fuel(pow16, 8);
    }
    while k < 8
        invariant
            k <= 8,
            div > 0,
            div as int == pow16(7 - k as int),
            out@.len() == k,
            forall|j: int| 0 <= j < k ==> out@[j] == #[trigger] hex8_spec(v)[j],
        decreases 8 - k,
    {
        let d = (v / div) % 16;
        let c = hex_digit_exec(d);
        push_char(&mut out, c);
        if k < 7 {
            assert(pow16(7 - k as int) == 16 * pow16(7 - k as int - 1)) by {
                reveal_with_fuel(pow16, 2);
            }
            assert(pow16(7 - k as int - 1) >= 1) by {
                lemma_pow16_pos(7 - k as int - 1);
            }
            div = div / 16;
        }
        k += 1;
    }
    assert(out@ =~= hex8_spec(v));
    out
}

proof fn lemma_hex_digit_char(d: int)
    requires
        0 <= d < 16,
    ensures
        hex_digit(hex_digit_char(d)) == d,
        ('0' <= hex_digit_char(d) <= '9') || ('a' <= hex_digit_char(d) <= 'f'),
{
}

proof fn lemma_hex_prefix(v: u32, m: int)
    requires
        0 <= m <= 8,
    ensures
        digits_value(hex8_spec(v).take(m), 16) == (v as int) / pow16(8 - m),
    decreases m,
{
    let x = v as int;
    if m == 0 {
        assert(pow16(8) == 0x1_0000_0000) by {
            reveal_with_fuel(pow16, 9);
        }
        assert(hex8_spec(v).take(0) =~= Seq::<char>::empty());
    } else {
        lemma_hex_prefix(v, m - 1);
        let t = hex8_spec(v).take(m);
        assert(t.drop_last() =~= hex8_spec(v).take(m - 1));
        let p = pow16(8 - m);
        lemma_pow16_pos(8 - m);
        assert(pow16(9 - m) == 16 * p);
        let d = (x / p) % 16;
        assert(t.last() == hex_digit_char(d));
        lemma_hex_digit_char(d);
        vstd::arithmetic::div_mod::lemma_div_denominator(x, p, 16);
        assert(p * 16 == 16 * p);
        vstd::arithmetic::div_mod::lemma_fundamental_div_mod(x / p, 16);
    }
}

/// Eight hex digits are read back as the value they were written for: the
/// digits of `hex8` are lowercase hex digits, most significant first, whose
/// base-16 value is `v`.
pub proof fn law_hex8_reads_back(v: u32)
    ensures
        hex8_spec(v).len() == 8,
        digits_value(hex8_spec(v), 16) == v,
        forall|k: int|
            0 <= k < 8 ==> ('0' <= #[trigger] hex8_spec(v)[k] <= '9') || ('a' <= hex8_spec(v)[k] <= 'f'),
{
    lemma_hex_prefix(v, 8);
    assert(hex8_spec(v).take(8) =~= hex8_spec(v));
    assert forall|k: int| 0 <= k < 8 implies ('0' <= #[trigger] hex8_spec(v)[k] <= '9') || ('a' <= hex8_spec(
        v,
    )[k] <= 'f') by {
        lemma_pow16_pos(7 - k);
        lemma_hex_digit_char(((v as int) / pow16(7 - k)) % 16);
    }
}

/// The `native_crc32` command: the CRC-32 of the text's UTF-8 bytes, as
/// eight lowercase hex digits.
pub fn crc32_hex(text: &str) -> (r: String)
    ensures
        r@ == hex8_spec(crc32_spec(text.spec_bytes())),
{
    let bs = text.as_bytes_vec();
    hex8(crc32(&bs))
}

// ---------------------------------------------------------------- base64

/// The base64 symbol for the six-bit value `v`.
pub open spec fn b64_char(v: int) -> char {
    if v < 26 {
        ((v + 65) as u32) as char
    } else if v < 52 {
        ((v + 71) as u32) as char
    } else if v < 62 {
        ((v - 4) as u32) as char
    } else if v == 62 {
        '+'
    } else {
        '/'
    }
}

/// The base64 text of `bs`, padded with `=`.
pub open spec fn b64_encode_spec(bs: Seq<u8>) -> Seq<char>
    decreases bs.len(),
{
    if bs.len() == 0 {
        seq![]
    } else if bs.len() == 1 {
        let a = bs[0] as int;
        seq![b64_char(a / 4), b64_char((a % 4) * 16), '=', '=']
    } else if bs.len() == 2 {
        let a = bs[0] as int;
        let b = bs[1] as int;
        seq![b64_char(a / 4), b64_char((a % 4) * 16 + b / 16), b64_char((b % 16) * 4), '=']
    } else {
        let a = bs[0] as int;
        let b = bs[1] as int;
        let c = bs[2] as int;
        seq![b64_char(a / 4), b64_char((a % 4) * 16 + b / 16), b64_char((b % 16) * 4 + c / 64), b64_char(c % 64)]
            + b64_encode_spec(bs.skip(3))
    }
}

fn b64_char_exec(v: u32) -> (c: char)
    requires
        v < 64,
    ensures
        c == b64_char(v as int),
{
    if v < 26 {
        let b = (v + 65) as u8;
        assert(b as u32 == v + 65);
        b as char
    } else if v < 52 {
        let b = (v + 71) as u8;
        assert(b as u32 == v + 71);
        b as char
    } else if v < 62 {
        let b = (v - 4) as u8;
        assert(b as u32 == v - 4);
        b as char
    } else if v == 62 {
        '+'
    } else {
        '/'
    }
}

/// The base64 encoding of a byte sequence, padded with `=`.
pub fn b64_encode(bs: &Vec<u8>) -> (r: String)
    ensures
        r@ == b64_encode_spec(bs@),
{
    let mut out = String::new();
    let mut i: usize = 0;
    assert(bs@.skip(0) =~= bs@);
    while i < bs.len()
        invariant
            i <= bs@.len(),
            out@ + b64_encode_spec(bs@.skip(i as int)) == b64_encode_spec(bs@),
        decreases bs@.len() - i,
    {
        let ghost rest = bs@.skip(i as int);
        let ghost before = out@;
        let a = bs[i] as u32;
        if bs.len() - i == 1 {
            push_char(&mut out, b64_char_exec(a / 4));
            push_char(&mut out, b64_char_exec((a % 4) * 16));
            push_char(&mut out, '=');
            push_char(&mut out, '=');
            proof {
                assert(bs@.skip(i + 1) =~= Seq::<u8>::empty());
                assert(out@ =~= before + b64_encode_spec(rest));
            }
            i += 1;
        } else if bs.len() - i == 2 {
            let b = bs[i + 1] as u32;
            push_char(&mut out, b64_char_exec(a / 4));
            push_char(&mut out, b64_char_exec((a % 4) * 16 + b / 16));
            push_char(&mut out, b64_char_exec((b % 16) * 4));
            push_char(&mut out, '=');
            proof {
                assert(bs@.skip(i + 2) =~= Seq::<u8>::empty());
                assert(out@ =~= before + b64_encode_spec(rest));
            }
            i += 2;
        } else {
            let b = bs[i + 1] as u32;
            let c = bs[i + 2] as u32;
            push_char(&mut out, b64_char_exec(a / 4));
            push_char(&mut out, b64_char_exec((a % 4) * 16 + b / 16));
            push_char(&mut out, b64_char_exec((b % 16) * 4 + c / 64));
            push_char(&mut out, b64_char_exec(c % 64));
            proof {
                assert(rest.skip(3) =~= bs@.skip(i + 3));
                assert(out@ + b64_encode_spec(bs@.skip(i + 3)) =~= before + b64_encode_spec(rest));
            }
            i += 3;
        }
    }
    assert(bs@.skip(i as int) =~= Seq::<u8>::empty());
    assert(out@ + Seq::<char>::empty() =~= out@);
    out
}

/// The `native_base64` command: the base64 encoding of the text's UTF-8
/// bytes.
pub fn base64_text(text: &str) -> (r: String)
    ensures
        r@ == b64_encode_spec(text.spec_bytes()),
{
    let bs = text.as_bytes_vec();
    b64_encode(&bs)
}

// ---------------------------------------------------------------- reverse

/// The `native_reverse` command: the text's UTF-8 bytes in reverse order
/// (the application reads them back as text, replacing what is not UTF-8).
pub fn reverse_bytes(text: &str) -> (r: Vec<u8>)
    ensures
        r@ == text.spec_bytes().reverse(),
{
    let bs = text.as_bytes_vec();
    let n = bs.len();
    let mut out: Vec<u8> = Vec::new();
    let mut k: usize = 0;
    while k < n
        invariant
            n == bs@.len(),
            k <= n,
            out@.len() == k,
            forall|j: int| 0 <= j < k ==> out@[j] == bs@[n - 1 - j],
        decreases n - k,
    {
        out.push(bs[n - 1 - k]);
        k += 1;
    }
    assert(out@ =~= bs@.reverse());
    out
}

} // verus!
