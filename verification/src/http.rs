//! The HTTP commands run `curl`; this is how its arguments are put
//! together and how its output is read back.
use vstd::prelude::*;

use crate::text::{chars_to_string, str_chars, trim, trim_range};
use crate::numfmt::{dec, dec_signed, digit_char};
use crate::webdriver::{digits_value, is_radix_digit, parse_unsigned, unsigned_digits};

verus! {

/// What `str::parse::<i64>` gives: an optional sign, at least one digit and
/// no overflow.
pub open spec fn parse_i64_spec(s: Seq<char>) -> Option<int> {
    if s.len() > 0 && s[0] == '-' {
        let ds = s.drop_first();
        if ds.len() > 0 && ds[0] == '+' {
            None
        } else {
            match parse_unsigned(ds, 10, 9223372036854775808) {
                Some(v) => Some(-v),
                None => None,
            }
        }
    } else {
        parse_unsigned(s, 10, 9223372036854775807)
    }
}

/// Reads a signed decimal integer.
pub fn parse_i64(s: &str) -> (r: Option<i64>)
    ensures
        match r {
            Some(v) => parse_i64_spec(s@) == Some(v as int),
            None => parse_i64_spec(s@) is None,
        },
{
    let cs = str_chars(s);
    let n = cs.len();
    if n > 0 && cs[0] == '-' {
        assert(cs@.subrange(1, n as int) =~= s@.drop_first());
        if n > 1 && cs[1] == '+' {
            return None;
        }
        match crate::webdriver::parse_unsigned_exec(&cs, 1, n, 10, 9223372036854775808) {
            Some(v) => {
                if v == 9223372036854775808 {
                    Some(i64::MIN)
                } else {
                    Some(-(v as i64))
                }
            },
            None => None,
        }
    } else {
        assert(cs@.subrange(0, n as int) =~= s@);
        match crate::webdriver::parse_unsigned_exec(&cs, 0, n, 10, 9223372036854775807) {
            Some(v) => Some(v as i64),
            None => None,
        }
    }
}

pub(crate) proof fn lemma_dec_digits(n: nat)
    ensures
        dec(n).len() > 0,
        forall|i: int| 0 <= i < dec(n).len() ==> '0' <= #[trigger] dec(n)[i] <= '9',
        digits_value(dec(n), 10) == n,
    decreases n,
{
    if n >= 10 {
        lemma_dec_digits(n / 10);
        let d = dec(n);
        assert(d.drop_last() =~= dec(n / 10));
        let k = (n % 10) as int;
        assert(digit_char(k) as int - '0' as int == k);
        assert(d.last() == digit_char(k));
        assert(digits_value(d, 10) == digits_value(d.drop_last(), 10) * 10 + (d.last() as int - '0' as int));
        assert((n / 10) as int * 10 + k == n);
        assert forall|i: int| 0 <= i < d.len() implies '0' <= #[trigger] d[i] <= '9' by {
            if i < d.len() - 1 {
                assert(d[i] == dec(n / 10)[i]);
            }
        }
    } else {
        let d = dec(n);
        assert(d.drop_last() =~= Seq::<char>::empty());
        assert(digit_char(n as int) as int - '0' as int == n);
        assert(d.last() == digit_char(n as int));
        assert(digits_value(d, 10) == digits_value(d.drop_last(), 10) * 10 + (d.last() as int - '0' as int));
    }
}

pub(crate) proof fn lemma_parse_dec(n: nat, max: int)
    requires
        n <= max,
    ensures
        parse_unsigned(dec(n), 10, max) == Some(n as int),
{
    lemma_dec_digits(n);
    let ds = dec(n);
    assert(unsigned_digits(ds) == ds);
    assert(!exists|i: int| 0 <= i < ds.len() && !is_radix_digit(#[trigger] ds[i], 10));
}

/// Reading back a rendered integer gives that integer: for every `i64`
/// value, parsing its decimal text (with `-` before a negative one) yields
/// the value itself.
pub proof fn law_parse_reads_rendered_integers(n: int)
    requires
        i64::MIN <= n <= i64::MAX,
    ensures
        parse_i64_spec(dec_signed(n)) == Some(n),
{
    if n < 0 {
        lemma_dec_digits((-n) as nat);
        lemma_parse_dec((-n) as nat, 9223372036854775808);
        let s = dec_signed(n);
        assert(s.drop_first() =~= dec((-n) as nat));
    } else {
        lemma_dec_digits(n as nat);
        lemma_parse_dec(n as nat, 9223372036854775807);
    }
}

/// The body and status `curl -w "\n%{http_code}"` prints: the body is what
/// comes before the last newline, the status the rest, trimmed and read as
/// an integer (0 when it is not one).
pub open spec fn last_newline(s: Seq<char>) -> int
    decreases s.len(),
{
    if s.len() == 0 {
        -1
    } else if s.last() == '\n' {
        s.len() - 1
    } else {
        last_newline(s.drop_last())
    }
}

pub open spec fn curl_output_spec(out: Seq<char>) -> (int, Seq<char>) {
    let k = last_newline(out);
    let split = if k < 0 {
        out.len() as int
    } else {
        k
    };
    let status = match parse_i64_spec(trim(out.subrange(split, out.len() as int))) {
        Some(v) => v,
        None => 0,
    };
    (status, out.take(split))
}

proof fn lemma_last_newline(s: Seq<char>)
    ensures
        -1 <= last_newline(s) < s.len(),
        last_newline(s) >= 0 ==> s[last_newline(s)] == '\n',
        forall|j: int| last_newline(s) < j < s.len() ==> s[j] != '\n',
    decreases s.len(),
{
    if s.len() > 0 && s.last() != '\n' {
        lemma_last_newline(s.drop_last());
        assert forall|j: int| last_newline(s) < j < s.len() implies s[j] != '\n' by {
            if j < s.len() - 1 {
                assert(s.drop_last()[j] == s[j]);
            }
        }
    }
}

/// Splits `curl`'s output into the status code and the body.
pub fn split_curl_output(out: &str) -> (r: (i64, String))
    ensures
        (r.0 as int, r.1@) == curl_output_spec(out@),
{
    let cs = str_chars(out);
    let n = cs.len();
    let mut k = n;
    assert(out@.take(n as int) =~= out@);
    while k > 0 && cs[k - 1] != '\n'
        invariant
            k <= cs@.len(),
            cs@ == out@,
            last_newline(out@) == last_newline(out@.take(k as int)),
        decreases k,
    {
        proof {
            assert(out@.take(k as int).drop_last() =~= out@.take(k - 1));
        }
        k -= 1;
    }
    proof {
        if k > 0 {
            assert(out@.take(k as int).last() == '\n');
        } else {
            assert(out@.take(0).len() == 0);
        }
    }
    let split = if k == 0 {
        n
    } else {
        k - 1
    };
    let body = chars_to_string(&cs, 0, split);
    let tail = trim_range(&cs, split, n);
    let status = match parse_i64(tail.as_str()) {
        Some(v) => v,
        None => 0,
    };
    assert(out@.subrange(0, split as int) =~= out@.take(split as int));
    (status, body)
}

/// Whether a status code means success (200 to 299).
pub fn status_ok(status: i64) -> (r: bool)
    ensures
        r == (200 <= status <= 299),
{
    200 <= status && status <= 299
}

/// The arguments of the `curl` run behind `http_get`.
pub fn get_args(url: &str) -> (r: Vec<String>)
    ensures
        r@.map_values(|s: String| s@) == seq![
            "-X"@,
            "GET"@,
            url@,
            "-sS"@,
            "--max-time"@,
            "60"@,
            "-w"@,
            "\n%{http_code}"@,
        ],
{
    let r = vec![
        String::from_str("-X"),
        String::from_str("GET"),
        String::from_str(url),
        String::from_str("-sS"),
        String::from_str("--max-time"),
        String::from_str("60"),
        String::from_str("-w"),
        String::from_str("\n%{http_code}"),
    ];
    assert(r@.map_values(|s: String| s@) =~= seq![
        "-X"@,
        "GET"@,
        url@,
        "-sS"@,
        "--max-time"@,
        "60"@,
        "-w"@,
        "\n%{http_code}"@,
    ]);
    r
}

/// The arguments of the `curl` run behind `http_post`.
pub fn post_args(url: &str, body: &str, content_type: &str) -> (r: Vec<String>)
    ensures
        r@.map_values(|s: String| s@) == seq![
            "-X"@,
            "POST"@,
            url@,
            "-d"@,
            body@,
            "-H"@,
            "Content-Type: "@ + content_type@,
            "-sS"@,
            "--max-time"@,
            "60"@,
            "-w"@,
            "\n%{http_code}"@,
        ],
{
    let mut h = String::from_str("Content-Type: ");
    h.append(content_type);
    let r = vec![
        String::from_str("-X"),
        String::from_str("POST"),
        String::from_str(url),
        String::from_str("-d"),
        String::from_str(body),
        String::from_str("-H"),
        h,
        String::from_str("-sS"),
        String::from_str("--max-time"),
        String::from_str("60"),
        String::from_str("-w"),
        String::from_str("\n%{http_code}"),
    ];
    assert(r@.map_values(|s: String| s@) =~= seq![
        "-X"@,
        "POST"@,
        url@,
        "-d"@,
        body@,
        "-H"@,
        "Content-Type: "@ + content_type@,
        "-sS"@,
        "--max-time"@,
        "60"@,
        "-w"@,
        "\n%{http_code}"@,
    ]);
    r
}

} // verus!
