//! Fast field classifiers (dates, IP and MAC addresses) and content hashing.
use vstd::prelude::*;
use crate::index::{blake3_digest, blake3_hash};
use crate::text::string_from_chars;
use crate::types::HardwareGpu;
use crate::parsers::is_ascii_space;

verus! {

pub open spec fn is_ascii_digit(b: u8) -> bool {
    0x30 <= b <= 0x39
}

pub open spec fn is_hex_digit(b: u8) -> bool {
    (0x30 <= b <= 0x39) || (0x61 <= b <= 0x66) || (0x41 <= b <= 0x46)
}

pub open spec fn digit_val(b: u8) -> int {
    b - 0x30
}

/// The field without one pair of surrounding double quotes.
pub open spec fn unquote(b: Seq<u8>) -> Seq<u8> {
    if b.len() >= 2 && b[0] == 0x22 && b[b.len() - 1] == 0x22 {
        b.subrange(1, b.len() - 1)
    } else {
        b
    }
}

/// `YYYY-MM-DD` at the start of a field (optionally quoted) as the number YYYYMMDD,
/// when the month is 1..12 and the day 1..31.
pub open spec fn spec_parse_date(bytes: Seq<u8>) -> Option<u32> {
    let b = unquote(bytes);
    if b.len() >= 10 && b[4] == 0x2d && b[7] == 0x2d && is_ascii_digit(b[0]) && is_ascii_digit(b[1])
        && is_ascii_digit(b[2]) && is_ascii_digit(b[3]) && is_ascii_digit(b[5]) && is_ascii_digit(
        b[6],
    ) && is_ascii_digit(b[8]) && is_ascii_digit(b[9]) {
        let y = digit_val(b[0]) * 1000 + digit_val(b[1]) * 100 + digit_val(b[2]) * 10 + digit_val(
            b[3],
        );
        let m = digit_val(b[5]) * 10 + digit_val(b[6]);
        let d = digit_val(b[8]) * 10 + digit_val(b[9]);
        if 1 <= m <= 12 && 1 <= d <= 31 {
            Some((y * 10000 + m * 100 + d) as u32)
        } else {
            None
        }
    } else {
        None
    }
}

fn is_digit_byte(b: u8) -> (r: bool)
    ensures
        r == is_ascii_digit(b),
{
    0x30 <= b && b <= 0x39
}

/// Parses a `YYYY-MM-DD` date (optionally quoted) into YYYYMMDD.
pub fn parse_date_fast(bytes: &[u8]) -> (r: Option<u32>)
    ensures
        r == spec_parse_date(bytes@),
{
    let n = bytes.len();
    let b = if n >= 2 && bytes[0] == 0x22u8 && bytes[n - 1] == 0x22u8 {
        &bytes[1..n - 1]
    } else {
        bytes
    };
    proof {
        assert(b@ =~= unquote(bytes@));
    }
    if b.len() >= 10 && b[4] == 0x2du8 && b[7] == 0x2du8 && is_digit_byte(b[0]) && is_digit_byte(
        b[1],
    ) && is_digit_byte(b[2]) && is_digit_byte(b[3]) && is_digit_byte(b[5]) && is_digit_byte(b[6])
        && is_digit_byte(b[8]) && is_digit_byte(b[9]) {
        let y = (b[0] - 0x30) as u32 * 1000 + (b[1] - 0x30) as u32 * 100 + (b[2] - 0x30) as u32 * 10
            + (b[3] - 0x30) as u32;
        let m = (b[5] - 0x30) as u32 * 10 + (b[6] - 0x30) as u32;
        let d = (b[8] - 0x30) as u32 * 10 + (b[9] - 0x30) as u32;
        if y <= 9999 && m >= 1 && m <= 12 && d >= 1 && d <= 31 {
            return Some(y * 10000 + m * 100 + d);
        }
    }
    None
}

/// Number of bytes of `b` (up to `n`) that satisfy `p`.
pub open spec fn count_where(b: Seq<u8>, n: int, p: spec_fn(u8) -> bool) -> nat
    decreases n,
{
    if n <= 0 {
        0
    } else {
        count_where(b, n - 1, p) + if p(b[n - 1]) {
            1nat
        } else {
            0nat
        }
    }
}

pub open spec fn is_dot() -> spec_fn(u8) -> bool {
    |c: u8| c == 0x2e
}

pub open spec fn is_colon() -> spec_fn(u8) -> bool {
    |c: u8| c == 0x3a
}

pub open spec fn is_hex() -> spec_fn(u8) -> bool {
    |c: u8| is_hex_digit(c)
}

/// Looks like an IP address: three dots (IPv4) or at least two colons (IPv6),
/// with at least three hexadecimal digits.
pub open spec fn spec_is_ip(b: Seq<u8>) -> bool {
    let n = b.len() as int;
    let digits = count_where(b, n, is_hex());
    (count_where(b, n, is_dot()) == 3 && digits >= 3) || (count_where(b, n, is_colon()) >= 2
        && digits >= 3)
}

/// Whether a field looks like an IPv4 or IPv6 address.
pub fn is_ip_fast(bytes: &[u8]) -> (r: bool)
    ensures
        r == spec_is_ip(bytes@),
{
    let n = bytes.len();
    let mut dots: usize = 0;
    let mut colons: usize = 0;
    let mut digits: usize = 0;
    let mut i: usize = 0;
    while i < n
        invariant
            n == bytes@.len(),
            i <= n,
            dots == count_where(bytes@, i as int, is_dot()),
            colons == count_where(bytes@, i as int, is_colon()),
            digits == count_where(bytes@, i as int, is_hex()),
            dots + colons + digits <= i,
        decreases n - i,
    {
        let b = bytes[i];
        if b == 0x2eu8 {
            dots = dots + 1;
        } else if b == 0x3au8 {
            colons = colons + 1;
        } else if (0x30 <= b && b <= 0x39) || (0x61 <= b && b <= 0x66) || (0x41 <= b && b <= 0x46) {
            digits = digits + 1;
        }
        i = i + 1;
    }
    (dots == 3 && digits >= 3) || (colons >= 2 && digits >= 3)
}

/// Looks like a MAC address: 17 bytes, hex-digit pairs separated by `:` or `-`.
pub open spec fn spec_is_mac(b: Seq<u8>) -> bool {
    b.len() == 17 && forall|i: int|
        0 <= i < 17 ==> if i % 3 == 2 {
            #[trigger] b[i] == 0x3a || b[i] == 0x2d
        } else {
            is_hex_digit(b[i])
        }
}

/// Whether a field is a MAC address such as `00:1a:2B:3c:4D:5e`.
pub fn is_mac_fast(bytes: &[u8]) -> (r: bool)
    ensures
        r == spec_is_mac(bytes@),
{
    if bytes.len() != 17 {
        return false;
    }
    let mut separators: usize = 0;
    let mut i: usize = 0;
    while i < 17
        invariant
            bytes@.len() == 17,
            i <= 17,
            separators == i / 3,
            forall|k: int|
                0 <= k < i ==> if k % 3 == 2 {
                    #[trigger] bytes@[k] == 0x3a || bytes@[k] == 0x2d
                } else {
                    is_hex_digit(bytes@[k])
                },
        decreases 17 - i,
    {
        let b = bytes[i];
        if i % 3 == 2 {
            if b == 0x3au8 || b == 0x2du8 {
                separators = separators + 1;
            } else {
                return false;
            }
        } else {
            if !((0x30 <= b && b <= 0x39) || (0x61 <= b && b <= 0x66) || (0x41 <= b && b <= 0x46)) {
                return false;
            }
        }
        i = i + 1;
    }
    separators == 5
}

/// Lowercase hexadecimal digit for a value 0..16.
pub open spec fn hex_char(v: int) -> char {
    if v < 10 {
        (0x30 + v) as char
    } else {
        (0x61 + v - 10) as char
    }
}

/// Lowercase hexadecimal text of a byte string, two digits per byte.
pub open spec fn hex_lower(b: Seq<u8>) -> Seq<char> {
    Seq::new(
        2 * b.len(),
        |i: int|
            if i % 2 == 0 {
                hex_char((b[i / 2] / 16) as int)
            } else {
                hex_char((b[i / 2] % 16) as int)
            },
    )
}

fn hex_digit(v: u8) -> (c: char)
    requires
        v < 16,
    ensures
        c == hex_char(v as int),
{
    if v < 10 {
        (0x30u8 + v) as char
    } else {
        (0x61u8 + (v - 10)) as char
    }
}

/// A digest in lowercase hexadecimal, two digits per byte (as `blake3::Hash::to_hex`
/// writes it).
fn digest_hex(digest: &[u8; 32]) -> (r: String)
    ensures
        r@ == hex_lower(digest@),
{
    let ghost d = digest@;
    let mut out: Vec<char> = Vec::new();
    let mut i: usize = 0;
    while i < 32
        invariant
            d == digest@,
            d.len() == 32,
            i <= 32,
            out@.len() == 2 * i,
            forall|k: int| 0 <= k < 2 * i ==> out@[k] == #[trigger] hex_lower(d)[k],
        decreases 32 - i,
    {
        let b = digest[i];
        out.push(hex_digit(b / 16));
        out.push(hex_digit(b % 16));
        proof {
            assert(hex_lower(d)[2 * i as int] == hex_char((d[i as int] / 16) as int));
            assert(hex_lower(d)[2 * i + 1] == hex_char((d[i as int] % 16) as int));
        }
        i = i + 1;
    }
    proof {
        assert(out@ =~= hex_lower(d));
    }
    string_from_chars(out.as_slice())
}

/// BLAKE3 hash of a byte string, in lowercase hexadecimal.
pub fn compute_hash_fast(bytes: &[u8]) -> (r: String)
    ensures
        r@ == hex_lower(blake3_digest(bytes@)),
{
    let digest = blake3_hash(bytes);
    digest_hex(&digest)
}

/// GPU details for the hardware report; none are probed.
pub fn get_gpu_info() -> (r: Option<HardwareGpu>)
    ensures
        r is None,
{
    None
}

// ------------------------------------------------------------ numbers

/// The first position at or after `i` (before `end`) that is not ASCII white space.
pub open spec fn skip_space(b: Seq<u8>, i: int, end: int) -> int
    decreases end - i,
{
    if i < 0 || i >= end || !is_ascii_space(b[i]) {
        i
    } else {
        skip_space(b, i + 1, end)
    }
}

/// The digit values of a number read from `i`: digits before the first `.` form the
/// integer part, digits after it the fraction; reading stops at any other byte, a
/// second `.`, or `end`.
pub open spec fn number_digits(b: Seq<u8>, i: int, end: int, in_frac: bool) -> (Seq<u8>, Seq<u8>)
    decreases end - i,
{
    if i < 0 || i >= end || end > b.len() {
        (Seq::empty(), Seq::empty())
    } else if is_ascii_digit(b[i]) {
        let rest = number_digits(b, i + 1, end, in_frac);
        let d = (b[i] - 0x30) as u8;
        if in_frac {
            (rest.0, seq![d] + rest.1)
        } else {
            (seq![d] + rest.0, rest.1)
        }
    } else if b[i] == 0x2e && !in_frac {
        number_digits(b, i + 1, end, true)
    } else {
        (Seq::empty(), Seq::empty())
    }
}

/// How a field reads as a decimal number: without one pair of surrounding quotes and
/// leading white space, an optional `-` or `+`, then digits with at most one `.`;
/// no number unless some digit was read. The parts are the sign and the digits.
pub open spec fn spec_numeric_lexeme(bytes: Seq<u8>) -> Option<(bool, Seq<u8>, Seq<u8>)> {
    let b = unquote(bytes);
    let i = skip_space(b, 0, b.len() as int);
    if i >= b.len() {
        None
    } else {
        let j = if b[i] == 0x2d || b[i] == 0x2b {
            i + 1
        } else {
            i
        };
        let d = number_digits(b, j, b.len() as int, false);
        if d.0.len() + d.1.len() == 0 {
            None
        } else {
            Some((b[i] == 0x2d, d.0, d.1))
        }
    }
}

/// A decimal number as read from a field: its sign and its digit values before and
/// after the decimal point.
pub struct NumericLexeme {
    pub negative: bool,
    pub int_digits: Vec<u8>,
    pub frac_digits: Vec<u8>,
}

proof fn lemma_frac_has_no_int(b: Seq<u8>, i: int, end: int)
    ensures
        number_digits(b, i, end, true).0 == Seq::<u8>::empty(),
    decreases end - i,
{
    if 0 <= i < end <= b.len() && is_ascii_digit(b[i]) {
        lemma_frac_has_no_int(b, i + 1, end);
    }
}

/// Reads a field as a decimal number (see `spec_numeric_lexeme`).
pub fn numeric_lexeme(bytes: &[u8]) -> (r: Option<NumericLexeme>)
    ensures
        match r {
            Some(x) => spec_numeric_lexeme(bytes@) == Some((x.negative, x.int_digits@, x.frac_digits@)),
            None => spec_numeric_lexeme(bytes@) is None,
        },
{
    let n = bytes.len();
    let (mut i, end) = if n >= 2 && bytes[0] == 0x22u8 && bytes[n - 1] == 0x22u8 {
        (1usize, n - 1)
    } else {
        (0usize, n)
    };
    let ghost u = unquote(bytes@);
    let ghost base = i as int;
    proof {
        assert(u =~= bytes@.subrange(base, end as int));
    }
    while i < end && (bytes[i] == 0x20u8 || bytes[i] == 0x09u8 || bytes[i] == 0x0au8 || bytes[i] == 0x0cu8
        || bytes[i] == 0x0du8)
        invariant
            0 <= base <= i <= end <= bytes@.len(),
            u == bytes@.subrange(base, end as int),
            u.len() == end - base,
            skip_space(u, 0, u.len() as int) == skip_space(u, i - base, u.len() as int),
        decreases end - i,
    {
        proof {
            assert(u[i - base] == bytes@[i as int]);
        }
        i = i + 1;
    }
    proof {
        if i < end {
            assert(u[i - base] == bytes@[i as int]);
        }
    }
    if i == end {
        return None;
    }
    let negative = bytes[i] == 0x2du8;
    if bytes[i] == 0x2du8 || bytes[i] == 0x2bu8 {
        i = i + 1;
    }
    let ghost j = i - base;
    let mut int_digits: Vec<u8> = Vec::new();
    let mut frac_digits: Vec<u8> = Vec::new();
    let mut in_frac = false;
    proof {
        assert(int_digits@ + number_digits(u, j, u.len() as int, false).0 =~= number_digits(u, j, u.len() as int, false).0);
        assert(frac_digits@ + number_digits(u, j, u.len() as int, false).1 =~= number_digits(u, j, u.len() as int, false).1);
    }
    loop
        invariant_except_break
            0 <= base <= i <= end <= bytes@.len(),
            u == bytes@.subrange(base, end as int),
            u.len() == end - base,
            in_frac ==> int_digits@ + number_digits(u, i - base, u.len() as int, in_frac).0 == number_digits(
                u,
                j,
                u.len() as int,
                false,
            ).0,
            !in_frac ==> int_digits@ + number_digits(u, i - base, u.len() as int, in_frac).0 == number_digits(
                u,
                j,
                u.len() as int,
                false,
            ).0,
            frac_digits@ + number_digits(u, i - base, u.len() as int, in_frac).1 == number_digits(
                u,
                j,
                u.len() as int,
                false,
            ).1,
        ensures
            int_digits@ == number_digits(u, j, u.len() as int, false).0,
            frac_digits@ == number_digits(u, j, u.len() as int, false).1,
        decreases end - i,
    {
        if i >= end {
            proof {
                assert(int_digits@ + Seq::<u8>::empty() =~= int_digits@);
                assert(frac_digits@ + Seq::<u8>::empty() =~= frac_digits@);
            }
            break;
        }
        let c = bytes[i];
        proof {
            assert(u[i - base] == c);
        }
        if 0x30u8 <= c && c <= 0x39u8 {
            let d = c - 0x30u8;
            let ghost bi = int_digits@;
            let ghost bf = frac_digits@;
            if in_frac {
                frac_digits.push(d);
                proof {
                    lemma_frac_has_no_int(u, i - base + 1, u.len() as int);
                    assert(frac_digits@ + number_digits(u, i - base + 1, u.len() as int, in_frac).1 =~= bf
                        + number_digits(u, i - base, u.len() as int, in_frac).1);
                }
            } else {
                int_digits.push(d);
                proof {
                    assert(int_digits@ + number_digits(u, i - base + 1, u.len() as int, in_frac).0 =~= bi
                        + number_digits(u, i - base, u.len() as int, in_frac).0);
                }
            }
        } else if c == 0x2eu8 && !in_frac {
            in_frac = true;
            proof {
                lemma_frac_has_no_int(u, i - base + 1, u.len() as int);
                assert(int_digits@ + Seq::<u8>::empty() =~= int_digits@);
            }
        } else {
            proof {
                assert(int_digits@ + Seq::<u8>::empty() =~= int_digits@);
                assert(frac_digits@ + Seq::<u8>::empty() =~= frac_digits@);
            }
            break;
        }
        i = i + 1;
    }
    if int_digits.len() == 0 && frac_digits.len() == 0 {
        return None;
    }
    Some(NumericLexeme { negative, int_digits, frac_digits })
}

} // verus!
