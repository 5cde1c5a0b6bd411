use vstd::prelude::*;

use crate::trie::Ipv4CidrRange;
use vstd::arithmetic::power2::pow2;

verus! {

/// Malformed CIDR text. The shape of the text is checked first, left to
/// right: anything other than four nonempty dot-separated digit runs
/// followed by `/` is `BadOctetCount`; an empty, non-numeric or trailing-
/// garbage prefix field and a prefix value over 32 are `PrefixLenOutOfRange`;
/// a numeric octet over 255 is `OctetOutOfRange`.
#[derive(Debug, Clone, Copy, PartialEq, Eq, Structural)]
pub enum ParseError {
    BadOctetCount,
    OctetOutOfRange,
    PrefixLenOutOfRange,
}

/// An ASCII decimal digit.
pub open spec fn is_ascii_digit(c: char) -> bool {
    48 <= c as u32 <= 57
}

/// The numeric value of an ASCII decimal digit.
pub open spec fn digit_val(c: char) -> int {
    c as u32 - 48
}

/// The decimal value of a run of digit characters, most significant first.
pub open spec fn dec_val(s: Seq<char>) -> int
    decreases s.len(),
{
    if s.len() == 0 {
        0
    } else {
        10 * dec_val(s.drop_last()) + digit_val(s.last())
    }
}

/// The position right after the run of consecutive digits of `s` that starts
/// at `from` (which is `from` itself when `s[from]` is no digit or `from` is
/// out of range).
pub open spec fn digit_run_end(s: Seq<char>, from: int) -> int
    decreases s.len() - from,
{
    if from < 0 || from >= s.len() {
        from
    } else if !is_ascii_digit(s[from]) {
        from
    } else {
        digit_run_end(s, from + 1)
    }
}

pub proof fn lemma_digit_run_end_bounds(s: Seq<char>, from: int)
    requires
        0 <= from <= s.len(),
    ensures
        from <= digit_run_end(s, from) <= s.len(),
    decreases s.len() - from,
{
    if from < s.len() && is_ascii_digit(s[from]) {
        lemma_digit_run_end_bounds(s, from + 1);
    }
}

/// A 32-bit address from its four octet values.
pub open spec fn octets_to_u32(a: int, b: int, c: int, d: int) -> u32 {
    (a * 0x100_0000 + b * 0x1_0000 + c * 0x100 + d) as u32
}

/// What parsing `s` as CIDR text `a.b.c.d/n` yields: the numeric address and
/// the prefix length, or the first error the left-to-right scan meets.
pub open spec fn spec_parse_cidr(s: Seq<char>) -> Result<(u32, u32), ParseError> {
    let e0 = digit_run_end(s, 0);
    let e1 = digit_run_end(s, e0 + 1);
    let e2 = digit_run_end(s, e1 + 1);
    let e3 = digit_run_end(s, e2 + 1);
    let ep = digit_run_end(s, e3 + 1);
    if !(0 < e0 < s.len() && s[e0] == '.' && e0 + 1 < e1 && e1 < s.len() && s[e1] == '.' && e1 + 1
        < e2 && e2 < s.len() && s[e2] == '.' && e2 + 1 < e3 && e3 < s.len() && s[e3] == '/') {
        Err(ParseError::BadOctetCount)
    } else if !(e3 + 1 < ep && ep == s.len()) {
        Err(ParseError::PrefixLenOutOfRange)
    } else if !(dec_val(s.subrange(0, e0)) <= 255 && dec_val(s.subrange(e0 + 1, e1)) <= 255
        && dec_val(s.subrange(e1 + 1, e2)) <= 255 && dec_val(s.subrange(e2 + 1, e3)) <= 255) {
        Err(ParseError::OctetOutOfRange)
    } else if !(dec_val(s.subrange(e3 + 1, ep)) <= 32) {
        Err(ParseError::PrefixLenOutOfRange)
    } else {
        Ok(
            (
                octets_to_u32(
                    dec_val(s.subrange(0, e0)),
                    dec_val(s.subrange(e0 + 1, e1)),
                    dec_val(s.subrange(e1 + 1, e2)),
                    dec_val(s.subrange(e2 + 1, e3)),
                ),
                dec_val(s.subrange(e3 + 1, ep)) as u32,
            ),
        )
    }
}

/// Scans the digit run of `s` that starts at `from`. Returns its end, and
/// its decimal value saturated at 1000 — large enough to tell apart every
/// octet and prefix-length bound without unbounded arithmetic.
fn scan_number(s: &str, from: usize) -> (r: (u32, usize))
    requires
        from <= s@.len(),
    ensures
        r.1 == digit_run_end(s@, from as int),
        dec_val(s@.subrange(from as int, r.1 as int)) < 1000 ==> r.0 == dec_val(
            s@.subrange(from as int, r.1 as int),
        ),
        dec_val(s@.subrange(from as int, r.1 as int)) >= 1000 ==> r.0 == 1000,
{
    let n = s.unicode_len();
    let mut i = from;
    let mut acc: u32 = 0;
    proof {
        assert(s@.subrange(from as int, from as int) =~= Seq::<char>::empty());
    }
    loop
        invariant
            from <= i <= n,
            n == s@.len(),
            digit_run_end(s@, from as int) == digit_run_end(s@, i as int),
            (dec_val(s@.subrange(from as int, i as int)) < 1000 && acc == dec_val(
                s@.subrange(from as int, i as int),
            )) || (dec_val(s@.subrange(from as int, i as int)) >= 1000 && acc == 1000),
        ensures
            i <= n,
            i as int == digit_run_end(s@, from as int),
            (dec_val(s@.subrange(from as int, i as int)) < 1000 && acc == dec_val(
                s@.subrange(from as int, i as int),
            )) || (dec_val(s@.subrange(from as int, i as int)) >= 1000 && acc == 1000),
        decreases n - i,
    {
        if i >= n {
            proof {
                assert(digit_run_end(s@, i as int) == i as int);
            }
            break ;
        }
        let c = s.get_char(i);
        let cu = c as u32;
        if cu < 48 || cu > 57 {
            proof {
                assert(!is_ascii_digit(s@[i as int]));
                assert(digit_run_end(s@, i as int) == i as int);
            }
            break ;
        }
        let d: u32 = cu - 48;
        proof {
            let seen = s@.subrange(from as int, i as int);
            let seen2 = s@.subrange(from as int, i as int + 1);
            assert(seen2.drop_last() =~= seen);
            assert(seen2.last() == s@[i as int]);
            assert(dec_val(seen2) == 10 * dec_val(seen) + digit_val(s@[i as int]));
            assert(digit_run_end(s@, i as int) == digit_run_end(s@, i as int + 1));
        }
        let next: u32 = acc * 10 + d;
        acc = if next > 999 {
            1000
        } else {
            next
        };
        i = i + 1;
    }
    (acc, i)
}

/// Every character of a digit run is a digit.
pub proof fn lemma_digit_run_digits(s: Seq<char>, from: int)
    requires
        0 <= from <= s.len(),
    ensures
        forall|j: int| from <= j < digit_run_end(s, from) ==> is_ascii_digit(#[trigger] s[j]),
    decreases s.len() - from,
{
    if from < s.len() && is_ascii_digit(s[from]) {
        lemma_digit_run_digits(s, from + 1);
    }
}

/// The decimal value of a digit run is never negative.
pub proof fn lemma_dec_val_nonneg(s: Seq<char>)
    requires
        forall|i: int| 0 <= i < s.len() ==> is_ascii_digit(#[trigger] s[i]),
    ensures
        dec_val(s) >= 0,
    decreases s.len(),
{
    if s.len() > 0 {
        lemma_dec_val_nonneg(s.drop_last());
    }
}

/// A successful parse always yields a prefix length of at most 32.
pub proof fn lemma_parse_ok_prefix_len(s: Seq<char>)
    requires
        spec_parse_cidr(s) is Ok,
    ensures
        (match spec_parse_cidr(s) {
            Ok(p) => p.1 <= 32,
            Err(_) => true,
        }),
{
    let e3 = digit_run_end(s, digit_run_end(s, digit_run_end(s, digit_run_end(s, 0) + 1) + 1) + 1);
    let ep = digit_run_end(s, e3 + 1);
    lemma_digit_run_end_bounds(s, 0);
    let run = s.subrange(e3 + 1, ep);
    lemma_digit_run_end_bounds(s, e3 + 1);
    lemma_digit_run_digits(s, e3 + 1);
    assert forall|i: int| 0 <= i < run.len() implies is_ascii_digit(#[trigger] run[i]) by {
        assert(run[i] == s[e3 + 1 + i]);
    }
    lemma_dec_val_nonneg(run);
}

/// Parses CIDR text `a.b.c.d/n` into the numeric address and the prefix
/// length. A malformed text is reported as a typed error, never a panic.
pub fn xd(cidr: &str) -> (r: Result<(u32, u32), ParseError>)
    ensures
        r == spec_parse_cidr(cidr@),
{
    let n = cidr.unicode_len();
    let (o0, e0) = scan_number(cidr, 0);
    proof {
        lemma_digit_run_end_bounds(cidr@, 0);
    }
    if e0 == 0 || e0 >= n || cidr.get_char(e0) != '.' {
        return Err(ParseError::BadOctetCount);
    }
    let (o1, e1) = scan_number(cidr, e0 + 1);
    proof {
        lemma_digit_run_end_bounds(cidr@, e0 as int + 1);
    }
    if e1 == e0 + 1 || e1 >= n || cidr.get_char(e1) != '.' {
        return Err(ParseError::BadOctetCount);
    }
    let (o2, e2) = scan_number(cidr, e1 + 1);
    proof {
        lemma_digit_run_end_bounds(cidr@, e1 as int + 1);
    }
    if e2 == e1 + 1 || e2 >= n || cidr.get_char(e2) != '.' {
        return Err(ParseError::BadOctetCount);
    }
    let (o3, e3) = scan_number(cidr, e2 + 1);
    proof {
        lemma_digit_run_end_bounds(cidr@, e2 as int + 1);
    }
    if e3 == e2 + 1 || e3 >= n || cidr.get_char(e3) != '/' {
        return Err(ParseError::BadOctetCount);
    }
    let (op, ep) = scan_number(cidr, e3 + 1);
    proof {
        lemma_digit_run_end_bounds(cidr@, e3 as int + 1);
    }
    if ep == e3 + 1 || ep != n {
        return Err(ParseError::PrefixLenOutOfRange);
    }
    if o0 > 255 || o1 > 255 || o2 > 255 || o3 > 255 {
        return Err(ParseError::OctetOutOfRange);
    }
    if op > 32 {
        return Err(ParseError::PrefixLenOutOfRange);
    }
    let ip: u32 = o0 * 0x100_0000 + o1 * 0x1_0000 + o2 * 0x100 + o3;
    Ok((ip, op))
}

impl Ipv4CidrRange {
    /// Parses CIDR text into a validated range; malformed text is reported
    /// as a typed error, never a panic.
    pub fn parse(text: &str) -> (r: Result<Ipv4CidrRange, ParseError>)
        ensures
            (match spec_parse_cidr(text@) {
                Ok(p) => r matches Ok(c) && c.spec_ip() == p.0 && c.spec_mask() == p.1 && c.wf(),
                Err(e) => r == Err::<Ipv4CidrRange, ParseError>(e),
            }),
    {
        match xd(text) {
            Ok(p) => {
                proof {
                    lemma_parse_ok_prefix_len(text@);
                }
                Ok(Ipv4CidrRange::new(p.0, p.1))
            },
            Err(e) => Err(e),
        }
    }
}

/// Parses CIDR text into the numeric pair (start, start + 2^prefix), the sum
/// taken modulo 2^32.
pub fn cidr2u32range(cidr: &str) -> (r: Result<(u32, u32), ParseError>)
    ensures
        (match spec_parse_cidr(cidr@) {
            Ok(p) => r matches Ok(q) && q.0 == p.0 && q.1 == ((p.0 + pow2(p.1 as nat))
                % 0x1_0000_0000) as u32,
            Err(e) => r == Err::<(u32, u32), ParseError>(e),
        }),
{
    match xd(cidr) {
        Ok(p) => {
            proof {
                lemma_parse_ok_prefix_len(cidr@);
                vstd::arithmetic::power2::lemma2_to64();
                if p.1 < 32 {
                    vstd::arithmetic::power2::lemma_pow2_strictly_increases(p.1 as nat, 32);
                }
                vstd::bits::lemma_u64_shl_is_mul(1u64, p.1 as u64);
            }
            let end64: u64 = p.0 as u64 + (1u64 << (p.1 as u64));
            let end: u32 = (end64 % 0x1_0000_0000u64) as u32;
            Ok((p.0, end))
        },
        Err(e) => Err(e),
    }
}

/// Parses CIDR text into the numeric pair (start, start + 2^prefix), exact
/// in 64 bits.
pub fn cidr2u64range(cidr: &str) -> (r: Result<(u64, u64), ParseError>)
    ensures
        (match spec_parse_cidr(cidr@) {
            Ok(p) => r matches Ok(q) && q.0 == p.0 && q.1 == p.0 + pow2(p.1 as nat),
            Err(e) => r == Err::<(u64, u64), ParseError>(e),
        }),
{
    match xd(cidr) {
        Ok(p) => {
            proof {
                lemma_parse_ok_prefix_len(cidr@);
                vstd::arithmetic::power2::lemma2_to64();
                if p.1 < 32 {
                    vstd::arithmetic::power2::lemma_pow2_strictly_increases(p.1 as nat, 32);
                }
                vstd::bits::lemma_u64_shl_is_mul(1u64, p.1 as u64);
            }
            let start: u64 = p.0 as u64;
            Ok((start, start + (1u64 << (p.1 as u64))))
        },
        Err(e) => Err(e),
    }
}

} // verus!
