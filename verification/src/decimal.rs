//! Fixed-point decimal distances.
//!
//! Kill distances arrive as decimal text (`120.5`, `300.25`) and are held as
//! integers scaled by 10^4, one unit per ten-thousandth of a meter, so that
//! sums and maxima over them are exact.  The accepted grammar is digits with
//! an optional dot and up to four fraction digits, at least one digit in all;
//! anything else does not parse and the value is dropped by the caller.

use crate::text::{find_char, is_digit, is_digit_char, spec_find_char_from};
use vstd::prelude::*;

verus! {

/// 10^n.
pub open spec fn pow10(n: nat) -> int
    decreases n,
{
    if n == 0 {
        1
    } else {
        10 * pow10((n - 1) as nat)
    }
}

/// The numeric value of a digit character.
pub open spec fn digit_val(c: char) -> int {
    (c as u32) - ('0' as u32)
}

/// Every character of `s` is a decimal digit.
pub open spec fn all_digits(s: Seq<char>) -> bool {
    forall|i: int| 0 <= i < s.len() ==> is_digit(s[i])
}

/// The value of a digit string read in base ten.
pub open spec fn digits_val(s: Seq<char>) -> int
    decreases s.len(),
{
    if s.len() == 0 {
        0
    } else {
        digits_val(s.drop_last()) * 10 + digit_val(s.last())
    }
}

/// The scaled value of a decimal string: integer digits, an optional dot and
/// up to four fraction digits, the whole scaled by 10^4.  At most fourteen
/// integer digits are accepted, which keeps every value well under `u64::MAX`.
pub open spec fn decimal_spec(s: Seq<char>) -> Option<u64> {
    match spec_find_char_from(s, '.', 0) {
        None => if 1 <= s.len() <= 14 && all_digits(s) {
            Some((digits_val(s) * 10000) as u64)
        } else {
            None
        },
        Some(d) => if 0 <= d < s.len() {
            fraction_spec(s.subrange(0, d), s.subrange(d + 1, s.len() as int))
        } else {
            None
        },
    }
}

/// The scaled value of `ip.fp`.
pub open spec fn fraction_spec(ip: Seq<char>, fp: Seq<char>) -> Option<u64> {
    if ip.len() + fp.len() >= 1 && ip.len() <= 14 && fp.len() <= 4 && all_digits(ip)
        && all_digits(fp) {
        Some((digits_val(ip) * 10000 + digits_val(fp) * pow10((4 - fp.len()) as nat)) as u64)
    } else {
        None
    }
}

pub proof fn lemma_digits_val_bound(s: Seq<char>)
    requires
        all_digits(s),
    ensures
        0 <= digits_val(s) < pow10(s.len() as nat),
    decreases s.len(),
{
    if s.len() == 0 {
    } else {
        assert(all_digits(s.drop_last()));
        lemma_digits_val_bound(s.drop_last());
        assert(is_digit(s.last()));
        assert(0 <= digit_val(s.last()) <= 9);
    }
}

pub proof fn lemma_pow10_mono(a: nat, b: nat)
    requires
        a <= b,
    ensures
        pow10(a) <= pow10(b),
    decreases b - a,
{
    if a < b {
        lemma_pow10_mono(a, (b - 1) as nat);
        assert(pow10(b) == 10 * pow10((b - 1) as nat));
        assert(pow10(a) >= 1) by {
            lemma_pow10_pos(a);
        }
    }
}

pub proof fn lemma_pow10_pos(n: nat)
    ensures
        pow10(n) >= 1,
    decreases n,
{
    if n > 0 {
        lemma_pow10_pos((n - 1) as nat);
    }
}

pub proof fn lemma_pow10_values()
    ensures
        pow10(0) == 1,
        pow10(1) == 10,
        pow10(2) == 100,
        pow10(3) == 1000,
        pow10(4) == 10000,
        pow10(14) == 100000000000000,
        pow10(18) == 1000000000000000000,
{
    reveal_with_fuel(pow10, 19);
}

/// Reads a digit string of at most fourteen characters.
fn digits_value(s: &str) -> (r: Option<u64>)
    requires
        s@.len() <= 14,
    ensures
        match r {
            Some(v) => all_digits(s@) && v as int == digits_val(s@) && (v as int) < pow10(
                s@.len() as nat,
            ),
            None => !all_digits(s@),
        },
{
    let n = s.unicode_len();
    let mut acc: u64 = 0;
    let mut i: usize = 0;
    while i < n
        invariant
            n == s@.len() <= 14,
            0 <= i <= n,
            forall|k: int| 0 <= k < i ==> is_digit(s@[k]),
            acc as int == digits_val(s@.subrange(0, i as int)),
            (acc as int) < pow10(i as nat),
        decreases n - i,
    {
        let c = s.get_char(i);
        if !is_digit_char(c) {
            return None;
        }
        proof {
            lemma_pow10_values();
            lemma_pow10_mono(i as nat, 13);
            assert(acc as int <= pow10(13) - 1);
        }
        let d: u64 = (c as u32 - '0' as u32) as u64;
        let ghost prev = s@.subrange(0, i as int);
        acc = acc * 10 + d;
        i = i + 1;
        proof {
            assert(s@.subrange(0, i as int).drop_last() =~= prev);
            assert(s@.subrange(0, i as int).last() == s@[i - 1]);
        }
    }
    proof {
        assert(s@.subrange(0, n as int) =~= s@);
    }
    Some(acc)
}

/// The power of ten that pads a fraction of `fp_len` digits out to four.
fn fraction_scale(fp_len: usize) -> (r: u64)
    requires
        fp_len <= 4,
    ensures
        r as int == pow10((4 - fp_len) as nat),
{
    proof {
        lemma_pow10_values();
    }
    if fp_len == 0 {
        10000
    } else if fp_len == 1 {
        1000
    } else if fp_len == 2 {
        100
    } else if fp_len == 3 {
        10
    } else {
        1
    }
}

/// Parses a decimal distance into ten-thousandths of a meter.
pub fn parse_distance(s: &str) -> (r: Option<u64>)
    ensures
        r == decimal_spec(s@),
{
    let n = s.unicode_len();
    match find_char(s, '.') {
        None => {
            if n < 1 || n > 14 {
                return None;
            }
            match digits_value(s) {
                None => None,
                Some(v) => {
                    proof {
                        lemma_pow10_values();
                        lemma_digits_val_bound(s@);
                        lemma_pow10_mono(s@.len() as nat, 14);
                        assert(digits_val(s@) * 10000 < pow10(14) * 10000);
                    }
                    Some(v * 10000)
                },
            }
        },
        Some(d) => {
            proof {
                crate::text::lemma_find_char_some(s@, '.', 0);
            }
            let ip = s.substring_char(0, d);
            let fp = s.substring_char(d + 1, n);
            let ip_len = d;
            let fp_len = n - d - 1;
            if ip_len + fp_len < 1 || ip_len > 14 || fp_len > 4 {
                return None;
            }
            let vi = match digits_value(ip) {
                None => {
                    return None;
                },
                Some(v) => v,
            };
            let vf = match digits_value(fp) {
                None => {
                    return None;
                },
                Some(v) => v,
            };
            let scale = fraction_scale(fp_len);
            proof {
                lemma_pow10_values();
                lemma_digits_val_bound(ip@);
                lemma_digits_val_bound(fp@);
                lemma_pow10_mono(ip@.len() as nat, 14);
                assert(vi as int * 10000 <= (pow10(14) - 1) * 10000);
                lemma_fraction_bound(fp@.len() as nat, vf as int);
                assert((vf as int) * (scale as int) < 10000);
            }
            Some(vi * 10000 + vf * scale)
        },
    }
}

/// A fraction of up to four digits, padded to four, stays under 10^4.
proof fn lemma_fraction_bound(fp_len: nat, vf: int)
    requires
        fp_len <= 4,
        0 <= vf < pow10(fp_len),
    ensures
        vf * pow10((4 - fp_len) as nat) < 10000,
{
    lemma_pow10_values();
    if fp_len == 0 {
        assert(vf == 0);
    } else if fp_len == 1 {
        assert(vf <= 9);
        assert(vf * 1000 <= 9000);
    } else if fp_len == 2 {
        assert(vf <= 99);
        assert(vf * 100 <= 9900);
    } else if fp_len == 3 {
        assert(vf <= 999);
        assert(vf * 10 <= 9990);
    } else {
        assert(vf <= 9999);
    }
}

} // verus!
