//! Product IDs made of a repeated digit pattern, and the `a-b` ranges they
//! are listed in.

use vstd::prelude::*;
use vstd::string::StringSliceAdditionalSpecFns;
use crate::parse::{is_digit, digits_value, digits_end, parse_number};
use crate::dial::all_digits;

verus! {

/// Number of decimal digits of `i` (1 for 0).
pub open spec fn ndigits(i: nat) -> nat
    decreases i,
{
    if i < 10 { 1 } else { 1 + ndigits(i / 10) }
}

/// `10` to the power `k`.
pub open spec fn pow10(k: nat) -> nat
    decreases k,
{
    if k == 0 { 1 } else { 10 * pow10((k - 1) as nat) }
}

/// The first `reps` blocks of `d` digits of `t`, from the right, all equal `pattern`.
pub open spec fn blocks_equal(t: nat, d: nat, reps: nat, pattern: nat) -> bool
    decreases reps,
{
    if reps == 0 {
        true
    } else {
        d > 0 && t % d == pattern && blocks_equal(t / d, d, (reps - 1) as nat, pattern)
    }
}

/// `i` is one block of digits written twice.
pub open spec fn doubled(i: nat) -> bool {
    let h = ndigits(i) / 2;
    ndigits(i) % 2 == 0 && i / pow10(h) == i % pow10(h)
}

/// `i` is one block of `len` digits written `ndigits(i) / len >= 2` times.
pub open spec fn repeats_with(i: nat, len: nat) -> bool {
    &&& 1 <= len <= ndigits(i) / 2
    &&& ndigits(i) % len == 0
    &&& blocks_equal(i, pow10(len), ndigits(i) / len, i % pow10(len))
}

/// `i` is some block of digits written at least twice.
pub open spec fn repeated(i: nat) -> bool {
    exists|len: nat| repeats_with(i, len)
}

proof fn lemma_pow10_positive(k: nat)
    ensures
        pow10(k) >= 1,
    decreases k,
{
    if k > 0 {
        lemma_pow10_positive((k - 1) as nat);
    }
}

proof fn lemma_pow10_monotone(a: nat, b: nat)
    requires
        a <= b,
    ensures
        pow10(a) <= pow10(b),
    decreases b,
{
    if a < b {
        lemma_pow10_monotone(a, (b - 1) as nat);
        lemma_pow10_positive((b - 1) as nat);
    }
}

proof fn lemma_ndigits_bound(i: nat, k: nat)
    requires
        i < pow10(k),
        k >= 1,
    ensures
        ndigits(i) <= k,
    decreases k,
{
    if i >= 10 {
        assert(k >= 2) by {
            if k == 1 {
                reveal_with_fuel(pow10, 2);
            }
        }
        assert(i / 10 < pow10((k - 1) as nat));
        lemma_ndigits_bound(i / 10, (k - 1) as nat);
    }
}

/// Number of decimal digits of `i`.
fn digit_count(i: u64) -> (r: u32)
    ensures
        r == ndigits(i as nat),
        1 <= r <= 20,
{
    proof {
        reveal_with_fuel(pow10, 21);
        lemma_ndigits_bound(i as nat, 20);
    }
    let mut t: u64 = i;
    let mut nd: u32 = 1;
    while t >= 10
        invariant
            ndigits(i as nat) == nd - 1 + ndigits(t as nat),
            1 <= nd,
            ndigits(i as nat) <= 20,
        decreases t,
    {
        t = t / 10;
        nd += 1;
    }
    nd
}

/// `10` to the power `k`, for `k <= 10`.
fn pow10_exec(k: u32) -> (r: u64)
    requires
        k <= 10,
    ensures
        r == pow10(k as nat),
        r >= 1,
{
    proof {
        reveal_with_fuel(pow10, 11);
        lemma_pow10_monotone(k as nat, 10);
    }
    let mut p: u64 = 1;
    let mut e: u32 = 0;
    while e < k
        invariant
            e <= k <= 10,
            p == pow10(e as nat),
            pow10(k as nat) <= 10000000000,
        decreases k - e,
    {
        proof {
            lemma_pow10_monotone((e + 1) as nat, k as nat);
        }
        p = p * 10;
        e += 1;
    }
    proof {
        lemma_pow10_positive(k as nat);
    }
    p
}

/// `i` when it is one block of digits written twice, else 0.
pub fn part1(i: u64) -> (r: u64)
    ensures
        r == (if doubled(i as nat) { i } else { 0 }),
{
    let num_digits = digit_count(i);
    if num_digits % 2 == 0 {
        let divisor = pow10_exec(num_digits / 2);
        let left_half = i / divisor;
        let right_half = i % divisor;
        if left_half == right_half {
            return i;
        }
    }
    0
}

/// `i` when it is some block of digits written at least twice, else 0.
pub fn part2(i: u64) -> (r: u64)
    ensures
        r == (if repeated(i as nat) { i } else { 0 }),
{
    let num_digits = digit_count(i);
    let mut pattern_len: u32 = 1;
    while pattern_len <= num_digits / 2
        invariant
            num_digits == ndigits(i as nat),
            1 <= num_digits <= 20,
            1 <= pattern_len,
            forall|len: nat| 1 <= len < pattern_len ==> !repeats_with(i as nat, len),
        decreases num_digits / 2 + 1 - pattern_len,
    {
        if num_digits % pattern_len == 0 {
            let repetitions = num_digits / pattern_len;
            let divisor = pow10_exec(pattern_len);
            let pattern = i % divisor;
            let mut temp = i;
            let mut k: u32 = 0;
            let mut all_match = true;
            while k < repetitions && all_match
                invariant
                    k <= repetitions,
                    divisor >= 1,
                    divisor == pow10(pattern_len as nat),
                    pattern == i % divisor,
                    all_match ==> blocks_equal(i as nat, divisor as nat, repetitions as nat, pattern as nat)
                        == blocks_equal(temp as nat, divisor as nat, (repetitions - k) as nat, pattern as nat),
                    !all_match ==> !blocks_equal(i as nat, divisor as nat, repetitions as nat, pattern as nat),
                decreases repetitions - k + if all_match { 1int } else { 0int },
            {
                if temp % divisor != pattern {
                    all_match = false;
                } else {
                    temp = temp / divisor;
                    k += 1;
                }
            }
            if all_match {
                assert(repeats_with(i as nat, pattern_len as nat));
                return i;
            }
        }
        pattern_len += 1;
    }
    assert forall|len: nat| !repeats_with(i as nat, len) by {
        if 1 <= len <= ndigits(i as nat) / 2 {
            assert(len < pattern_len);
        }
    }
    0
}

/// The number that `s` spells in the form Rust's `u64` parser accepts: an
/// optional `+`, then one or more digits; `None` otherwise or when too large.
pub open spec fn unsigned_value(s: Seq<u8>) -> Option<nat> {
    let t = if s.len() > 0 && s[0] == 43u8 { s.drop_first() } else { s };
    if t.len() > 0 && all_digits(t) && digits_value(t) <= u64::MAX { Some(digits_value(t)) } else { None }
}

/// First position at or after `pos` holding a `-`, or the length.
pub open spec fn dash_at(b: Seq<u8>, pos: int) -> int
    decreases b.len() - pos,
{
    if pos < b.len() && b[pos] != 45u8 { dash_at(b, pos + 1) } else { pos }
}

proof fn lemma_digits_end(b: Seq<u8>, pos: int, end: int)
    requires
        0 <= pos <= end <= b.len(),
    ensures
        pos <= digits_end(b, pos, end) <= end,
        forall|k: int| pos <= k < digits_end(b, pos, end) ==> is_digit(#[trigger] b[k]),
        digits_end(b, pos, end) < end ==> !is_digit(b[digits_end(b, pos, end)]),
    decreases end - pos,
{
    if pos < end && is_digit(b[pos]) {
        lemma_digits_end(b, pos + 1, end);
    }
}

/// The number spelled by `b[lo..hi]` (see `unsigned_value`).
pub fn parse_unsigned(b: &[u8], lo: usize, hi: usize) -> (r: Option<u64>)
    requires
        lo <= hi <= b@.len(),
    ensures
        r == match unsigned_value(b@.subrange(lo as int, hi as int)) {
            Some(v) => Some(v as u64),
            None => None,
        },
{
    let ghost s = b@.subrange(lo as int, hi as int);
    let start = if lo < hi && b[lo] == 43 { lo + 1 } else { lo };
    let ghost t = b@.subrange(start as int, hi as int);
    assert(t == if s.len() > 0 && s[0] == 43u8 { s.drop_first() } else { s });
    proof {
        lemma_digits_end(b@, start as int, hi as int);
    }
    let ghost e_spec = digits_end(b@, start as int, hi as int);
    match parse_number(b, start, hi) {
        Some((v, e)) => {
            if e == hi {
                assert(t == b@.subrange(start as int, e as int));
                assert(all_digits(t)) by {
                    assert forall|k: int| 0 <= k < t.len() implies is_digit(#[trigger] t[k]) by {
                        assert(t[k] == b@[start + k]);
                    }
                }
                Some(v)
            } else {
                assert(!is_digit(t[e - start])) by {
                    assert(t[e - start] == b@[e as int]);
                }
                None
            }
        },
        None => {
            proof {
                if e_spec == start {
                    if t.len() > 0 {
                        assert(t[0] == b@[start as int]);
                        assert(!is_digit(t[0]));
                    }
                } else if e_spec < hi {
                    assert(t[e_spec - start] == b@[e_spec]);
                    assert(!is_digit(t[e_spec - start]));
                } else {
                    assert(t == b@.subrange(start as int, e_spec));
                }
            }
            None
        },
    }
}

/// Reads a range `a-b` of IDs: the text before the first `-` and the text
/// between it and the next `-` (or the end) must both be numbers.
pub fn parse_direction_value(s: &str) -> (r: Option<(u64, u64)>)
    ensures
        ({
            let b = s.spec_bytes();
            let d = dash_at(b, 0);
            let e = dash_at(b, d + 1);
            r == if d >= b.len() {
                None
            } else {
                match (unsigned_value(b.subrange(0, d)), unsigned_value(b.subrange(d + 1, e))) {
                    (Some(x), Some(y)) => Some((x as u64, y as u64)),
                    _ => None,
                }
            }
        }),
{
    let b = s.as_bytes();
    let n = b.len();
    let mut d: usize = 0;
    while d < n && b[d] != 45
        invariant
            d <= n == b@.len(),
            dash_at(b@, 0) == dash_at(b@, d as int),
        decreases n - d,
    {
        d += 1;
    }
    if d >= n {
        return None;
    }
    let mut e: usize = d + 1;
    while e < n && b[e] != 45
        invariant
            d < e <= n == b@.len(),
            dash_at(b@, d + 1) == dash_at(b@, e as int),
        decreases n - e,
    {
        e += 1;
    }
    match (parse_unsigned(b, 0, d), parse_unsigned(b, d + 1, e)) {
        (Some(x), Some(y)) => Some((x, y)),
        _ => None,
    }
}

} // verus!
