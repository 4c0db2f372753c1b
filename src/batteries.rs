//! Banks of batteries, one bank per line of digits: the largest two-digit
//! joltage each bank can give by switching on two of its batteries in order,
//! and the largest twelve-digit one.

use vstd::prelude::*;
use vstd::string::StringSliceAdditionalSpecFns;
use crate::parse::{is_digit, line_end};
use crate::ids::pow10;

verus! {

/// The digits of `b[start..stop]`, other bytes skipped.
pub open spec fn digits_in(b: Seq<u8>, start: int, stop: int) -> Seq<u32>
    decreases stop - start,
{
    if stop <= start {
        Seq::empty()
    } else if is_digit(b[stop - 1]) {
        digits_in(b, start, stop - 1).push((b[stop - 1] - 48) as u32)
    } else {
        digits_in(b, start, stop - 1)
    }
}

/// Largest `10 * d[i] + d[j]` over `i < j`; 0 with fewer than two digits.
pub open spec fn is_best_pair(d: Seq<u32>, v: int) -> bool {
    &&& forall|i: int, j: int| 0 <= i < j < d.len() ==> 10 * d[i] + d[j] <= v
    &&& (d.len() < 2 ==> v == 0)
    &&& (d.len() >= 2 ==> exists|i: int, j: int| 0 <= i < j < d.len() && 10 * d[i] + d[j] == v)
}

/// Largest two-digit number made of two digits of `d` taken in order.
pub fn best_pair(d: &Vec<u32>) -> (r: u32)
    requires
        forall|k: int| 0 <= k < d.len() ==> #[trigger] d@[k] <= 9,
    ensures
        is_best_pair(d@, r as int),
        r <= 99,
{
    let mut best: u32 = 0;
    let mut i: usize = 0;
    while i < d.len()
        invariant
            i <= d.len(),
            forall|k: int| 0 <= k < d.len() ==> #[trigger] d@[k] <= 9,
            best <= 99,
            forall|a: int, b: int| 0 <= a < i && a < b < d.len() ==> 10 * d@[a] + d@[b] <= best,
            best == 0 || exists|a: int, b: int| 0 <= a < b < d.len() && 10 * d@[a] + d@[b] == best,
        decreases d.len() - i,
    {
        let mut j: usize = i + 1;
        while j < d.len()
            invariant
                i < d.len(),
                i + 1 <= j <= d.len(),
                forall|k: int| 0 <= k < d.len() ==> #[trigger] d@[k] <= 9,
                best <= 99,
                forall|a: int, b: int| 0 <= a < i && a < b < d.len() ==> 10 * d@[a] + d@[b] <= best,
                forall|b: int| i < b < j ==> 10 * d@[i as int] + d@[b] <= best,
                best == 0 || exists|a: int, b: int| 0 <= a < b < d.len() && 10 * d@[a] + d@[b] == best,
            decreases d.len() - j,
        {
            let cur = d[i] * 10 + d[j];
            if cur > best {
                best = cur;
            }
            j += 1;
        }
        i += 1;
    }
    if d.len() >= 2 && best == 0 {
        assert(10 * d@[0] + d@[1] <= 0);
        assert(10 * d@[0] + d@[1] == 0);
    }
    best
}

/// Sum of the best pairs of the lines from `start` on.
pub open spec fn pairs_total(b: Seq<u8>, start: int, v: int) -> bool
    decreases b.len() - start,
{
    if start >= b.len() || start < 0 {
        v == 0
    } else {
        let stop = line_end(b, start);
        let rest = if stop < b.len() { stop + 1 } else { b.len() as int };
        rest > start && exists|p: int| is_best_pair(digits_in(b, start, stop), p) && pairs_total(b, rest, v - p)
    }
}

/// The digits of `b[start..stop]`.
fn collect_digits(b: &[u8], start: usize, stop: usize) -> (d: Vec<u32>)
    requires
        start <= stop <= b@.len(),
    ensures
        d@ == digits_in(b@, start as int, stop as int),
        forall|k: int| 0 <= k < d.len() ==> #[trigger] d@[k] <= 9,
{
    let mut d: Vec<u32> = Vec::new();
    let mut p = start;
    while p < stop
        invariant
            start <= p <= stop <= b@.len(),
            d@ == digits_in(b@, start as int, p as int),
            forall|k: int| 0 <= k < d.len() ==> #[trigger] d@[k] <= 9,
        decreases stop - p,
    {
        if 48 <= b[p] && b[p] <= 57 {
            d.push((b[p] - 48) as u32);
        }
        p += 1;
    }
    d
}

/// Sum over the lines of the largest two-digit joltage of each bank.
pub fn part1(input: &str) -> (r: u128)
    ensures
        pairs_total(input.spec_bytes(), 0, r as int),
{
    let b = input.as_bytes();
    let n = b.len();
    let mut sum: u128 = 0;
    let mut start: usize = 0;
    while start < n
        invariant
            start <= n == b@.len(),
            b@ == input.spec_bytes(),
            sum <= 99 * start,
            forall|v: int| pairs_total(b@, start as int, v) ==> pairs_total(b@, 0, sum + v),
        decreases n - start,
    {
        let mut stop = start;
        while stop < n && b[stop] != 10
            invariant
                start <= stop <= n == b@.len(),
                line_end(b@, start as int) == line_end(b@, stop as int),
            decreases n - stop,
        {
            stop += 1;
        }
        let d = collect_digits(b, start, stop);
        let p = best_pair(&d);
        let next = if stop < n { stop + 1 } else { n };
        proof {
            assert forall|v: int| pairs_total(b@, next as int, v) implies pairs_total(b@, 0, sum + p + v) by {
                assert(pairs_total(b@, start as int, p + v));
            }
        }
        sum = sum + p as u128;
        start = next;
    }
    proof {
        assert(pairs_total(b@, n as int, 0));
    }
    sum
}

/// Largest number written with `j` of the first `i` digits of `d`, kept in
/// order (0 when fewer than `j` digits are available).
pub open spec fn best_of(d: Seq<u32>, i: int, j: int) -> nat
    decreases i,
{
    if i <= 0 || j <= 0 || j > i {
        0
    } else {
        let skip = best_of(d, i - 1, j);
        let take = best_of(d, i - 1, j - 1) * 10 + d[i - 1];
        if take >= skip { take as nat } else { skip }
    }
}

proof fn lemma_best_of_bound(d: Seq<u32>, i: int, j: int)
    requires
        0 <= i <= d.len(),
        0 <= j,
        forall|k: int| 0 <= k < d.len() ==> #[trigger] d[k] <= 9,
    ensures
        best_of(d, i, j) < pow10(j as nat),
    decreases i,
{
    reveal_with_fuel(pow10, 2);
    if i > 0 && j > 0 && j <= i {
        lemma_best_of_bound(d, i - 1, j);
        lemma_best_of_bound(d, i - 1, j - 1);
        assert(pow10(j as nat) == 10 * pow10((j - 1) as nat));
    } else if j > 0 {
        assert(pow10(j as nat) == 10 * pow10((j - 1) as nat));
        lemma_pow10_pos((j - 1) as nat);
    }
}

proof fn lemma_pow10_pos(k: nat)
    ensures
        pow10(k) >= 1,
    decreases k,
{
    if k > 0 {
        lemma_pow10_pos((k - 1) as nat);
    }
}

/// Largest twelve-digit number made of digits of `d` in order; 0 when `d`
/// has fewer than twelve digits.
pub fn best_twelve(d: &Vec<u32>) -> (r: u64)
    requires
        forall|k: int| 0 <= k < d.len() ==> #[trigger] d@[k] <= 9,
    ensures
        r == best_of(d@, d.len() as int, 12),
{
    proof {
        reveal_with_fuel(pow10, 13);
    }
    let mut dp: Vec<u64> = Vec::new();
    let mut j: usize = 0;
    while j <= 12
        invariant
            j <= 13,
            dp.len() == j,
            forall|t: int| 0 <= t < j ==> dp@[t] == 0,
        decreases 13 - j,
    {
        dp.push(0);
        j += 1;
    }
    let mut i: usize = 0;
    while i < d.len()
        invariant
            0 <= i <= d.len(),
            dp.len() == 13,
            forall|k: int| 0 <= k < d.len() ==> #[trigger] d@[k] <= 9,
            forall|t: int| 0 <= t <= 12 ==> #[trigger] dp@[t] == best_of(d@, i as int, t),
            pow10(12) == 1000000000000,
        decreases d.len() - i,
    {
        let top: usize = if i < 11 { i + 1 } else { 12 };
        let mut jj: usize = top;
        while jj > 0
            invariant
                0 <= jj <= top <= 12,
                top <= i + 1 <= d.len(),
                dp.len() == 13,
                forall|k: int| 0 <= k < d.len() ==> #[trigger] d@[k] <= 9,
                forall|t: int| 0 <= t <= 12 && (t <= jj || t > top) ==> #[trigger] dp@[t] == best_of(d@, i as int, t),
                forall|t: int| jj < t <= top ==> #[trigger] dp@[t] == best_of(d@, i + 1, t),
                pow10(12) == 1000000000000,
            decreases jj,
        {
            proof {
                lemma_best_of_bound(d@, i as int, jj - 1);
                assert(pow10((jj - 1) as nat) <= pow10(11)) by {
                    lemma_pow10_mono((jj - 1) as nat, 11);
                }
                reveal_with_fuel(pow10, 12);
            }
            let take = dp[jj - 1] * 10 + d[i] as u64;
            if take > dp[jj] {
                dp[jj] = take;
            }
            jj -= 1;
        }
        proof {
            assert forall|t: int| 0 <= t <= 12 implies #[trigger] dp@[t] == best_of(d@, i + 1, t) by {
                if t > top {
                    assert(best_of(d@, i + 1, t) == 0);
                    assert(best_of(d@, i as int, t) == 0);
                }
            }
        }
        i += 1;
    }
    dp[12]
}

/// Sum over the lines from `start` on of their largest twelve-digit joltage.
pub open spec fn twelve_total(b: Seq<u8>, start: int) -> int
    decreases b.len() - start,
{
    if start >= b.len() || start < 0 {
        0
    } else {
        let stop = line_end(b, start);
        let rest = if stop < b.len() { stop + 1 } else { b.len() as int };
        if rest <= start {
            0
        } else {
            let d = digits_in(b, start, stop);
            best_of(d, d.len() as int, 12) + twelve_total(b, rest)
        }
    }
}

/// Sum over the lines of the largest twelve-digit joltage of each bank
/// (banks with fewer than twelve batteries give nothing).
pub fn part2(input: &str) -> (r: u128)
    ensures
        r == twelve_total(input.spec_bytes(), 0),
{
    let b = input.as_bytes();
    let n = b.len();
    let mut sum: u128 = 0;
    let mut start: usize = 0;
    proof {
        reveal_with_fuel(pow10, 13);
    }
    while start < n
        invariant
            start <= n == b@.len(),
            b@ == input.spec_bytes(),
            sum <= 1000000000000 * start,
            twelve_total(b@, 0) == sum + twelve_total(b@, start as int),
        decreases n - start,
    {
        let mut stop = start;
        while stop < n && b[stop] != 10
            invariant
                start <= stop <= n == b@.len(),
                line_end(b@, start as int) == line_end(b@, stop as int),
            decreases n - stop,
        {
            stop += 1;
        }
        let d = collect_digits(b, start, stop);
        let best = if d.len() < 12 { 0 } else { best_twelve(&d) };
        proof {
            lemma_best_of_bound(d@, d.len() as int, 12);
            reveal_with_fuel(pow10, 13);
        }
        sum = sum + best as u128;
        if stop < n {
            start = stop + 1;
        } else {
            start = n;
        }
    }
    sum
}

proof fn lemma_pow10_mono(a: nat, b: nat)
    requires
        a <= b,
    ensures
        pow10(a) <= pow10(b),
    decreases b,
{
    if a < b {
        lemma_pow10_mono(a, (b - 1) as nat);
        lemma_pow10_pos((b - 1) as nat);
    }
}

} // verus!
