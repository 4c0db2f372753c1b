//! Ranges of fresh ingredient IDs: merging them, counting the IDs they hold,
//! and looking IDs up.

use vstd::prelude::*;
use vstd::seq_lib::{to_multiset_update, to_multiset_contains};

verus! {

/// Some range of `rs` holds `x`.
pub open spec fn covers(rs: Seq<(u64, u64)>, x: int) -> bool {
    exists|k: int| 0 <= k < rs.len() && (#[trigger] rs[k]).0 <= x <= rs[k].1
}

/// Every range is non-empty.
pub open spec fn non_empty(rs: Seq<(u64, u64)>) -> bool {
    forall|k: int| 0 <= k < rs.len() ==> (#[trigger] rs[k]).0 <= rs[k].1
}

/// Non-empty, in increasing order, and neither overlapping nor touching.
pub open spec fn coalesced(rs: Seq<(u64, u64)>) -> bool {
    &&& non_empty(rs)
    &&& forall|a: int, b: int| 0 <= a < b < rs.len() ==> rs[a].1 + 1 < rs[b].0
}

/// Non-empty, in increasing order, and not overlapping.
pub open spec fn sorted_disjoint(rs: Seq<(u64, u64)>) -> bool {
    &&& non_empty(rs)
    &&& forall|a: int, b: int| 0 <= a < b < rs.len() ==> rs[a].1 < rs[b].0
}

/// Starts in non-decreasing order.
pub open spec fn sorted_by_start(rs: Seq<(u64, u64)>) -> bool {
    forall|a: int, b: int| 0 <= a < b < rs.len() ==> rs[a].0 <= rs[b].0
}

proof fn lemma_same_multiset_covers(s: Seq<(u64, u64)>, t: Seq<(u64, u64)>, x: int)
    requires
        s.to_multiset() == t.to_multiset(),
    ensures
        covers(s, x) <==> covers(t, x),
{
    if covers(s, x) {
        let k = choose|k: int| 0 <= k < s.len() && (#[trigger] s[k]).0 <= x <= s[k].1;
        to_multiset_contains(s, s[k]);
        to_multiset_contains(t, s[k]);
        assert(s.contains(s[k]));
        let j = choose|j: int| 0 <= j < t.len() && t[j] == s[k];
        assert(t[j].0 <= x <= t[j].1);
    }
    if covers(t, x) {
        let k = choose|k: int| 0 <= k < t.len() && (#[trigger] t[k]).0 <= x <= t[k].1;
        to_multiset_contains(t, t[k]);
        to_multiset_contains(s, t[k]);
        assert(t.contains(t[k]));
        let j = choose|j: int| 0 <= j < s.len() && s[j] == t[k];
        assert(s[j].0 <= x <= s[j].1);
    }
}

/// Sorts by start (insertion sort).
fn sort_by_start(v: &mut Vec<(u64, u64)>)
    ensures
        final(v)@.to_multiset() == old(v)@.to_multiset(),
        final(v).len() == old(v).len(),
        sorted_by_start(final(v)@),
{
    let n = v.len();
    let mut i: usize = 1;
    while i < n
        invariant
            n == v.len(),
            1 <= i || n == 0,
            v@.to_multiset() == old(v)@.to_multiset(),
            forall|a: int, b: int| 0 <= a < b < i && b < n ==> v@[a].0 <= v@[b].0,
        decreases n - i,
    {
        let mut j: usize = i;
        while j > 0 && v[j - 1].0 > v[j].0
            invariant
                n == v.len(),
                0 <= j <= i < n,
                v@.to_multiset() == old(v)@.to_multiset(),
                forall|a: int, b: int| 0 <= a < b <= i && b != j ==> v@[a].0 <= v@[b].0,
                forall|a: int| j < a <= i ==> v@[j as int].0 <= v@[a].0,
            decreases j,
        {
            let a = v[j - 1];
            let b = v[j];
            let ghost before = v@;
            v[j - 1] = b;
            proof {
                to_multiset_update(before, j - 1, b);
            }
            let ghost mid = v@;
            v[j] = a;
            proof {
                broadcast use vstd::multiset::group_multiset_axioms;
                assert(mid == before.update(j - 1, b));
                assert(v@ == mid.update(j as int, a));
                assert(mid[j as int] == b);
                to_multiset_update(mid, j as int, a);
                assert(before.contains(a));
                to_multiset_contains(before, a);
                assert(mid.to_multiset() == before.to_multiset().insert(b).remove(a));
                assert(v@.to_multiset() == mid.to_multiset().insert(a).remove(b));
                assert(v@.to_multiset() =~= before.to_multiset());
            }
            j -= 1;
        }
        i += 1;
    }
}

/// Merges the ranges: afterwards they are sorted, neither overlap nor touch,
/// and hold exactly the IDs they held before.
pub fn coalesce_ranges(ranges: &mut Vec<(u64, u64)>)
    requires
        non_empty(old(ranges)@),
    ensures
        coalesced(final(ranges)@),
        forall|x: int| covers(final(ranges)@, x) <==> covers(old(ranges)@, x),
        final(ranges).len() <= old(ranges).len(),
{
    if ranges.len() == 0 {
        return;
    }
    let ghost given = ranges@;
    sort_by_start(ranges);
    let ghost sorted = ranges@;
    assert(non_empty(sorted)) by {
        assert forall|k: int| 0 <= k < sorted.len() implies (#[trigger] sorted[k]).0 <= sorted[k].1 by {
            to_multiset_contains(sorted, sorted[k]);
            to_multiset_contains(given, sorted[k]);
            assert(sorted.contains(sorted[k]));
        }
    }
    assert forall|x: int| covers(sorted, x) <==> covers(given, x) by {
        lemma_same_multiset_covers(sorted, given, x);
    }
    let n = ranges.len();
    let mut out: Vec<(u64, u64)> = Vec::new();
    out.push(ranges[0]);
    assert(sorted.take(1) =~= seq![sorted[0]]);
    let mut r: usize = 1;
    while r < n
        invariant
            n == ranges.len(),
            ranges@ == sorted,
            non_empty(sorted),
            sorted_by_start(sorted),
            1 <= r <= n,
            out.len() >= 1,
            out.len() <= r,
            coalesced(out@),
            out@.last().0 <= sorted[r - 1].0,
            forall|x: int| covers(out@, x) <==> covers(sorted.take(r as int), x),
        decreases n - r,
    {
        let (st, en) = ranges[r];
        let w = out.len() - 1;
        let last = out[w];
        let ghost prev = out@;
        assert(forall|x: int| covers(prev, x) <==> covers(sorted.take(r as int), x));
        if st == 0 || st - 1 <= last.1 {
            let merged = (last.0, if en > last.1 { en } else { last.1 });
            out[w] = merged;
            assert(out@ == prev.update(w as int, merged));
            assert(prev[w as int] == last);
            assert forall|x: int| covers(out@, x) <==> covers(sorted.take(r + 1), x) by {
                if covers(out@, x) {
                    let k = choose|k: int| 0 <= k < out@.len() && (#[trigger] out@[k]).0 <= x <= out@[k].1;
                    if k != w {
                        assert(prev[k] == out@[k]);
                        assert(covers(prev, x));
                    } else if x <= last.1 {
                        assert(prev[w as int].0 <= x <= prev[w as int].1);
                        assert(covers(prev, x));
                    } else {
                        assert(sorted.take(r + 1)[r as int] == (st, en));
                    }
                    if covers(prev, x) {
                        let q = choose|q: int| 0 <= q < r && (#[trigger] sorted.take(r as int)[q]).0 <= x <= sorted.take(r as int)[q].1;
                        assert(sorted.take(r + 1)[q] == sorted.take(r as int)[q]);
                    }
                }
                if covers(sorted.take(r + 1), x) {
                    let q = choose|q: int| 0 <= q < r + 1 && (#[trigger] sorted.take(r + 1)[q]).0 <= x <= sorted.take(r + 1)[q].1;
                    if q < r {
                        assert(sorted.take(r as int)[q] == sorted.take(r + 1)[q]);
                        assert(covers(sorted.take(r as int), x));
                        assert(covers(prev, x));
                        let k = choose|k: int| 0 <= k < prev.len() && (#[trigger] prev[k]).0 <= x <= prev[k].1;
                        if k != w {
                            assert(out@[k] == prev[k]);
                        } else {
                            assert(out@[w as int].0 <= x <= out@[w as int].1);
                        }
                    } else {
                        assert(out@[w as int].0 <= x <= out@[w as int].1);
                    }
                }
            }
        } else {
            out.push((st, en));
            assert(out@ == prev.push((st, en)));
            assert forall|x: int| covers(out@, x) <==> covers(sorted.take(r + 1), x) by {
                if covers(out@, x) {
                    let k = choose|k: int| 0 <= k < out@.len() && (#[trigger] out@[k]).0 <= x <= out@[k].1;
                    if k < prev.len() {
                        assert(prev[k] == out@[k]);
                        assert(covers(prev, x));
                        let q = choose|q: int| 0 <= q < r && (#[trigger] sorted.take(r as int)[q]).0 <= x <= sorted.take(r as int)[q].1;
                        assert(sorted.take(r + 1)[q] == sorted.take(r as int)[q]);
                    } else {
                        assert(sorted.take(r + 1)[r as int] == (st, en));
                    }
                }
                if covers(sorted.take(r + 1), x) {
                    let q = choose|q: int| 0 <= q < r + 1 && (#[trigger] sorted.take(r + 1)[q]).0 <= x <= sorted.take(r + 1)[q].1;
                    if q < r {
                        assert(sorted.take(r as int)[q] == sorted.take(r + 1)[q]);
                        assert(covers(sorted.take(r as int), x));
                        assert(covers(prev, x));
                        let k = choose|k: int| 0 <= k < prev.len() && (#[trigger] prev[k]).0 <= x <= prev[k].1;
                        assert(out@[k] == prev[k]);
                    } else {
                        assert(out@[prev.len() as int] == (st, en));
                    }
                }
            }
        }
        r += 1;
    }
    assert(sorted.take(n as int) =~= sorted);
    *ranges = out;
}

/// Whether some range of the sorted, disjoint list holds `x` (binary search).
pub fn contains_id(ranges: &Vec<(u64, u64)>, x: u64) -> (r: bool)
    requires
        sorted_disjoint(ranges@),
    ensures
        r == covers(ranges@, x as int),
{
    let mut lo: usize = 0;
    let mut hi: usize = ranges.len();
    while lo < hi
        invariant
            lo <= hi <= ranges.len(),
            sorted_disjoint(ranges@),
            forall|k: int| 0 <= k < lo ==> (#[trigger] ranges@[k]).1 < x,
            forall|k: int| hi <= k < ranges.len() ==> (#[trigger] ranges@[k]).0 > x,
        decreases hi - lo,
    {
        let mid = lo + (hi - lo) / 2;
        let (start, end) = ranges[mid];
        if x < start {
            hi = mid;
        } else if x > end {
            lo = mid + 1;
        } else {
            return true;
        }
    }
    false
}

/// IDs among `numbers` that some range holds, `k < n` only.
pub open spec fn fresh_count(ranges: Seq<(u64, u64)>, numbers: Seq<u64>, n: int) -> nat
    decreases n,
{
    if n <= 0 {
        0
    } else {
        fresh_count(ranges, numbers, n - 1) + if covers(ranges, numbers[n - 1] as int) { 1nat } else { 0nat }
    }
}

/// Number of the IDs that some range holds (ranges sorted and disjoint, as
/// `coalesce_ranges` leaves them).
pub fn part1(ranges: &Vec<(u64, u64)>, numbers: &Vec<u64>) -> (r: usize)
    requires
        sorted_disjoint(ranges@),
    ensures
        r == fresh_count(ranges@, numbers@, numbers.len() as int),
{
    let mut count: usize = 0;
    let mut k: usize = 0;
    while k < numbers.len()
        invariant
            k <= numbers.len(),
            sorted_disjoint(ranges@),
            count == fresh_count(ranges@, numbers@, k as int),
            count <= k,
        decreases numbers.len() - k,
    {
        if contains_id(ranges, numbers[k]) {
            count += 1;
        }
        k += 1;
    }
    count
}

/// IDs held by the first `n` ranges, counted with repetition.
pub open spec fn span_total(rs: Seq<(u64, u64)>, n: int) -> int
    decreases n,
{
    if n <= 0 { 0 } else { span_total(rs, n - 1) + (rs[n - 1].1 - rs[n - 1].0 + 1) }
}

proof fn lemma_span_total_monotone(rs: Seq<(u64, u64)>, a: int, b: int)
    requires
        0 <= a <= b <= rs.len(),
        non_empty(rs),
    ensures
        span_total(rs, a) <= span_total(rs, b),
    decreases b - a,
{
    if a < b {
        lemma_span_total_monotone(rs, a, b - 1);
        assert(rs[b - 1].0 <= rs[b - 1].1);
    }
}

/// Number of IDs the ranges hold (each range counted in full); `None` when
/// that exceeds `u64`. On coalesced ranges this counts each fresh ID once.
pub fn part2(ranges: &Vec<(u64, u64)>) -> (r: Option<u64>)
    requires
        non_empty(ranges@),
    ensures
        r == (if span_total(ranges@, ranges.len() as int) <= u64::MAX {
            Some(span_total(ranges@, ranges.len() as int) as u64)
        } else {
            None::<u64>
        }),
{
    let mut total: u64 = 0;
    let mut k: usize = 0;
    while k < ranges.len()
        invariant
            k <= ranges.len(),
            non_empty(ranges@),
            total == span_total(ranges@, k as int),
        decreases ranges.len() - k,
    {
        let (start, end) = ranges[k];
        assert(ranges@[k as int].0 <= ranges@[k as int].1);
        let width = end - start;
        let step = match width.checked_add(1) {
            Some(s) => s,
            None => {
                proof {
                    lemma_span_total_monotone(ranges@, k as int + 1, ranges.len() as int);
                }
                return None;
            },
        };
        match total.checked_add(step) {
            Some(t) => {
                total = t;
            },
            None => {
                proof {
                    lemma_span_total_monotone(ranges@, k as int + 1, ranges.len() as int);
                }
                return None;
            },
        }
        k += 1;
    }
    Some(total)
}

} // verus!
