//! Junction boxes in space, paired up by straight-line distance.

use vstd::prelude::*;
use vstd::seq_lib::{to_multiset_update, to_multiset_contains};
use crate::machine::popcount;
use vstd::string::StringSliceAdditionalSpecFns;
use crate::parse::line_end;
use crate::ids::{unsigned_value, parse_unsigned};
use crate::echelon::copy_row;

verus! {

/// Squared distance between two points.
pub open spec fn sq_dist(a: (u32, u32, u32), b: (u32, u32, u32)) -> int {
    (a.0 - b.0) * (a.0 - b.0) + (a.1 - b.1) * (a.1 - b.1) + (a.2 - b.2) * (a.2 - b.2)
}

proof fn lemma_square_bound(d: int)
    requires
        -0x1_0000_0000 < d < 0x1_0000_0000,
    ensures
        0 <= d * d < 0x1_0000_0000_0000_0000,
{
    assert(0 <= d * d < 0x1_0000_0000_0000_0000) by (nonlinear_arith)
        requires
            -0x1_0000_0000 < d < 0x1_0000_0000,
    ;
}

/// Squared straight-line distance between two points (exact).
pub fn sq_dst(coord1: (u32, u32, u32), coord2: (u32, u32, u32)) -> (r: u128)
    ensures
        r as int == sq_dist(coord1, coord2),
{
    let dx = coord1.0 as i64 - coord2.0 as i64;
    let dy = coord1.1 as i64 - coord2.1 as i64;
    let dz = coord1.2 as i64 - coord2.2 as i64;
    proof {
        lemma_square_bound(dx as int);
        lemma_square_bound(dy as int);
        lemma_square_bound(dz as int);
    }
    let sx = (dx as i128) * (dx as i128);
    let sy = (dy as i128) * (dy as i128);
    let sz = (dz as i128) * (dz as i128);
    (sx + sy + sz) as u128
}

/// Distances in non-decreasing order.
pub open spec fn sorted_by_distance(ps: Seq<(usize, usize, u128)>) -> bool {
    forall|a: int, b: int| 0 <= a < b < ps.len() ==> ps[a].2 <= ps[b].2
}

/// Sorts by distance (insertion sort).
fn sort_by_distance(v: &mut Vec<(usize, usize, u128)>)
    ensures
        final(v)@.to_multiset() == old(v)@.to_multiset(),
        final(v).len() == old(v).len(),
        sorted_by_distance(final(v)@),
{
    let n = v.len();
    let mut i: usize = 1;
    while i < n
        invariant
            n == v.len(),
            1 <= i || n == 0,
            v@.to_multiset() == old(v)@.to_multiset(),
            forall|a: int, b: int| 0 <= a < b < i && b < n ==> v@[a].2 <= v@[b].2,
        decreases n - i,
    {
        let mut j: usize = i;
        while j > 0 && v[j - 1].2 > v[j].2
            invariant
                n == v.len(),
                0 <= j <= i < n,
                v@.to_multiset() == old(v)@.to_multiset(),
                forall|a: int, b: int| 0 <= a < b <= i && b != j ==> v@[a].2 <= v@[b].2,
                forall|a: int| j < a <= i ==> v@[j as int].2 <= v@[a].2,
            decreases j,
        {
            let a = v[j - 1];
            let b = v[j];
            let ghost before = v@;
            v[j - 1] = b;
            proof {
                to_multiset_update(before, j - 1, b);
            }
            let ghost mid = v@;
            v[j] = a;
            proof {
                broadcast use vstd::multiset::group_multiset_axioms;
                assert(mid == before.update(j - 1, b));
                assert(v@ == mid.update(j as int, a));
                assert(mid[j as int] == b);
                to_multiset_update(mid, j as int, a);
                assert(before.contains(a));
                to_multiset_contains(before, a);
                assert(v@.to_multiset() =~= before.to_multiset());
            }
            j -= 1;
        }
        i += 1;
    }
}

/// Every pair `(i, j, d)` with `i < j`, `d` the squared distance between
/// points `i` and `j`, ordered by distance.
pub fn compute_all_pairs(coords: &Vec<(u32, u32, u32)>) -> (r: Vec<(usize, usize, u128)>)
    ensures
        sorted_by_distance(r@),
        forall|k: int| 0 <= k < r.len() ==> #[trigger] r@[k].0 < r@[k].1 < coords.len()
            && r@[k].2 == sq_dist(coords@[r@[k].0 as int], coords@[r@[k].1 as int]),
        forall|i: usize, j: usize| i < j < coords.len() ==> r@.contains((i, j, sq_dist(coords@[i as int], coords@[j as int]) as u128)),
        r@.no_duplicates(),
        2 * r.len() == coords.len() * (coords.len() - 1),
{
    let n = coords.len();
    let mut pairs: Vec<(usize, usize, u128)> = Vec::new();
    let mut i: usize = 0;
    while i < n
        invariant
            i <= n == coords.len(),
            forall|k: int| 0 <= k < pairs.len() ==> #[trigger] pairs@[k].0 < pairs@[k].1 < n
                && pairs@[k].2 == sq_dist(coords@[pairs@[k].0 as int], coords@[pairs@[k].1 as int]),
            forall|a: usize, b: usize| a < i && a < b < n ==> pairs@.contains((a, b, sq_dist(coords@[a as int], coords@[b as int]) as u128)),
            forall|k: int| 0 <= k < pairs.len() ==> (#[trigger] pairs@[k]).0 < i,
            forall|a: int, b: int| 0 <= a < b < pairs.len() ==> pairs@[a].0 < pairs@[b].0
                || (pairs@[a].0 == pairs@[b].0 && pairs@[a].1 < pairs@[b].1),
            2 * pairs.len() == 2 * i * n - i * (i + 1),
        decreases n - i,
    {
        let mut j: usize = i + 1;
        while j < n
            invariant
                i < n == coords.len(),
                i + 1 <= j <= n,
                forall|k: int| 0 <= k < pairs.len() ==> #[trigger] pairs@[k].0 < pairs@[k].1 < n
                    && pairs@[k].2 == sq_dist(coords@[pairs@[k].0 as int], coords@[pairs@[k].1 as int]),
                forall|a: usize, b: usize| a < i && a < b < n ==> pairs@.contains((a, b, sq_dist(coords@[a as int], coords@[b as int]) as u128)),
                forall|b: usize| i < b < j ==> pairs@.contains((i, b, sq_dist(coords@[i as int], coords@[b as int]) as u128)),
                forall|k: int| 0 <= k < pairs.len() ==> (#[trigger] pairs@[k]).0 < i || (pairs@[k].0 == i && pairs@[k].1 < j),
                forall|a: int, b: int| 0 <= a < b < pairs.len() ==> pairs@[a].0 < pairs@[b].0
                    || (pairs@[a].0 == pairs@[b].0 && pairs@[a].1 < pairs@[b].1),
                2 * pairs.len() == 2 * i * n - i * (i + 1) + 2 * (j - i - 1),
            decreases n - j,
        {
            let d = sq_dst(coords[i], coords[j]);
            let ghost before = pairs@;
            pairs.push((i, j, d));
            assert(pairs@[pairs.len() - 1] == (i, j, d));
            assert forall|a: usize, b: usize| a < i && a < b < n implies pairs@.contains((a, b, sq_dist(coords@[a as int], coords@[b as int]) as u128)) by {
                let e = (a, b, sq_dist(coords@[a as int], coords@[b as int]) as u128);
                assert(before.contains(e));
                let k = choose|k: int| 0 <= k < before.len() && before[k] == e;
                assert(pairs@[k] == e);
            }
            assert forall|b: usize| i < b < j + 1 implies pairs@.contains((i, b, sq_dist(coords@[i as int], coords@[b as int]) as u128)) by {
                let e = (i, b, sq_dist(coords@[i as int], coords@[b as int]) as u128);
                if b < j {
                    assert(before.contains(e));
                    let k = choose|k: int| 0 <= k < before.len() && before[k] == e;
                    assert(pairs@[k] == e);
                } else {
                    assert(pairs@[pairs.len() - 1] == e);
                }
            }
            j += 1;
        }
        assert(2 * i * n - i * (i + 1) + 2 * (n - i - 1) == 2 * (i + 1) * n - (i + 1) * (i + 2)) by (nonlinear_arith);
        i += 1;
    }
    assert(2 * n * n - n * (n + 1) == n * (n - 1)) by (nonlinear_arith);
    proof {
        assert(pairs@.no_duplicates());
        pairs@.lemma_multiset_has_no_duplicates();
    }
    let ghost unsorted = pairs@;
    sort_by_distance(&mut pairs);
    proof {
        assert forall|k: int| 0 <= k < pairs.len() implies #[trigger] pairs@[k].0 < pairs@[k].1 < n
            && pairs@[k].2 == sq_dist(coords@[pairs@[k].0 as int], coords@[pairs@[k].1 as int]) by {
            to_multiset_contains(pairs@, pairs@[k]);
            to_multiset_contains(unsorted, pairs@[k]);
            assert(pairs@.contains(pairs@[k]));
            let q = choose|q: int| 0 <= q < unsorted.len() && unsorted[q] == pairs@[k];
        }
        assert forall|x: (usize, usize, u128)| pairs@.to_multiset().contains(x) implies pairs@.to_multiset().count(x) == 1 by {}
        pairs@.lemma_multiset_has_no_duplicates_conv();
        assert forall|a: usize, b: usize| a < b < n implies pairs@.contains((a, b, sq_dist(coords@[a as int], coords@[b as int]) as u128)) by {
            let e = (a, b, sq_dist(coords@[a as int], coords@[b as int]) as u128);
            to_multiset_contains(pairs@, e);
            to_multiset_contains(unsorted, e);
        }
    }
    pairs
}

/// Sum of the sizes.
pub open spec fn size_total(s: Seq<usize>) -> int
    decreases s.len(),
{
    if s.len() == 0 { 0 } else { size_total(s.drop_last()) + s.last() }
}

/// Every neighbour index names a node of the graph.
pub open spec fn closed(graph: Seq<Vec<usize>>) -> bool {
    forall|v: int, k: int| 0 <= v < graph.len() && 0 <= k < graph[v]@.len() ==> #[trigger] graph[v]@[k] < graph.len()
}

proof fn lemma_popcount_set(x: Seq<bool>, i: int)
    requires
        0 <= i < x.len(),
        !x[i],
    ensures
        popcount(x.update(i, true)) == popcount(x) + 1,
    decreases x.len(),
{
    if i < x.len() - 1 {
        lemma_popcount_set(x.drop_last(), i);
        assert(x.update(i, true).drop_last() == x.drop_last().update(i, true));
    } else {
        assert(x.update(i, true).drop_last() == x.drop_last());
    }
}

proof fn lemma_popcount_zero(x: Seq<bool>)
    requires
        forall|j: int| 0 <= j < x.len() ==> !x[j],
    ensures
        popcount(x) == 0,
    decreases x.len(),
{
    if x.len() > 0 {
        lemma_popcount_zero(x.drop_last());
    }
}

proof fn lemma_popcount_all(x: Seq<bool>)
    requires
        forall|j: int| 0 <= j < x.len() ==> x[j],
    ensures
        popcount(x) == x.len(),
    decreases x.len(),
{
    if x.len() > 0 {
        lemma_popcount_all(x.drop_last());
    }
}

proof fn lemma_popcount_bound(x: Seq<bool>)
    ensures
        popcount(x) <= x.len(),
    decreases x.len(),
{
    if x.len() > 0 {
        lemma_popcount_bound(x.drop_last());
    }
}

/// Sizes of the connected components, found by depth-first search from each
/// node not yet reached. Every node is counted in exactly one component.
pub fn find_components(graph: &Vec<Vec<usize>>) -> (sizes: Vec<usize>)
    requires
        closed(graph@),
    ensures
        size_total(sizes@) == graph.len(),
        forall|k: int| 0 <= k < sizes.len() ==> #[trigger] sizes@[k] >= 1,
{
    let n = graph.len();
    let mut visited: Vec<bool> = Vec::new();
    let mut k: usize = 0;
    while k < n
        invariant
            k <= n,
            visited@ == Seq::new(k as nat, |j: int| false),
        decreases n - k,
    {
        visited.push(false);
        k += 1;
        assert(visited@ == Seq::new(k as nat, |j: int| false));
    }
    proof {
        assert(popcount(visited@) == 0) by {
            lemma_popcount_zero(visited@);
        }
    }
    let mut component_sizes: Vec<usize> = Vec::new();
    let mut stack: Vec<usize> = Vec::new();
    let mut start: usize = 0;
    while start < n
        invariant
            start <= n == graph.len(),
            closed(graph@),
            visited.len() == n,
            stack.len() == 0,
            popcount(visited@) == size_total(component_sizes@),
            size_total(component_sizes@) >= 0,
            forall|j: int| 0 <= j < start ==> visited@[j],
            forall|q: int| 0 <= q < component_sizes.len() ==> #[trigger] component_sizes@[q] >= 1,
        decreases n - start,
    {
        if !visited[start] {
            let mut size: usize = 0;
            proof {
                lemma_popcount_set(visited@, start as int);
            }
            stack.push(start);
            visited[start] = true;
            while stack.len() > 0
                invariant
                    n == graph.len(),
                    closed(graph@),
                    visited.len() == n,
                    start < n,
                    visited@[start as int],
                    forall|j: int| 0 <= j < start ==> visited@[j],
                    forall|q: int| 0 <= q < stack.len() ==> #[trigger] stack@[q] < n,
                    popcount(visited@) == size_total(component_sizes@) + size + stack.len(),
                    size_total(component_sizes@) >= 0,
                    size + stack.len() >= 1,
                decreases 2 * (n - popcount(visited@)) + stack.len(),
            {
                let node = stack.pop().unwrap();
                proof {
                    lemma_popcount_bound(visited@);
                }
                let ghost measure = 2 * (n - popcount(visited@)) + stack.len();
                size += 1;
                let mut k: usize = 0;
                while k < graph[node].len()
                    invariant
                        n == graph.len(),
                        closed(graph@),
                        node < n,
                        visited.len() == n,
                        visited@[start as int],
                        forall|j: int| 0 <= j < start ==> visited@[j],
                        forall|q: int| 0 <= q < stack.len() ==> #[trigger] stack@[q] < n,
                        popcount(visited@) == size_total(component_sizes@) + size + stack.len(),
                        size_total(component_sizes@) >= 0,
                        size >= 1,
                        2 * (n - popcount(visited@)) + stack.len() <= measure,
                        popcount(visited@) <= n,
                    decreases graph[node as int]@.len() - k,
                {
                    let nb = graph[node][k];
                    if !visited[nb] {
                        proof {
                            lemma_popcount_set(visited@, nb as int);
                            lemma_popcount_bound(visited@.update(nb as int, true));
                        }
                        visited[nb] = true;
                        stack.push(nb);
                    }
                    k += 1;
                }
            }
            proof {
                assert(component_sizes@.push(size).drop_last() == component_sizes@);
            }
            component_sizes.push(size);
        }
        start += 1;
    }
    proof {
        lemma_popcount_all(visited@);
    }
    component_sizes
}

/// Node `v` can be reached from node 0 in at most `k` steps.
pub open spec fn reach(graph: Seq<Vec<usize>>, v: int, k: nat) -> bool
    decreases k,
{
    if k == 0 {
        v == 0
    } else {
        reach(graph, v, (k - 1) as nat) || exists|u: int, t: int|
            #![trigger graph[u]@[t]]
            0 <= u < graph.len() && 0 <= t < graph[u]@.len() && graph[u]@[t] == v && reach(graph, u, (k - 1) as nat)
    }
}

/// Node `v` can be reached from node 0.
pub open spec fn reachable(graph: Seq<Vec<usize>>, v: int) -> bool {
    exists|k: nat| #[trigger] reach(graph, v, k)
}

/// Every node can be reached from node 0 (an empty graph is connected).
pub open spec fn connected(graph: Seq<Vec<usize>>) -> bool {
    forall|v: int| 0 <= v < graph.len() ==> #[trigger] reachable(graph, v)
}

/// A visited node is still on the stack, or all its neighbours are visited.
pub open spec fn expanded(graph: Seq<Vec<usize>>, visited: Seq<bool>, stack: Seq<usize>, skip: int) -> bool {
    forall|u: int| 0 <= u < graph.len() && #[trigger] visited[u] && u != skip && !stack.contains(u as usize)
        ==> forall|t: int| 0 <= t < graph[u]@.len() ==> visited[graph[u]@[t] as int]
}

proof fn lemma_reach_visited(graph: Seq<Vec<usize>>, visited: Seq<bool>, v: int, k: nat)
    requires
        closed(graph),
        visited.len() == graph.len(),
        graph.len() > 0,
        visited[0],
        expanded(graph, visited, Seq::empty(), -1),
        0 <= v < graph.len(),
        reach(graph, v, k),
    ensures
        visited[v],
    decreases k,
{
    if k > 0 {
        if reach(graph, v, (k - 1) as nat) {
            lemma_reach_visited(graph, visited, v, (k - 1) as nat);
        } else {
            let k1 = (k - 1) as nat;
            let (u, t) = choose|u: int, t: int|
                #![trigger graph[u]@[t]]
                0 <= u < graph.len() && 0 <= t < graph[u]@.len() && graph[u]@[t] == v && reach(graph, u, (k - 1) as nat);
            lemma_reach_visited(graph, visited, u, k1);
            assert(!Seq::<usize>::empty().contains(u as usize));
            assert(visited[graph[u]@[t] as int]);
        }
    }
}

/// Whether every node can be reached from node 0, by depth-first search;
/// `visited` and `stack` are scratch space (`visited` is cut to one flag per
/// node).
pub fn is_connected(graph: &Vec<Vec<usize>>, visited: &mut Vec<bool>, stack: &mut Vec<usize>) -> (r: bool)
    requires
        closed(graph@),
        old(visited).len() >= graph.len(),
    ensures
        r == connected(graph@),
        final(visited).len() == graph.len(),
{
    let n = graph.len();
    visited.truncate(n);
    if n == 0 {
        return true;
    }
    let mut i: usize = 0;
    while i < n
        invariant
            i <= n == visited.len(),
            forall|j: int| 0 <= j < i ==> !visited@[j],
        decreases n - i,
    {
        visited[i] = false;
        i += 1;
    }
    proof {
        lemma_popcount_zero(visited@);
    }
    stack.clear();
    stack.push(0);
    proof {
        lemma_popcount_set(visited@, 0);
    }
    let ghost cleared = visited@;
    visited[0] = true;
    proof {
        assert(stack@[0] == 0usize);
        assert forall|u: int| 0 <= u < n && #[trigger] visited@[u] && u != -1 && !stack@.contains(u as usize)
            implies forall|t: int| 0 <= t < graph@[u]@.len() ==> visited@[graph@[u]@[t] as int] by {
            if u != 0 {
                assert(!cleared[u]);
            }
        }
    }
    proof {
        assert(reach(graph@, 0, 0));
        assert(reachable(graph@, 0));
    }
    let mut count: usize = 1;
    while stack.len() > 0
        invariant
            n == graph.len() == visited.len(),
            n > 0,
            closed(graph@),
            visited@[0],
            count == popcount(visited@),
            count <= n,
            forall|q: int| 0 <= q < stack.len() ==> #[trigger] stack@[q] < n,
            forall|q: int| 0 <= q < stack.len() ==> visited@[#[trigger] stack@[q] as int],
            forall|v: int| 0 <= v < n && #[trigger] visited@[v] ==> reachable(graph@, v),
            expanded(graph@, visited@, stack@, -1),
        decreases 2 * (n - popcount(visited@)) + stack.len(),
    {
        let ghost before = stack@;
        let node = stack.pop().unwrap();
        assert(before == stack@.push(node));
        if count == n {
            proof {
                lemma_popcount_full(visited@);
                assert forall|v: int| 0 <= v < n implies #[trigger] reachable(graph@, v) by {
                    assert(visited@[v]);
                }
            }
            return true;
        }
        let ghost measure = 2 * (n - popcount(visited@)) + stack.len();
        proof {
            assert forall|u: int| 0 <= u < n && #[trigger] visited@[u] && u != node && !stack@.contains(u as usize)
                implies forall|t: int| 0 <= t < graph@[u]@.len() ==> visited@[graph@[u]@[t] as int] by {
                if before.contains(u as usize) {
                    let q = choose|q: int| 0 <= q < before.len() && before[q] == u as usize;
                    if q < stack.len() {
                        assert(stack@[q] == u as usize);
                    }
                }
            }
        }
        let mut k: usize = 0;
        while k < graph[node].len()
            invariant
                n == graph.len() == visited.len(),
                n > 0,
                closed(graph@),
                node < n,
                visited@[node as int],
                visited@[0],
                count == popcount(visited@),
                count <= n,
                k <= graph@[node as int]@.len(),
                forall|q: int| 0 <= q < stack.len() ==> #[trigger] stack@[q] < n,
                forall|q: int| 0 <= q < stack.len() ==> visited@[#[trigger] stack@[q] as int],
                forall|v: int| 0 <= v < n && #[trigger] visited@[v] ==> reachable(graph@, v),
                expanded(graph@, visited@, stack@, node as int),
                forall|t: int| 0 <= t < k ==> visited@[graph@[node as int]@[t] as int],
                2 * (n - popcount(visited@)) + stack.len() <= measure,
            decreases graph@[node as int]@.len() - k,
        {
            let nb = graph[node][k];
            if !visited[nb] {
                proof {
                    lemma_popcount_set(visited@, nb as int);
                    lemma_popcount_bound(visited@.update(nb as int, true));
                    assert(reachable(graph@, node as int));
                    let j = choose|j: nat| reach(graph@, node as int, j);
                    let j1: nat = j + 1;
                    assert(graph@[node as int]@[k as int] == nb);
                    assert(reach(graph@, node as int, (j1 - 1) as nat));
                    assert(reach(graph@, nb as int, j1));
                    assert(reachable(graph@, nb as int));
                }
                let ghost old_visited = visited@;
                let ghost old_stack = stack@;
                visited[nb] = true;
                stack.push(nb);
                count += 1;
                proof {
                    assert forall|v: int| 0 <= v < n && #[trigger] visited@[v] implies reachable(graph@, v) by {
                        if v != nb as int {
                            assert(old_visited[v]);
                        }
                    }
                    assert forall|u: int| 0 <= u < n && #[trigger] visited@[u] && u != node as int && !stack@.contains(u as usize)
                        implies forall|t: int| 0 <= t < graph@[u]@.len() ==> visited@[graph@[u]@[t] as int] by {
                        assert(u != nb as int) by {
                            assert(stack@[stack.len() - 1] == nb);
                        }
                        assert(old_visited[u]);
                        if old_stack.contains(u as usize) {
                            let q = choose|q: int| 0 <= q < old_stack.len() && old_stack[q] == u as usize;
                            assert(stack@[q] == u as usize);
                        }
                    }
                }
            }
            k += 1;
        }
        proof {
            assert forall|u: int| 0 <= u < n && #[trigger] visited@[u] && u != -1 && !stack@.contains(u as usize)
                implies forall|t: int| 0 <= t < graph@[u]@.len() ==> visited@[graph@[u]@[t] as int] by {
                if u != node as int {
                    assert(expanded(graph@, visited@, stack@, node as int));
                }
            }
        }
    }
    proof {
        if count == n {
            lemma_popcount_full(visited@);
            assert forall|v: int| 0 <= v < n implies #[trigger] reachable(graph@, v) by {
                assert(visited@[v]);
            }
        }
        if connected(graph@) {
            assert forall|v: int| 0 <= v < n implies visited@[v] by {
                assert(reachable(graph@, v));
                let k = choose|k: nat| reach(graph@, v, k);
                assert(stack@ == Seq::<usize>::empty());
                lemma_reach_visited(graph@, visited@, v, k);
            }
            lemma_popcount_full(visited@);
        }
    }
    count == n
}

proof fn lemma_popcount_full(x: Seq<bool>)
    ensures
        popcount(x) == x.len() <==> forall|j: int| 0 <= j < x.len() ==> x[j],
    decreases x.len(),
{
    if x.len() > 0 {
        lemma_popcount_full(x.drop_last());
        lemma_popcount_bound(x.drop_last());
        if popcount(x) == x.len() {
            assert forall|j: int| 0 <= j < x.len() implies x[j] by {
                if j < x.len() - 1 {
                    assert(x.drop_last()[j] == x[j]);
                }
            }
        }
        if forall|j: int| 0 <= j < x.len() ==> x[j] {
            assert forall|j: int| 0 <= j < x.drop_last().len() implies x.drop_last()[j] by {
                assert(x[j]);
            }
        }
    }
}

/// First position in `pos..end` holding a comma, or `end`.
pub open spec fn next_comma(b: Seq<u8>, pos: int, end: int) -> int
    decreases end - pos,
{
    if pos < end && b[pos] != 44u8 { next_comma(b, pos + 1, end) } else { pos }
}

/// The coordinate that `s` spells: a `u32` in the form Rust's parser accepts.
pub open spec fn coordinate(s: Seq<u8>) -> Option<u32> {
    match unsigned_value(s) {
        Some(v) => if v <= u32::MAX { Some(v as u32) } else { None },
        None => None,
    }
}

/// The point that the line `b[start..stop]` gives: its first three
/// comma-separated fields as coordinates (later fields are ignored).
pub open spec fn point_of(b: Seq<u8>, start: int, stop: int) -> Option<(u32, u32, u32)> {
    let c1 = next_comma(b, start, stop);
    let c2 = next_comma(b, c1 + 1, stop);
    let c3 = next_comma(b, c2 + 1, stop);
    if c1 >= stop || c2 >= stop {
        None
    } else {
        match (coordinate(b.subrange(start, c1)), coordinate(b.subrange(c1 + 1, c2)), coordinate(b.subrange(c2 + 1, c3))) {
            (Some(x), Some(y), Some(z)) => Some((x, y, z)),
            _ => None,
        }
    }
}

/// The points of the lines from `start` on; lines that give no point are skipped.
pub open spec fn points_from(b: Seq<u8>, start: int) -> Seq<(u32, u32, u32)>
    decreases b.len() - start,
{
    if start >= b.len() || start < 0 {
        Seq::empty()
    } else {
        let stop = line_end(b, start);
        let rest = if stop < b.len() { stop + 1 } else { b.len() as int };
        let cend = if stop > start && b[stop - 1] == 13u8 { stop - 1 } else { stop };
        if rest <= start {
            Seq::empty()
        } else {
            match point_of(b, start, cend) {
                Some(p) => seq![p] + points_from(b, rest),
                None => points_from(b, rest),
            }
        }
    }
}

fn comma_from(b: &[u8], pos: usize, end: usize) -> (r: usize)
    requires
        pos <= end <= b@.len(),
    ensures
        r == next_comma(b@, pos as int, end as int),
        pos <= r <= end,
{
    let mut c = pos;
    while c < end && b[c] != 44
        invariant
            pos <= c <= end <= b@.len(),
            next_comma(b@, pos as int, end as int) == next_comma(b@, c as int, end as int),
        decreases end - c,
    {
        c += 1;
    }
    c
}

fn coordinate_exec(b: &[u8], lo: usize, hi: usize) -> (r: Option<u32>)
    requires
        lo <= hi <= b@.len(),
    ensures
        r == coordinate(b@.subrange(lo as int, hi as int)),
{
    match parse_unsigned(b, lo, hi) {
        Some(v) => if v <= u32::MAX as u64 { Some(v as u32) } else { None },
        None => None,
    }
}

/// Reads one point per line as `x,y,z`; lines that do not give one are skipped.
pub fn parse_input(input: &str) -> (r: Vec<(u32, u32, u32)>)
    ensures
        r@ == points_from(input.spec_bytes(), 0),
{
    let b = input.as_bytes();
    let n = b.len();
    let mut points: Vec<(u32, u32, u32)> = Vec::new();
    let mut start: usize = 0;
    while start < n
        invariant
            start <= n == b@.len(),
            b@ == input.spec_bytes(),
            points_from(b@, 0) == points@ + points_from(b@, start as int),
        decreases n - start,
    {
        let mut stop = start;
        while stop < n && b[stop] != 10
            invariant
                start <= stop <= n == b@.len(),
                line_end(b@, start as int) == line_end(b@, stop as int),
            decreases n - stop,
        {
            stop += 1;
        }
        let cend = if stop > start && b[stop - 1] == 13 { stop - 1 } else { stop };
        let c1 = comma_from(b, start, cend);
        let mut point: Option<(u32, u32, u32)> = None;
        if c1 < cend {
            let c2 = comma_from(b, c1 + 1, cend);
            if c2 < cend {
                let c3 = comma_from(b, c2 + 1, cend);
                match (coordinate_exec(b, start, c1), coordinate_exec(b, c1 + 1, c2), coordinate_exec(b, c2 + 1, c3)) {
                    (Some(x), Some(y), Some(z)) => {
                        point = Some((x, y, z));
                    },
                    _ => {},
                }
            }
        }
        assert(point == point_of(b@, start as int, cend as int));
        let next = if stop < n { stop + 1 } else { n };
        if let Some(p) = point {
            let ghost before = points@;
            points.push(p);
            assert(before + (seq![p] + points_from(b@, next as int)) =~= points@ + points_from(b@, next as int));
        }
        start = next;
    }
    assert(points@ + Seq::<(u32, u32, u32)>::empty() =~= points@);
    points
}

/// The neighbour lists of a graph, as sequences.
pub open spec fn views(g: Seq<Vec<usize>>) -> Seq<Seq<usize>> {
    Seq::new(g.len(), |i: int| g[i]@)
}

/// The graph on `n` nodes with an edge both ways for each of the first `k` pairs.
pub open spec fn adjacency(pairs: Seq<(usize, usize, u128)>, k: int, n: nat) -> Seq<Seq<usize>>
    decreases k,
{
    if k <= 0 {
        Seq::new(n, |i: int| Seq::<usize>::empty())
    } else {
        let a = adjacency(pairs, k - 1, n);
        let (i, j) = (pairs[k - 1].0 as int, pairs[k - 1].1 as int);
        let a1 = a.update(i, a[i].push(j as usize));
        a1.update(j, a1[j].push(i as usize))
    }
}

/// Index of the first pair, from `k` on, after whose edge the graph is connected.
pub open spec fn first_connecting(pairs: Seq<(usize, usize, u128)>, n: nat, k: int) -> Option<int>
    decreases pairs.len() - k,
{
    if k >= pairs.len() || k < 0 {
        None
    } else if connected_views(adjacency(pairs, k + 1, n)) {
        Some(k)
    } else {
        first_connecting(pairs, n, k + 1)
    }
}

proof fn lemma_adjacency_len(pairs: Seq<(usize, usize, u128)>, k: int, n: nat)
    requires
        0 <= k <= pairs.len(),
        forall|q: int| 0 <= q < pairs.len() ==> (#[trigger] pairs[q]).0 < n && pairs[q].1 < n,
    ensures
        adjacency(pairs, k, n).len() == n,
        forall|v: int, t: int| 0 <= v < n && 0 <= t < adjacency(pairs, k, n)[v].len() ==> #[trigger] adjacency(pairs, k, n)[v][t] < n,
    decreases k,
{
    if k > 0 {
        lemma_adjacency_len(pairs, k - 1, n);
    }
}

/// Adds the pairs' edges in order and stops at the first that connects the
/// graph: the product of the `x` coordinates of its two points, or 0 when no
/// prefix of the pairs connects all `n` points.
pub fn part2(pairs: &Vec<(usize, usize, u128)>, coords: &Vec<(u32, u32, u32)>, n: usize) -> (r: u64)
    requires
        n <= coords.len(),
        forall|q: int| 0 <= q < pairs.len() ==> (#[trigger] pairs@[q]).0 < n && pairs@[q].1 < n,
    ensures
        r == match first_connecting(pairs@, n as nat, 0) {
            Some(k) => (coords@[pairs@[k].0 as int].0 as int * coords@[pairs@[k].1 as int].0 as int) as u64,
            None => 0u64,
        },
{
    let mut graph: Vec<Vec<usize>> = Vec::new();
    let mut v: usize = 0;
    while v < n
        invariant
            v <= n,
            graph.len() == v,
            views(graph@) == Seq::new(v as nat, |i: int| Seq::<usize>::empty()),
        decreases n - v,
    {
        let e: Vec<usize> = Vec::new();
        assert(e@ == Seq::<usize>::empty());
        let ghost before = graph@;
        graph.push(e);
        v += 1;
        assert(views(graph@) =~= Seq::new(v as nat, |i: int| Seq::<usize>::empty())) by {
            assert forall|q: int| 0 <= q < v implies #[trigger] views(graph@)[q] == Seq::<usize>::empty() by {
                if q < v - 1 {
                    assert(graph@[q] == before[q]);
                    assert(views(before)[q] == Seq::<usize>::empty());
                }
            }
        }
    }
    let mut visited: Vec<bool> = Vec::new();
    let mut v: usize = 0;
    while v < n
        invariant
            v <= n,
            visited.len() == v,
        decreases n - v,
    {
        visited.push(false);
        v += 1;
    }
    let mut stack: Vec<usize> = Vec::new();
    let mut k: usize = 0;
    while k < pairs.len()
        invariant
            k <= pairs.len(),
            n <= coords.len(),
            graph.len() == n,
            visited.len() == n,
            forall|q: int| 0 <= q < pairs.len() ==> (#[trigger] pairs@[q]).0 < n && pairs@[q].1 < n,
            views(graph@) == adjacency(pairs@, k as int, n as nat),
            first_connecting(pairs@, n as nat, 0) == first_connecting(pairs@, n as nat, k as int),
        decreases pairs.len() - k,
    {
        let (i, j, _) = pairs[k];
        proof {
            lemma_adjacency_len(pairs@, k as int, n as nat);
        }
        let ghost a = views(graph@);
        let mut row = copy_row(&graph[i]);
        row.push(j);
        graph[i] = row;
        let ghost a1 = views(graph@);
        assert(a1 =~= a.update(i as int, a[i as int].push(j)));
        let mut row = copy_row(&graph[j]);
        row.push(i);
        graph[j] = row;
        proof {
            assert(views(graph@) =~= a1.update(j as int, a1[j as int].push(i)));
            assert(views(graph@) == adjacency(pairs@, k + 1, n as nat));
            lemma_adjacency_len(pairs@, k + 1, n as nat);
            assert(closed(graph@)) by {
                assert forall|u: int, t: int| 0 <= u < graph.len() && 0 <= t < graph@[u]@.len() implies #[trigger] graph@[u]@[t] < graph.len() by {
                    assert(graph@[u]@ == views(graph@)[u]);
                }
            }
        }
        if is_connected(&graph, &mut visited, &mut stack) {
            proof {
                lemma_connected_views(graph@);
                assert(connected_views(adjacency(pairs@, k + 1, n as nat)));
                assert(first_connecting(pairs@, n as nat, k as int) == Some(k as int));
            }
            let x1 = coords[i].0 as u64;
            let x2 = coords[j].0 as u64;
            proof {
                assert(x1 * x2 <= 0xffff_ffff * 0xffff_ffffu64) by (nonlinear_arith)
                    requires
                        x1 <= 0xffff_ffff,
                        x2 <= 0xffff_ffff,
                ;
            }
            return x1 * x2;
        }
        proof {
            lemma_connected_views(graph@);
            assert(!connected_views(adjacency(pairs@, k + 1, n as nat)));
        }
        k += 1;
    }
    0
}

/// `reach`, over neighbour sequences.
pub open spec fn reach_views(g: Seq<Seq<usize>>, v: int, k: nat) -> bool
    decreases k,
{
    if k == 0 {
        v == 0
    } else {
        reach_views(g, v, (k - 1) as nat) || exists|u: int, t: int|
            #![trigger g[u][t]]
            0 <= u < g.len() && 0 <= t < g[u].len() && g[u][t] == v && reach_views(g, u, (k - 1) as nat)
    }
}

/// `reachable`, over neighbour sequences.
pub open spec fn reachable_views(g: Seq<Seq<usize>>, v: int) -> bool {
    exists|k: nat| #[trigger] reach_views(g, v, k)
}

/// `connected`, over neighbour sequences.
pub open spec fn connected_views(g: Seq<Seq<usize>>) -> bool {
    forall|v: int| 0 <= v < g.len() ==> #[trigger] reachable_views(g, v)
}

proof fn lemma_reach_views(g: Seq<Vec<usize>>, v: int, k: nat)
    ensures
        reach(g, v, k) == reach_views(views(g), v, k),
    decreases k,
{
    if k > 0 {
        lemma_reach_views(g, v, (k - 1) as nat);
        let gv = views(g);
        if reach(g, v, k) && !reach(g, v, (k - 1) as nat) {
            let (u, t) = choose|u: int, t: int|
                #![trigger g[u]@[t]]
                0 <= u < g.len() && 0 <= t < g[u]@.len() && g[u]@[t] == v && reach(g, u, (k - 1) as nat);
            lemma_reach_views(g, u, (k - 1) as nat);
            assert(gv[u][t] == v);
        }
        if reach_views(gv, v, k) && !reach_views(gv, v, (k - 1) as nat) {
            let (u, t) = choose|u: int, t: int|
                #![trigger gv[u][t]]
                0 <= u < gv.len() && 0 <= t < gv[u].len() && gv[u][t] == v && reach_views(gv, u, (k - 1) as nat);
            lemma_reach_views(g, u, (k - 1) as nat);
            assert(g[u]@[t] == v);
        }
    }
}

proof fn lemma_connected_views(g: Seq<Vec<usize>>)
    ensures
        connected(g) == connected_views(views(g)),
{
    if connected(g) {
        assert forall|v: int| 0 <= v < views(g).len() implies #[trigger] reachable_views(views(g), v) by {
            assert(reachable(g, v));
            let k = choose|k: nat| reach(g, v, k);
            lemma_reach_views(g, v, k);
        }
    }
    if connected_views(views(g)) {
        assert forall|v: int| 0 <= v < g.len() implies #[trigger] reachable(g, v) by {
            assert(reachable_views(views(g), v));
            let k = choose|k: nat| reach_views(views(g), v, k);
            lemma_reach_views(g, v, k);
        }
    }
}

} // verus!
