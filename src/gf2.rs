//! Fewest presses for the indicator lights: elimination over GF(2), then a
//! bounded search over the free buttons.

use vstd::prelude::*;
use crate::machine::{Machine, touches, light_after, solves_lights, popcount, count_pressed, lights_match, button_touches};
use crate::echelon::{Echelon, copy_row, free_columns};

verus! {

/// Largest number of free buttons whose assignments are all tried; beyond it
/// only the assignment with every free button unpressed is used.
pub const MAX_SEARCHED_FREE: usize = 15;

/// XOR of `row[c] && s[c]` over the columns `lo <= c < hi`.
pub open spec fn row_xor(row: Seq<bool>, s: Seq<bool>, lo: int, hi: int) -> bool
    decreases hi - lo,
{
    if hi <= lo {
        false
    } else {
        row_xor(row, s, lo, hi - 1) != (row[hi - 1] && s[hi - 1])
    }
}

/// Row `row` of a toggle system holds for the press pattern `x`.
pub open spec fn row_holds(row: Seq<bool>, x: Seq<bool>, nb: int) -> bool {
    row_xor(row, x, 0, nb) == row[nb]
}

/// Every row of the system holds for `x`.
pub open spec fn system_holds(rows: Seq<Vec<bool>>, x: Seq<bool>, nb: int) -> bool {
    forall|r: int| 0 <= r < rows.len() ==> row_holds(#[trigger] rows[r]@, x, nb)
}

/// The two systems have the same solutions.
pub open spec fn same_solutions(a: Seq<Vec<bool>>, b: Seq<Vec<bool>>, nb: int) -> bool {
    forall|x: Seq<bool>| x.len() == nb ==> (system_holds(a, x, nb) <==> system_holds(b, x, nb))
}

/// Reduced row echelon shape, for the columns below `col`: pivot row `k`
/// holds its pivot, no other row holds a pivot column, the rows after the
/// pivot rows are empty below `col`, and a pivot row is empty before its pivot.
pub open spec fn echelon_shape(rows: Seq<Vec<bool>>, pivots: Seq<usize>, col: int) -> bool {
    &&& forall|k: int| 0 <= k < pivots.len() ==> #[trigger] rows[k]@[pivots[k] as int]
    &&& forall|k: int, r: int| 0 <= k < pivots.len() && 0 <= r < rows.len() && r != k
        ==> !#[trigger] rows[r]@[#[trigger] pivots[k] as int]
    &&& forall|r: int, c: int| pivots.len() <= r < rows.len() && 0 <= c < col ==> !#[trigger] rows[r]@[c]
    &&& forall|k: int, c: int| 0 <= k < pivots.len() && 0 <= c < pivots[k] ==> !#[trigger] rows[k]@[c]
}

/// Entry-wise XOR of two rows.
pub open spec fn xor_rows(a: Seq<bool>, b: Seq<bool>) -> Seq<bool> {
    Seq::new(a.len(), |c: int| a[c] != b[c])
}

proof fn lemma_row_xor_linear(a: Seq<bool>, b: Seq<bool>, x: Seq<bool>, lo: int, hi: int)
    requires
        a.len() == b.len(),
        0 <= lo,
        hi <= a.len(),
    ensures
        row_xor(xor_rows(a, b), x, lo, hi) == (row_xor(a, x, lo, hi) != row_xor(b, x, lo, hi)),
    decreases hi - lo,
{
    if hi > lo {
        lemma_row_xor_linear(a, b, x, lo, hi - 1);
    }
}

/// Adding a row that holds to another keeps whether the latter holds.
proof fn lemma_xor_row_holds(a: Seq<bool>, b: Seq<bool>, x: Seq<bool>, nb: int)
    requires
        a.len() == nb + 1,
        b.len() == nb + 1,
        nb >= 0,
        row_holds(b, x, nb),
    ensures
        row_holds(xor_rows(a, b), x, nb) == row_holds(a, x, nb),
{
    lemma_row_xor_linear(a, b, x, 0, nb);
}

/// XOR over a row that is set at column `k` alone (within `lo..hi`).
proof fn lemma_row_xor_unit(row: Seq<bool>, x: Seq<bool>, k: int, lo: int, hi: int)
    requires
        0 <= lo,
        hi <= row.len(),
        hi <= x.len(),
        forall|c: int| lo <= c < hi ==> row[c] == (c == k),
    ensures
        row_xor(row, x, lo, hi) == (lo <= k < hi && x[k]),
    decreases hi - lo,
{
    if hi > lo {
        lemma_row_xor_unit(row, x, k, lo, hi - 1);
    }
}

/// The rows of the toggle matrix express the lights.
proof fn lemma_toggle_row(row: Seq<bool>, buttons: Seq<Vec<usize>>, x: Seq<bool>, i: int, n: int)
    requires
        0 <= n <= buttons.len(),
        row.len() > n,
        forall|j: int| 0 <= j < buttons.len() ==> row[j] == touches(buttons, j, i),
    ensures
        row_xor(row, x, 0, n) == light_after(buttons, x, i, n),
    decreases n,
{
    if n > 0 {
        lemma_toggle_row(row, buttons, x, i, n - 1);
    }
}

/// `e` is a reduced form of the machine's light system (same solutions,
/// reduced row echelon shape) and `free` lists exactly its free columns.
pub open spec fn reduces(m: Machine, e: Echelon<bool>, free: Seq<usize>) -> bool {
    &&& e.wf()
    &&& e.n_buttons == m.buttons.len()
    &&& forall|x: Seq<bool>| x.len() == e.n_buttons
        ==> (system_holds(e.rows@, x, e.n_buttons as int) <==> solves_lights(m.target@, m.buttons@, x))
    &&& echelon_shape(e.rows@, e.pivot_cols@, e.n_buttons as int)
    &&& forall|c: usize| #[trigger] free.contains(c) <==> (c < e.n_buttons && !e.pivot_cols@.contains(c))
    &&& forall|a: int, b: int| 0 <= a < b < free.len() ==> free[a] < free[b]
}

/// The toggle matrix of a machine has exactly the machine's solutions.
proof fn lemma_toggle_matrix_solutions(m: Seq<Vec<bool>>, target: Seq<bool>, buttons: Seq<Vec<usize>>, x: Seq<bool>)
    requires
        m.len() == target.len(),
        x.len() == buttons.len(),
        forall|i: int| 0 <= i < target.len() ==> #[trigger] m[i]@.len() == buttons.len() + 1,
        forall|i: int, j: int| 0 <= i < target.len() && 0 <= j < buttons.len() ==> m[i]@[j] == touches(buttons, j, i),
        forall|i: int| 0 <= i < target.len() ==> #[trigger] m[i]@[buttons.len() as int] == target[i],
    ensures
        system_holds(m, x, buttons.len() as int) <==> solves_lights(target, buttons, x),
{
    let nb = buttons.len() as int;
    assert forall|i: int| 0 <= i < target.len() implies row_xor(#[trigger] m[i]@, x, 0, nb) == light_after(buttons, x, i, nb) by {
        lemma_toggle_row(m[i]@, buttons, x, i, nb);
    }
    if system_holds(m, x, nb) {
        assert forall|i: int| 0 <= i < target.len() implies light_after(buttons, x, i, nb) == target[i] by {
            assert(row_holds(m[i]@, x, nb));
        }
    }
}

/// With no free column, the pivot columns are `0, 1, ..., nb - 1` in order.
proof fn lemma_identity_pivots(pivots: Seq<usize>, nb: int)
    requires
        forall|k: int| 0 <= k < pivots.len() ==> #[trigger] pivots[k] < nb,
        forall|a: int, b: int| 0 <= a < b < pivots.len() ==> pivots[a] < pivots[b],
        forall|c: usize| c < nb ==> pivots.contains(c),
        0 <= nb <= usize::MAX,
    ensures
        pivots.len() == nb,
        forall|k: int| 0 <= k < nb ==> #[trigger] pivots[k] == k,
    decreases pivots.len(),
{
    assert forall|k: int| 0 <= k < pivots.len() implies #[trigger] pivots[k] == k by {
        lemma_identity_prefix(pivots, nb, k);
    }
    if nb > 0 {
        assert(pivots.contains((nb - 1) as usize));
        let j = choose|j: int| 0 <= j < pivots.len() && pivots[j] == (nb - 1) as usize;
        assert(pivots[j] == j);
        assert(pivots.len() >= nb);
    }
    if pivots.len() > 0 {
        assert(pivots[pivots.len() - 1] == pivots.len() - 1);
    }
}

proof fn lemma_identity_prefix(pivots: Seq<usize>, nb: int, k: int)
    requires
        forall|i: int| 0 <= i < pivots.len() ==> #[trigger] pivots[i] < nb,
        forall|a: int, b: int| 0 <= a < b < pivots.len() ==> pivots[a] < pivots[b],
        forall|c: usize| c < nb ==> pivots.contains(c),
        0 <= k < pivots.len(),
    ensures
        pivots[k] == k,
    decreases k,
{
    if k > 0 {
        lemma_identity_prefix(pivots, nb, k - 1);
    }
    if pivots[k] > k {
        assert(pivots.contains(k as usize));
        let j = choose|j: int| 0 <= j < pivots.len() && pivots[j] == k as usize;
        if j < k {
            lemma_identity_prefix(pivots, nb, j);
        }
    }
}

/// In a reduced system whose pivot columns are `0..nb`, row `k` holds its
/// pivot alone among the button columns.
proof fn lemma_unit_rows(rows: Seq<Vec<bool>>, pivots: Seq<usize>, nb: int, k: int)
    requires
        echelon_shape(rows, pivots, nb),
        pivots.len() == nb,
        pivots.len() <= rows.len(),
        forall|i: int| 0 <= i < nb ==> #[trigger] pivots[i] == i,
        0 <= k < nb,
    ensures
        forall|c: int| 0 <= c < nb ==> rows[k]@[c] == (c == k),
{
    assert forall|c: int| 0 <= c < nb implies rows[k]@[c] == (c == k) by {
        assert(pivots[c] == c);
        if c == k {
            assert(rows[k]@[pivots[k] as int]);
        } else {
            assert(!rows[k]@[pivots[c] as int]);
        }
    }
}

/// Back substitution over pivot columns `0..nb` sets each button to its row's
/// right-hand side.
proof fn lemma_back_sub_identity(rows: Seq<Vec<bool>>, pivots: Seq<usize>, nb: int, s: Seq<bool>, j: int)
    requires
        echelon_shape(rows, pivots, nb),
        pivots.len() == nb,
        pivots.len() <= rows.len(),
        forall|i: int| 0 <= i < nb ==> #[trigger] pivots[i] == i,
        forall|r: int| 0 <= r < rows.len() ==> #[trigger] rows[r]@.len() == nb + 1,
        s.len() == nb,
        0 <= j <= nb,
    ensures
        back_sub(rows, pivots, nb, s, j).len() == nb,
        forall|k: int| 0 <= k < nb ==> #[trigger] back_sub(rows, pivots, nb, s, j)[k] == if k >= j { rows[k]@[nb] } else { s[k] },
    decreases nb - j,
{
    if j < nb {
        lemma_back_sub_identity(rows, pivots, nb, s, j + 1);
        let t = back_sub(rows, pivots, nb, s, j + 1);
        lemma_unit_rows(rows, pivots, nb, j);
        assert(rows[j]@.len() == nb + 1);
        lemma_row_xor_unit(rows[j]@, t, j, j + 1, nb);
    }
}

/// With no free column, a reduced system has at most one solution: the one
/// that back substitution from the all-unpressed pattern gives. So the count
/// that the solver returns in that case is the popcount of the unique solution.
pub proof fn lemma_unique_solution(m: Machine, e: Echelon<bool>, free: Seq<usize>, x: Seq<bool>)
    requires
        reduces(m, e, free),
        free.len() == 0,
        solves_lights(m.target@, m.buttons@, x),
    ensures
        x == candidate(e, Seq::empty(), 0),
{
    let nb = e.n_buttons as int;
    let rows = e.rows@;
    let pivots = e.pivot_cols@;
    assert forall|c: usize| c < nb implies pivots.contains(c) by {
        if !pivots.contains(c) {
            assert(free.contains(c));
        }
    }
    lemma_identity_pivots(pivots, nb);
    assert(system_holds(rows, x, nb));
    let start = seed(nb as nat, Seq::empty(), 0, 0);
    lemma_back_sub_identity(rows, pivots, nb, start, 0);
    let cand = candidate(e, Seq::empty(), 0);
    assert forall|k: int| 0 <= k < nb implies x[k] == cand[k] by {
        lemma_unit_rows(rows, pivots, nb, k);
        assert(row_holds(rows[k]@, x, nb));
        lemma_row_xor_unit(rows[k]@, x, k, 0, nb);
    }
    assert(x =~= cand);
}

/// Back substitution from the last pivot row up to row `k`, starting from the
/// press pattern `s`: each pivot button is set to its row's right-hand side
/// XOR the later buttons that the row still holds.
pub open spec fn back_sub(rows: Seq<Vec<bool>>, pivots: Seq<usize>, nb: int, s: Seq<bool>, k: int) -> Seq<bool>
    decreases pivots.len() - k,
{
    if k < 0 || k >= pivots.len() {
        s
    } else {
        let t = back_sub(rows, pivots, nb, s, k + 1);
        t.update(pivots[k] as int, rows[k]@[nb] != row_xor(rows[k]@, t, pivots[k] + 1, nb))
    }
}

/// Whether bit `i` of `mask` is set.
pub open spec fn mask_bit(mask: u32, i: int) -> bool {
    ((mask >> (i as u32)) & 1u32) == 1u32
}

/// The starting pattern for a mask: the `i`-th free button is pressed iff bit
/// `i` of `mask` is set (for `i < n`); every other button is unpressed.
pub open spec fn seed(nb: nat, free: Seq<usize>, mask: u32, n: int) -> Seq<bool>
    decreases n,
{
    if n <= 0 {
        Seq::new(nb, |j: int| false)
    } else {
        seed(nb, free, mask, n - 1).update(free[n - 1] as int, mask_bit(mask, n - 1))
    }
}

/// The press pattern that a mask over the free buttons determines.
pub open spec fn candidate(e: Echelon<bool>, free: Seq<usize>, mask: u32) -> Seq<bool> {
    back_sub(e.rows@, e.pivot_cols@, e.n_buttons as int, seed(e.n_buttons as nat, free, mask, free.len() as int), 0)
}

proof fn lemma_row_xor_split(row: Seq<bool>, x: Seq<bool>, lo: int, mid: int, hi: int)
    requires
        lo <= mid <= hi,
    ensures
        row_xor(row, x, lo, hi) == (row_xor(row, x, lo, mid) != row_xor(row, x, mid, hi)),
    decreases hi - mid,
{
    if hi > mid {
        lemma_row_xor_split(row, x, lo, mid, hi - 1);
    }
}

proof fn lemma_row_xor_agree(row: Seq<bool>, a: Seq<bool>, b: Seq<bool>, lo: int, hi: int)
    requires
        forall|c: int| lo <= c < hi && #[trigger] row[c] ==> a[c] == b[c],
    ensures
        row_xor(row, a, lo, hi) == row_xor(row, b, lo, hi),
    decreases hi - lo,
{
    if hi > lo {
        lemma_row_xor_agree(row, a, b, lo, hi - 1);
    }
}

/// Back substitution from any pattern that agrees with a solution on the
/// free columns rebuilds that solution, from pivot row `j` on.
proof fn lemma_back_sub_rebuilds(m: Machine, e: Echelon<bool>, free: Seq<usize>, x: Seq<bool>, s: Seq<bool>, j: int)
    requires
        reduces(m, e, free),
        x.len() == e.n_buttons,
        system_holds(e.rows@, x, e.n_buttons as int),
        s.len() == e.n_buttons,
        forall|c: usize| #[trigger] free.contains(c) ==> s[c as int] == x[c as int],
        0 <= j <= e.pivot_cols.len(),
    ensures
        back_sub(e.rows@, e.pivot_cols@, e.n_buttons as int, s, j).len() == e.n_buttons,
        forall|c: int| 0 <= c < e.n_buttons && (free.contains(c as usize)
            || exists|k: int| j <= k < e.pivot_cols.len() && e.pivot_cols@[k] == c)
            ==> #[trigger] back_sub(e.rows@, e.pivot_cols@, e.n_buttons as int, s, j)[c] == x[c],
    decreases e.pivot_cols.len() - j,
{
    let nb = e.n_buttons as int;
    let rows = e.rows@;
    let pivots = e.pivot_cols@;
    if j < pivots.len() {
        lemma_back_sub_rebuilds(m, e, free, x, s, j + 1);
        let t = back_sub(rows, pivots, nb, s, j + 1);
        let p = pivots[j] as int;
        let row = rows[j]@;
        assert(row.len() == nb + 1);
        assert(row_holds(row, x, nb));
        lemma_row_xor_split(row, x, 0, p, nb);
        lemma_row_xor_split(row, x, p, p + 1, nb);
        assert forall|c: int| 0 <= c < p implies row[c] == (c == -1) by {
            assert(!rows[j]@[c]);
        }
        lemma_row_xor_unit(row, x, -1, 0, p);
        assert(row_xor(row, x, p, p + 1) == x[p]) by {
            assert(rows[j]@[pivots[j] as int]);
            assert(row[p]);
            assert(row_xor(row, x, p, p) == false);
        }
        assert forall|c: int| p + 1 <= c < nb && #[trigger] row[c] implies t[c] == x[c] by {
            let cu = c as usize;
            if !free.contains(cu) {
                assert(pivots.contains(cu));
                let k = choose|k: int| 0 <= k < pivots.len() && pivots[k] == cu;
                if k < j {
                    assert(pivots[k] < pivots[j]);
                } else if k == j {
                } else {
                    assert(!rows[j]@[pivots[k] as int]);
                }
            }
        }
        lemma_row_xor_agree(row, t, x, p + 1, nb);
        let r = back_sub(rows, pivots, nb, s, j);
        assert(r == t.update(p, row[nb] != row_xor(row, t, p + 1, nb)));
        assert forall|c: int| 0 <= c < nb && (free.contains(c as usize)
            || exists|k: int| j <= k < pivots.len() && pivots[k] == c) implies #[trigger] r[c] == x[c] by {
            if c != p {
                if !free.contains(c as usize) {
                    let k = choose|k: int| j <= k < pivots.len() && pivots[k] == c;
                    assert(k != j);
                    assert(exists|k2: int| j + 1 <= k2 < pivots.len() && pivots[k2] == c);
                }
            }
        }
    } else {
        assert forall|c: int| 0 <= c < nb && (free.contains(c as usize)
            || exists|k: int| j <= k < pivots.len() && pivots[k] == c)
            implies #[trigger] back_sub(rows, pivots, nb, s, j)[c] == x[c] by {
            assert(free.contains(c as usize));
        }
    }
}

/// When the reduced system has a solution, back substitution from any
/// starting pattern satisfies every row from pivot row `j` on, and every row
/// after the pivot rows.
proof fn lemma_back_sub_satisfies(m: Machine, e: Echelon<bool>, free: Seq<usize>, x0: Seq<bool>, s: Seq<bool>, j: int)
    requires
        reduces(m, e, free),
        x0.len() == e.n_buttons,
        system_holds(e.rows@, x0, e.n_buttons as int),
        s.len() == e.n_buttons,
        0 <= j <= e.pivot_cols.len(),
    ensures
        back_sub(e.rows@, e.pivot_cols@, e.n_buttons as int, s, j).len() == e.n_buttons,
        forall|k: int| (j <= k < e.pivot_cols.len() || e.pivot_cols.len() <= k < e.rows.len())
            ==> row_holds(#[trigger] e.rows@[k]@, back_sub(e.rows@, e.pivot_cols@, e.n_buttons as int, s, j), e.n_buttons as int),
    decreases e.pivot_cols.len() - j,
{
    let nb = e.n_buttons as int;
    let rows = e.rows@;
    let pivots = e.pivot_cols@;
    let t = back_sub(rows, pivots, nb, s, j);
    if j < pivots.len() {
        lemma_back_sub_satisfies(m, e, free, x0, s, j + 1);
        let u = back_sub(rows, pivots, nb, s, j + 1);
        let p = pivots[j] as int;
        let row = rows[j]@;
        assert(row.len() == nb + 1);
        let v = row[nb] != row_xor(row, u, p + 1, nb);
        assert(t == u.update(p, v));
        assert forall|c: int| p + 1 <= c < nb && #[trigger] row[c] implies t[c] == u[c] by {}
        lemma_row_xor_agree(row, t, u, p + 1, nb);
        lemma_row_xor_split(row, t, 0, p, nb);
        lemma_row_xor_split(row, t, p, p + 1, nb);
        assert forall|c: int| 0 <= c < p implies row[c] == (c == -1) by {
            assert(!rows[j]@[c]);
        }
        lemma_row_xor_unit(row, t, -1, 0, p);
        assert(row_xor(row, t, p, p + 1) == t[p]) by {
            assert(rows[j]@[pivots[j] as int]);
            assert(row[p]);
            assert(row_xor(row, t, p, p) == false);
        }
        assert(row_holds(row, t, nb));
        assert forall|k: int| j + 1 <= k < e.pivot_cols.len() implies row_holds(#[trigger] rows[k]@, t, nb) by {
            assert(row_holds(rows[k]@, u, nb));
            assert(!rows[k]@[pivots[j] as int]);
            assert forall|c: int| 0 <= c < nb && #[trigger] rows[k]@[c] implies t[c] == u[c] by {}
            lemma_row_xor_agree(rows[k]@, t, u, 0, nb);
        }
    }
    assert(t.len() == nb);
    assert forall|k: int| e.pivot_cols.len() <= k < e.rows.len() implies row_holds(#[trigger] rows[k]@, t, nb) by {
        assert(rows[k]@.len() == nb + 1);
        assert(row_holds(rows[k]@, x0, nb));
        assert forall|c: int| 0 <= c < nb implies rows[k]@[c] == (c == -1) by {
            assert(!rows[k]@[c]);
        }
        lemma_row_xor_unit(rows[k]@, x0, -1, 0, nb);
        lemma_row_xor_unit(rows[k]@, t, -1, 0, nb);
    }
}

/// When the machine's lights can be solved at all, every candidate of a
/// reduced system solves them.
pub proof fn lemma_candidate_solves(m: Machine, e: Echelon<bool>, free: Seq<usize>, x0: Seq<bool>, s: Seq<bool>)
    requires
        reduces(m, e, free),
        solves_lights(m.target@, m.buttons@, x0),
        s.len() == e.n_buttons,
    ensures
        solves_lights(m.target@, m.buttons@, back_sub(e.rows@, e.pivot_cols@, e.n_buttons as int, s, 0)),
{
    let nb = e.n_buttons as int;
    let t = back_sub(e.rows@, e.pivot_cols@, nb, s, 0);
    lemma_back_sub_satisfies(m, e, free, x0, s, 0);
    assert(system_holds(e.rows@, t, nb));
}

/// The mask whose bit `i` is free button `free[i]`'s state in `x`, `i < n`.
pub open spec fn mask_of(x: Seq<bool>, free: Seq<usize>, n: int) -> u32
    decreases n,
{
    if n <= 0 {
        0
    } else if x[free[n - 1] as int] {
        mask_of(x, free, n - 1) | (1u32 << ((n - 1) as u32))
    } else {
        mask_of(x, free, n - 1)
    }
}

proof fn lemma_bit_step(m: u32, n: u32, i: u32)
    requires
        n < 31,
        m < (1u32 << n),
        i < n,
    ensures
        ((m | (1u32 << n)) >> i) & 1u32 == (m >> i) & 1u32,
        ((m | (1u32 << n)) >> n) & 1u32 == 1u32,
        (m >> n) & 1u32 == 0u32,
        (m | (1u32 << n)) < (1u32 << (n + 1)),
        m < (1u32 << (n + 1)),
{
    assert(((m | (1u32 << n)) >> i) & 1u32 == (m >> i) & 1u32) by (bit_vector)
        requires n < 31, m < (1u32 << n), i < n;
    assert(((m | (1u32 << n)) >> n) & 1u32 == 1u32) by (bit_vector)
        requires n < 31, m < (1u32 << n);
    assert((m >> n) & 1u32 == 0u32) by (bit_vector)
        requires n < 31, m < (1u32 << n);
    assert((m | (1u32 << n)) < (1u32 << (n + 1))) by (bit_vector)
        requires n < 31, m < (1u32 << n);
    assert(m < (1u32 << (n + 1))) by (bit_vector)
        requires n < 31, m < (1u32 << n);
}

proof fn lemma_mask_of(x: Seq<bool>, free: Seq<usize>, n: int)
    requires
        0 <= n <= free.len(),
        n <= 30,
        forall|k: int| 0 <= k < free.len() ==> #[trigger] free[k] < x.len(),
    ensures
        mask_of(x, free, n) < (1u32 << (n as u32)),
        forall|i: int| 0 <= i < n ==> #[trigger] mask_bit(mask_of(x, free, n), i) == x[free[i] as int],
    decreases n,
{
    if n == 0 {
        assert(0u32 < (1u32 << 0u32)) by (bit_vector);
    } else {
        lemma_mask_of(x, free, n - 1);
        let m = mask_of(x, free, n - 1);
        let nn = (n - 1) as u32;
        let mm = mask_of(x, free, n);
        let b = x[free[n - 1] as int];
        if b {
            assert(mm == m | (1u32 << nn));
        } else {
            assert(mm == m);
        }
        assert(m < (1u32 << nn));
        assert forall|i: int| 0 <= i < n implies #[trigger] mask_bit(mm, i) == x[free[i] as int] by {
            let iu = i as u32;
            if i < n - 1 {
                lemma_bit_step(m, nn, iu);
                assert(mask_bit(m, i) == x[free[i] as int]);
            } else {
                assert(iu == nn);
                if b {
                    assert(((m | (1u32 << nn)) >> nn) & 1u32 == 1u32) by (bit_vector)
                        requires nn < 31, m < (1u32 << nn);
                } else {
                    assert((m >> nn) & 1u32 == 0u32) by (bit_vector)
                        requires nn < 31, m < (1u32 << nn);
                }
            }
        }
        assert((m | (1u32 << nn)) < (1u32 << (nn + 1)) && m < (1u32 << (nn + 1))) by (bit_vector)
            requires nn < 31, m < (1u32 << nn);
        assert(nn + 1 == n as u32);
    }
}

proof fn lemma_seed_bits(nb: nat, free: Seq<usize>, mask: u32, n: int)
    requires
        0 <= n <= free.len(),
        forall|k: int| 0 <= k < free.len() ==> #[trigger] free[k] < nb,
        forall|a: int, b: int| 0 <= a < b < free.len() ==> free[a] < free[b],
    ensures
        seed(nb, free, mask, n).len() == nb,
        forall|i: int| 0 <= i < n ==> #[trigger] seed(nb, free, mask, n)[free[i] as int] == mask_bit(mask, i),
    decreases n,
{
    if n > 0 {
        lemma_seed_bits(nb, free, mask, n - 1);
    }
}

/// When at most thirty buttons are free, every solution of a reduced system
/// is the candidate of some mask over the free buttons. So the search over
/// all masks meets every solution, and its minimum is the true minimum.
pub proof fn lemma_solution_is_candidate(m: Machine, e: Echelon<bool>, free: Seq<usize>, x: Seq<bool>) -> (mask: u32)
    requires
        reduces(m, e, free),
        free.len() <= 30,
        solves_lights(m.target@, m.buttons@, x),
    ensures
        mask < (1u32 << (free.len() as u32)),
        candidate(e, free, mask) == x,
{
    let nb = e.n_buttons as int;
    assert forall|k: int| 0 <= k < free.len() implies #[trigger] free[k] < nb by {
        assert(free.contains(free[k]));
    }
    let mask = mask_of(x, free, free.len() as int);
    lemma_mask_of(x, free, free.len() as int);
    lemma_seed_bits(nb as nat, free, mask, free.len() as int);
    let s = seed(nb as nat, free, mask, free.len() as int);
    assert forall|c: usize| #[trigger] free.contains(c) implies s[c as int] == x[c as int] by {
        let i = choose|i: int| 0 <= i < free.len() && free[i] == c;
        assert(s[free[i] as int] == mask_bit(mask, i));
    }
    assert(system_holds(e.rows@, x, nb));
    lemma_back_sub_rebuilds(m, e, free, x, s, 0);
    let cand = candidate(e, free, mask);
    assert forall|c: int| 0 <= c < nb implies cand[c] == x[c] by {
        if !free.contains(c as usize) {
            assert(e.pivot_cols@.contains(c as usize));
            let k = choose|k: int| 0 <= k < e.pivot_cols@.len() && e.pivot_cols@[k] == c as usize;
            assert(exists|k2: int| 0 <= k2 < e.pivot_cols@.len() && e.pivot_cols@[k2] == c);
        }
    }
    assert(cand =~= x);
    mask
}

/// The augmented toggle matrix: entry `(i, j)` is set iff button `j` toggles
/// light `i`; the last column holds the target.
pub fn build_toggle_matrix(target: &Vec<bool>, buttons: &Vec<Vec<usize>>) -> (m: Vec<Vec<bool>>)
    requires
        buttons.len() < usize::MAX,
    ensures
        m.len() == target.len(),
        forall|i: int| 0 <= i < target.len() ==> #[trigger] m@[i]@.len() == buttons.len() + 1,
        forall|i: int, j: int| 0 <= i < target.len() && 0 <= j < buttons.len()
            ==> m@[i]@[j] == touches(buttons@, j, i),
        forall|i: int| 0 <= i < target.len() ==> #[trigger] m@[i]@[buttons.len() as int] == target@[i],
{
    let nb = buttons.len();
    let mut m: Vec<Vec<bool>> = Vec::new();
    let mut i: usize = 0;
    while i < target.len()
        invariant
            i <= target.len(),
            nb == buttons.len(),
            nb < usize::MAX,
            m.len() == i,
            forall|r: int| 0 <= r < i ==> #[trigger] m@[r]@.len() == nb + 1,
            forall|r: int, j: int| 0 <= r < i && 0 <= j < nb ==> m@[r]@[j] == touches(buttons@, j, r),
            forall|r: int| 0 <= r < i ==> #[trigger] m@[r]@[nb as int] == target@[r],
        decreases target.len() - i,
    {
        let mut row: Vec<bool> = Vec::new();
        let mut j: usize = 0;
        while j < nb
            invariant
                j <= nb,
                nb == buttons.len(),
                i < target.len(),
                row.len() == j,
                forall|c: int| 0 <= c < j ==> row@[c] == touches(buttons@, c, i as int),
            decreases nb - j,
        {
            row.push(button_touches(&buttons[j], i));
            j += 1;
        }
        row.push(target[i]);
        m.push(row);
        i += 1;
    }
    m
}

/// Row-reduces the augmented toggle matrix: for each column in turn, the
/// first row at or below the current pivot row with a set entry is swapped
/// into place and XOR-ed into every other row holding that column. The
/// result has the same solutions as the input and reduced row echelon shape.
pub fn reduce_toggle_matrix(matrix: Vec<Vec<bool>>, n_buttons: usize) -> (e: Echelon<bool>)
    requires
        n_buttons < usize::MAX,
        forall|r: int| 0 <= r < matrix.len() ==> #[trigger] matrix@[r]@.len() == n_buttons + 1,
    ensures
        e.wf(),
        e.n_buttons == n_buttons,
        e.rows.len() == matrix.len(),
        same_solutions(e.rows@, matrix@, n_buttons as int),
        echelon_shape(e.rows@, e.pivot_cols@, n_buttons as int),
{
    let ghost given = matrix@;
    let ghost nb = n_buttons as int;
    let n_rows = matrix.len();
    let mut rows = matrix;
    let mut pivot_cols: Vec<usize> = Vec::new();
    let mut pivot_row: usize = 0;
    let mut col: usize = 0;
    while col < n_buttons && pivot_row < n_rows
        invariant
            rows.len() == n_rows,
            nb == n_buttons,
            n_buttons < usize::MAX,
            col <= n_buttons,
            pivot_row <= n_rows,
            pivot_cols.len() == pivot_row,
            forall|r: int| 0 <= r < n_rows ==> #[trigger] rows@[r]@.len() == n_buttons + 1,
            forall|k: int| 0 <= k < pivot_cols.len() ==> #[trigger] pivot_cols@[k] < col,
            forall|a: int, b: int| 0 <= a < b < pivot_cols.len() ==> pivot_cols@[a] < pivot_cols@[b],
            same_solutions(rows@, given, nb),
            echelon_shape(rows@, pivot_cols@, col as int),
        decreases n_buttons - col,
    {
        let mut found: Option<usize> = None;
        let mut row: usize = pivot_row;
        while row < n_rows && found.is_none()
            invariant
                pivot_row <= row <= n_rows,
                rows.len() == n_rows,
                col < n_buttons,
                forall|r: int| 0 <= r < n_rows ==> #[trigger] rows@[r]@.len() == n_buttons + 1,
                found matches Some(f) ==> pivot_row <= f < n_rows && rows@[f as int]@[col as int],
                found is None ==> forall|q: int| pivot_row <= q < row ==> !#[trigger] rows@[q]@[col as int],
            decreases n_rows - row,
        {
            if rows[row][col] {
                found = Some(row);
            }
            row += 1;
        }
        if let Some(f) = found {
            let ghost before = rows@;
            let a = copy_row(&rows[pivot_row]);
            let b = copy_row(&rows[f]);
            assert(a.len() == n_buttons + 1 && b.len() == n_buttons + 1);
            rows[pivot_row] = b;
            rows[f] = a;
            proof {
                let p = pivot_row as int;
                let fi = f as int;
                assert forall|q: int| 0 <= q < n_rows implies rows@[q]@ == before[if q == p { fi } else if q == fi { p } else { q }]@ by {}
                assert forall|q: int| 0 <= q < n_rows implies #[trigger] rows@[q]@.len() == n_buttons + 1 by {
                    assert(rows@[q]@ == before[if q == p { fi } else if q == fi { p } else { q }]@);
                }
                assert forall|x: Seq<bool>| x.len() == nb implies (system_holds(rows@, x, nb) <==> system_holds(before, x, nb)) by {
                    if system_holds(before, x, nb) {
                        assert forall|q: int| 0 <= q < rows@.len() implies row_holds(#[trigger] rows@[q]@, x, nb) by {
                            let src = if q == p { fi } else if q == fi { p } else { q };
                            assert(rows@[q]@ == before[src]@);
                            assert(row_holds(before[src]@, x, nb));
                        }
                    }
                    if system_holds(rows@, x, nb) {
                        assert forall|q: int| 0 <= q < before.len() implies row_holds(#[trigger] before[q]@, x, nb) by {
                            let dst = if q == p { fi } else if q == fi { p } else { q };
                            assert(rows@[dst]@ == before[q]@);
                            assert(row_holds(rows@[dst]@, x, nb));
                        }
                    }
                }
                assert(echelon_shape(rows@, pivot_cols@, col as int)) by {
                    assert forall|k: int, r: int| 0 <= k < pivot_cols.len() && 0 <= r < rows@.len() && r != k
                        implies !#[trigger] rows@[r]@[#[trigger] pivot_cols@[k] as int] by {
                        let src = if r == p { fi } else if r == fi { p } else { r };
                        assert(rows@[r]@ == before[src]@);
                    }
                    assert forall|r: int, c: int| pivot_cols.len() <= r < rows@.len() && 0 <= c < col
                        implies !#[trigger] rows@[r]@[c] by {
                        let src = if r == p { fi } else if r == fi { p } else { r };
                        assert(rows@[r]@ == before[src]@);
                    }
                    assert forall|k: int| 0 <= k < pivot_cols.len() implies #[trigger] rows@[k]@[pivot_cols@[k] as int] by {
                        assert(rows@[k]@ == before[k]@);
                    }
                    assert forall|k: int, c: int| 0 <= k < pivot_cols.len() && 0 <= c < pivot_cols@[k]
                        implies !#[trigger] rows@[k]@[c] by {
                        assert(rows@[k]@ == before[k]@);
                    }
                }
            }
            let pivot = copy_row(&rows[pivot_row]);
            let mut r: usize = 0;
            while r < n_rows
                invariant
                    r <= n_rows,
                    rows.len() == n_rows,
                    nb == n_buttons,
                    n_buttons < usize::MAX,
                    col < n_buttons,
                    pivot_row < n_rows,
                    pivot_cols.len() == pivot_row,
                    pivot.len() == n_buttons + 1,
                    rows@[pivot_row as int]@ == pivot@,
                    pivot@[col as int],
                    forall|q: int| 0 <= q < n_rows ==> #[trigger] rows@[q]@.len() == n_buttons + 1,
                    forall|k: int| 0 <= k < pivot_cols.len() ==> #[trigger] pivot_cols@[k] < col,
                    same_solutions(rows@, given, nb),
                    echelon_shape(rows@, pivot_cols@, col as int),
                    forall|q: int| 0 <= q < r && q != pivot_row ==> !#[trigger] rows@[q]@[col as int],
                decreases n_rows - r,
            {
                if r != pivot_row && rows[r][col] {
                    let ghost before = rows@;
                    let ghost old_row = rows@[r as int]@;
                    let mut updated = copy_row(&rows[r]);
                    assert(updated.len() == n_buttons + 1);
                    let mut c: usize = 0;
                    while c <= n_buttons
                        invariant
                            c <= n_buttons + 1,
                            n_buttons < usize::MAX,
                            updated.len() == n_buttons + 1,
                            pivot.len() == n_buttons + 1,
                            old_row.len() == n_buttons + 1,
                            forall|d: int| 0 <= d < c ==> #[trigger] updated@[d] == (old_row[d] != pivot@[d]),
                            forall|d: int| c <= d <= n_buttons ==> #[trigger] updated@[d] == old_row[d],
                        decreases n_buttons + 1 - c,
                    {
                        let v = updated[c] != pivot[c];
                        updated[c] = v;
                        c += 1;
                    }
                    assert(updated@ =~= xor_rows(old_row, pivot@));
                    rows[r] = updated;
                    proof {
                        let ri = r as int;
                        assert forall|q: int| 0 <= q < n_rows implies #[trigger] rows@[q]@.len() == n_buttons + 1 by {
                            if q != ri {
                                assert(rows@[q] == before[q]);
                            }
                        }
                        assert forall|x: Seq<bool>| x.len() == nb implies (system_holds(rows@, x, nb) <==> system_holds(before, x, nb)) by {
                            if system_holds(before, x, nb) {
                                assert(row_holds(before[pivot_row as int]@, x, nb));
                                assert(row_holds(before[ri]@, x, nb));
                                lemma_xor_row_holds(old_row, pivot@, x, nb);
                                assert forall|q: int| 0 <= q < rows@.len() implies row_holds(#[trigger] rows@[q]@, x, nb) by {
                                    if q != ri {
                                        assert(rows@[q] == before[q]);
                                    }
                                }
                            }
                            if system_holds(rows@, x, nb) {
                                assert(row_holds(rows@[pivot_row as int]@, x, nb));
                                assert(row_holds(rows@[ri]@, x, nb));
                                lemma_xor_row_holds(old_row, pivot@, x, nb);
                                assert forall|q: int| 0 <= q < before.len() implies row_holds(#[trigger] before[q]@, x, nb) by {
                                    if q != ri {
                                        assert(rows@[q] == before[q]);
                                    }
                                }
                            }
                        }
                        assert(echelon_shape(rows@, pivot_cols@, col as int)) by {
                            assert forall|k: int| 0 <= k < pivot_cols.len() implies #[trigger] rows@[k]@[pivot_cols@[k] as int] by {
                                assert(!pivot@[pivot_cols@[k] as int]);
                            }
                            assert forall|k: int, q: int| 0 <= k < pivot_cols.len() && 0 <= q < rows@.len() && q != k
                                implies !#[trigger] rows@[q]@[#[trigger] pivot_cols@[k] as int] by {
                                assert(!pivot@[pivot_cols@[k] as int]);
                            }
                            assert forall|q: int, d: int| pivot_cols.len() <= q < rows@.len() && 0 <= d < col
                                implies !#[trigger] rows@[q]@[d] by {
                                assert(!pivot@[d]);
                            }
                            assert forall|k: int, d: int| 0 <= k < pivot_cols.len() && 0 <= d < pivot_cols@[k]
                                implies !#[trigger] rows@[k]@[d] by {
                                assert(!pivot@[d]);
                            }
                        }
                    }
                }
                r += 1;
            }
            proof {
                let p = pivot_row as int;
                let newp = pivot_cols@.push(col);
                assert forall|k: int| 0 <= k < newp.len() implies #[trigger] rows@[k]@[newp[k] as int] by {
                    if k == p {
                        assert(newp[k] == col);
                    } else {
                        assert(newp[k] == pivot_cols@[k]);
                    }
                }
                assert forall|k: int, q: int| 0 <= k < newp.len() && 0 <= q < rows@.len() && q != k
                    implies !#[trigger] rows@[q]@[#[trigger] newp[k] as int] by {
                    if k == p {
                        assert(newp[k] == col);
                    } else {
                        assert(newp[k] == pivot_cols@[k]);
                    }
                }
                assert forall|q: int, d: int| newp.len() <= q < rows@.len() && 0 <= d < col + 1
                    implies !#[trigger] rows@[q]@[d] by {
                }
                assert forall|k: int, d: int| 0 <= k < newp.len() && 0 <= d < newp[k]
                    implies !#[trigger] rows@[k]@[d] by {
                    if k == p {
                        assert(newp[k] == col);
                        assert(rows@[k]@ == pivot@);
                    } else {
                        assert(newp[k] == pivot_cols@[k]);
                    }
                }
            }
            pivot_cols.push(col);
            pivot_row += 1;
        } else {
            proof {
                assert forall|q: int, d: int| pivot_cols.len() <= q < rows@.len() && 0 <= d < col + 1
                    implies !#[trigger] rows@[q]@[d] by {
                }
            }
        }
        col += 1;
    }
    proof {
        if pivot_row == n_rows {
            assert forall|q: int, d: int| pivot_cols.len() <= q < rows@.len() && 0 <= d < nb
                implies !#[trigger] rows@[q]@[d] by {
            }
        }
    }
    Echelon { rows, pivot_cols, n_buttons }
}

/// The starting pattern for `mask`: free button `free_vars[i]` pressed iff
/// bit `i` of `mask` is set.
pub fn seed_pattern(n_buttons: usize, free_vars: &Vec<usize>, mask: u32) -> (s: Vec<bool>)
    requires
        free_vars.len() <= 32,
        forall|k: int| 0 <= k < free_vars.len() ==> #[trigger] free_vars@[k] < n_buttons,
    ensures
        s@ == seed(n_buttons as nat, free_vars@, mask, free_vars.len() as int),
        s.len() == n_buttons,
{
    let mut s: Vec<bool> = Vec::new();
    let mut j: usize = 0;
    while j < n_buttons
        invariant
            j <= n_buttons,
            s@ == Seq::new(j as nat, |c: int| false),
        decreases n_buttons - j,
    {
        s.push(false);
        j += 1;
        assert(s@ == Seq::new(j as nat, |c: int| false));
    }
    let mut i: usize = 0;
    while i < free_vars.len()
        invariant
            i <= free_vars.len(),
            free_vars.len() <= 32,
            forall|k: int| 0 <= k < free_vars.len() ==> #[trigger] free_vars@[k] < n_buttons,
            s@ == seed(n_buttons as nat, free_vars@, mask, i as int),
            s.len() == n_buttons,
        decreases free_vars.len() - i,
    {
        let bit = ((mask >> (i as u32)) & 1u32) == 1u32;
        s[free_vars[i]] = bit;
        i += 1;
    }
    s
}

/// Back substitution over the pivot rows, from the last to the first,
/// starting from the pattern `start`.
pub fn back_substitute(e: &Echelon<bool>, start: Vec<bool>) -> (s: Vec<bool>)
    requires
        e.wf(),
        start.len() == e.n_buttons,
    ensures
        s@ == back_sub(e.rows@, e.pivot_cols@, e.n_buttons as int, start@, 0),
        s.len() == e.n_buttons,
{
    let nb = e.n_buttons;
    let mut s = start;
    let mut i: usize = e.pivot_cols.len();
    while i > 0
        invariant
            e.wf(),
            nb == e.n_buttons,
            i <= e.pivot_cols.len(),
            s.len() == nb,
            s@ == back_sub(e.rows@, e.pivot_cols@, nb as int, start@, i as int),
        decreases i,
    {
        i -= 1;
        let col = e.pivot_cols[i];
        let row = &e.rows[i];
        assert(row@.len() == nb + 1);
        let mut acc = false;
        let mut c: usize = col + 1;
        while c < nb
            invariant
                col < c <= nb || (c == col + 1 && col + 1 > nb),
                col < nb,
                row@.len() == nb + 1,
                s.len() == nb,
                acc == row_xor(row@, s@, col + 1, c as int),
            decreases nb - c,
        {
            acc = acc != (row[c] && s[c]);
            c += 1;
        }
        let v = row[nb] != acc;
        s[col] = v;
    }
    s
}

/// Fewest presses over the candidates of a reduced system. With no free
/// buttons, or more than `MAX_SEARCHED_FREE`, the one candidate with every free
/// button unpressed is used; otherwise every assignment of the free buttons is
/// tried and the lightest candidate that lights the target is kept. `None` when
/// no candidate tried lights the target.
pub fn min_presses(m: &Machine, e: &Echelon<bool>, free_vars: &Vec<usize>) -> (r: Option<usize>)
    requires
        e.wf(),
        e.n_buttons == m.buttons.len(),
        forall|k: int| 0 <= k < free_vars.len() ==> #[trigger] free_vars@[k] < e.n_buttons,
    ensures
        (free_vars.len() == 0 || free_vars.len() > MAX_SEARCHED_FREE) ==> r == (if solves_lights(
            m.target@,
            m.buttons@,
            candidate(*e, Seq::empty(), 0),
        ) {
            Some(popcount(candidate(*e, Seq::empty(), 0)) as usize)
        } else {
            None
        }),
        1 <= free_vars.len() <= MAX_SEARCHED_FREE ==> forall|mask: u32|
            mask < (1u32 << (free_vars.len() as u32)) && solves_lights(m.target@, m.buttons@, #[trigger] candidate(*e, free_vars@, mask))
            ==> (r matches Some(k) && k <= popcount(candidate(*e, free_vars@, mask))),
        1 <= free_vars.len() <= MAX_SEARCHED_FREE ==> (r matches Some(k) ==> exists|mask: u32|
            mask < (1u32 << (free_vars.len() as u32)) && solves_lights(m.target@, m.buttons@, #[trigger] candidate(*e, free_vars@, mask))
            && k == popcount(candidate(*e, free_vars@, mask))),
        r matches Some(k) ==> exists|x: Seq<bool>| solves_lights(m.target@, m.buttons@, x) && popcount(x) == k,
        reduces(*m, *e, free_vars@) ==> (r is Some <==> exists|x: Seq<bool>| solves_lights(m.target@, m.buttons@, x)),
        reduces(*m, *e, free_vars@) && free_vars.len() == 0 ==> forall|x: Seq<bool>|
            solves_lights(m.target@, m.buttons@, x) ==> r == Some(popcount(x) as usize),
        reduces(*m, *e, free_vars@) && 1 <= free_vars.len() <= MAX_SEARCHED_FREE ==> forall|x: Seq<bool>|
            solves_lights(m.target@, m.buttons@, x) ==> (r matches Some(k) && k <= popcount(x)),
{
    let nb = e.n_buttons;
    let num_free = free_vars.len();
    if num_free == 0 || num_free > MAX_SEARCHED_FREE {
        let empty: Vec<usize> = Vec::new();
        let start = seed_pattern(nb, &empty, 0);
        assert(empty@ == Seq::<usize>::empty());
        let s = back_substitute(e, start);
        proof {
            if reduces(*m, *e, free_vars@) && free_vars.len() == 0 {
                assert forall|x: Seq<bool>| solves_lights(m.target@, m.buttons@, x) implies s@ == x by {
                    lemma_unique_solution(*m, *e, free_vars@, x);
                }
            }
            if reduces(*m, *e, free_vars@) && exists|x: Seq<bool>| solves_lights(m.target@, m.buttons@, x) {
                let x0 = choose|x: Seq<bool>| solves_lights(m.target@, m.buttons@, x);
                lemma_candidate_solves(*m, *e, free_vars@, x0, start@);
            }
        }
        if lights_match(&m.target, &m.buttons, &s) {
            return Some(count_pressed(&s));
        } else {
            return None;
        }
    }
    let total: u32 = 1u32 << (num_free as u32);
    let mut best: Option<usize> = None;
    let mut mask: u32 = 0;
    while mask < total
        invariant
            e.wf(),
            nb == e.n_buttons,
            nb == m.buttons.len(),
            1 <= num_free <= MAX_SEARCHED_FREE,
            num_free == free_vars.len(),
            total == (1u32 << (num_free as u32)),
            mask <= total,
            forall|k: int| 0 <= k < free_vars.len() ==> #[trigger] free_vars@[k] < nb,
            forall|mk: u32| mk < mask && solves_lights(m.target@, m.buttons@, #[trigger] candidate(*e, free_vars@, mk))
                ==> (best matches Some(k) && k <= popcount(candidate(*e, free_vars@, mk))),
            best matches Some(k) ==> exists|mk: u32| mk < mask && solves_lights(m.target@, m.buttons@, #[trigger] candidate(*e, free_vars@, mk))
                && k == popcount(candidate(*e, free_vars@, mk)),
        decreases total - mask,
    {
        let start = seed_pattern(nb, free_vars, mask);
        let s = back_substitute(e, start);
        assert(s@ == candidate(*e, free_vars@, mask));
        if lights_match(&m.target, &m.buttons, &s) {
            let presses = count_pressed(&s);
            match best {
                Some(b) => {
                    if presses < b {
                        best = Some(presses);
                    }
                },
                None => {
                    best = Some(presses);
                },
            }
        }
        mask += 1;
    }
    proof {
        if best is Some {
            let mk = choose|mk: u32| mk < mask && solves_lights(m.target@, m.buttons@, #[trigger] candidate(*e, free_vars@, mk))
                && best->0 == popcount(candidate(*e, free_vars@, mk));
            assert(solves_lights(m.target@, m.buttons@, candidate(*e, free_vars@, mk)));
        }
        if reduces(*m, *e, free_vars@) && exists|x: Seq<bool>| solves_lights(m.target@, m.buttons@, x) {
            let x0 = choose|x: Seq<bool>| solves_lights(m.target@, m.buttons@, x);
            lemma_seed_bits(nb as nat, free_vars@, 0, free_vars.len() as int);
            lemma_candidate_solves(*m, *e, free_vars@, x0, seed(nb as nat, free_vars@, 0, free_vars.len() as int));
            assert(0u32 < (1u32 << (num_free as u32))) by (bit_vector)
                requires num_free as u32 <= 15u32;
            assert(solves_lights(m.target@, m.buttons@, candidate(*e, free_vars@, 0)));
        }
        if reduces(*m, *e, free_vars@) {
            assert forall|x: Seq<bool>| solves_lights(m.target@, m.buttons@, x) implies (best matches Some(k) && k <= popcount(x)) by {
                let mk = lemma_solution_is_candidate(*m, *e, free_vars@, x);
                assert(solves_lights(m.target@, m.buttons@, candidate(*e, free_vars@, mk)));
            }
        }
    }
    best
}

/// What `solve_machine` may answer for `m`: `None` exactly when no press
/// pattern lights the target, and otherwise the popcount of a solution that is
/// fixed by a reduced form of the system: the unique solution when no button
/// is free, the fewest presses when at most `MAX_SEARCHED_FREE` are free, and
/// the candidate with every free button unpressed beyond that.
pub open spec fn lights_answer(m: Machine, r: Option<usize>) -> bool {
    &&& r matches Some(k) ==> exists|x: Seq<bool>| solves_lights(m.target@, m.buttons@, x) && popcount(x) == k
    &&& r is Some <==> exists|x: Seq<bool>| solves_lights(m.target@, m.buttons@, x)
    &&& exists|e: Echelon<bool>, free: Seq<usize>| #[trigger] reduces(m, e, free)
        && (free.len() == 0 ==> forall|x: Seq<bool>|
            solves_lights(m.target@, m.buttons@, x) ==> r == Some(popcount(x) as usize))
        && (1 <= free.len() <= MAX_SEARCHED_FREE ==> forall|x: Seq<bool>|
            solves_lights(m.target@, m.buttons@, x) ==> (r matches Some(k) && k <= popcount(x)))
        && (free.len() > MAX_SEARCHED_FREE ==> r == (if solves_lights(m.target@, m.buttons@, candidate(e, Seq::empty(), 0)) {
            Some(popcount(candidate(e, Seq::empty(), 0)) as usize)
        } else {
            None
        }))
}

/// Fewest button presses that light exactly the machine's target, found by
/// elimination over GF(2) and a search over at most `MAX_SEARCHED_FREE` free
/// buttons. With no free button the answer is the popcount of the unique
/// solution; with up to `MAX_SEARCHED_FREE` it is the least popcount of any
/// solution; beyond that, it is the popcount of the back substitution with
/// every free button unpressed, which solves the lights but may not be the
/// fewest presses. `None` exactly when no press pattern lights the target.
pub fn solve_machine(machine: &Machine) -> (r: Option<usize>)
    requires
        machine.buttons.len() < usize::MAX,
    ensures
        r matches Some(k) ==> exists|x: Seq<bool>| solves_lights(machine.target@, machine.buttons@, x) && popcount(x) == k,
        r is Some <==> exists|x: Seq<bool>| solves_lights(machine.target@, machine.buttons@, x),
        lights_answer(*machine, r),
{
    solve_machine_reporting(machine).0
}

/// `solve_machine`, together with whether the answer is known to be the
/// fewest presses: `false` exactly when more than `MAX_SEARCHED_FREE` buttons
/// were free and the unsearched fallback was taken.
pub fn solve_machine_reporting(machine: &Machine) -> (r: (Option<usize>, bool))
    requires
        machine.buttons.len() < usize::MAX,
    ensures
        r.0 matches Some(k) ==> exists|x: Seq<bool>| solves_lights(machine.target@, machine.buttons@, x) && popcount(x) == k,
        r.0 is Some <==> exists|x: Seq<bool>| solves_lights(machine.target@, machine.buttons@, x),
        r.1 ==> forall|x: Seq<bool>|
            solves_lights(machine.target@, machine.buttons@, x) ==> (r.0 matches Some(k) && k <= popcount(x)),
        exists|e: Echelon<bool>, free: Seq<usize>| #[trigger] reduces(*machine, e, free)
            && (r.1 <==> free.len() <= MAX_SEARCHED_FREE)
            && (free.len() == 0 ==> forall|x: Seq<bool>|
                solves_lights(machine.target@, machine.buttons@, x) ==> r.0 == Some(popcount(x) as usize))
            && (1 <= free.len() <= MAX_SEARCHED_FREE ==> forall|x: Seq<bool>|
                solves_lights(machine.target@, machine.buttons@, x) ==> (r.0 matches Some(k) && k <= popcount(x)))
            && (free.len() > MAX_SEARCHED_FREE ==> r.0 == (if solves_lights(machine.target@, machine.buttons@, candidate(e, Seq::empty(), 0)) {
                Some(popcount(candidate(e, Seq::empty(), 0)) as usize)
            } else {
                None
            })),
        lights_answer(*machine, r.0),
{
    let nb = machine.buttons.len();
    let matrix = build_toggle_matrix(&machine.target, &machine.buttons);
    let e = reduce_toggle_matrix(matrix, nb);
    let free_vars = free_columns(&e.pivot_cols, nb);
    proof {
        assert forall|x: Seq<bool>| x.len() == e.n_buttons implies (system_holds(e.rows@, x, e.n_buttons as int)
            <==> solves_lights(machine.target@, machine.buttons@, x)) by {
            lemma_toggle_matrix_solutions(matrix@, machine.target@, machine.buttons@, x);
        }
        assert(reduces(*machine, e, free_vars@));
    }
    let presses = min_presses(machine, &e, &free_vars);
    (presses, free_vars.len() <= MAX_SEARCHED_FREE)
}

} // verus!
