//! Fewest presses for the counters: fraction-free elimination over the
//! integers, then a bounded, pruned search over the free buttons.
//!
//! Entries are `i64`; every product, difference and sum is checked, and a
//! value that leaves the `i64` range ends the attempt without a result.

use vstd::prelude::*;
use crate::machine::{Machine, touches, counter_after, solves_counters, abs_sum, all_non_negative, counters_match, button_touches};
use crate::echelon::{Echelon, copy_row, free_columns};

verus! {

/// A cost that some press vector reaching every counter target has.
pub open spec fn reachable_cost(m: Machine, c: i64) -> bool {
    exists|x: Seq<i64>| solves_counters(m.joltage@, m.buttons@, x) && abs_sum(x) == c as int
}

/// Greatest common divisor by Euclid's rule.
pub open spec fn gcd_spec(a: int, b: int) -> int
    decreases b,
{
    if b <= 0 {
        a
    } else {
        gcd_spec(b, a % b)
    }
}

/// Greatest common divisor of two non-negative numbers (`gcd(a, 0) == a`).
pub fn gcd(a: i64, b: i64) -> (r: i64)
    requires
        a >= 0,
        b >= 0,
    ensures
        r as int == gcd_spec(a as int, b as int),
        r >= 0,
    decreases b,
{
    if b == 0 {
        a
    } else {
        gcd(b, a % b)
    }
}

/// Absolute value, or `None` for `i64::MIN`.
fn magnitude(v: i64) -> (r: Option<i64>)
    ensures
        r matches Some(a) ==> a >= 0 && (a == v || a == -v),
        v > i64::MIN ==> r is Some,
{
    if v == i64::MIN {
        None
    } else if v < 0 {
        Some(-v)
    } else {
        Some(v)
    }
}

/// The augmented counter matrix: entry `(i, j)` is 1 iff button `j` raises
/// counter `i`, else 0; the last column holds the target.
pub fn build_counter_matrix(joltage: &Vec<i64>, buttons: &Vec<Vec<usize>>) -> (m: Vec<Vec<i64>>)
    requires
        buttons.len() < usize::MAX,
    ensures
        m.len() == joltage.len(),
        forall|i: int| 0 <= i < joltage.len() ==> #[trigger] m@[i]@.len() == buttons.len() + 1,
        forall|i: int, j: int| 0 <= i < joltage.len() && 0 <= j < buttons.len()
            ==> m@[i]@[j] == if touches(buttons@, j, i) { 1i64 } else { 0i64 },
        forall|i: int| 0 <= i < joltage.len() ==> #[trigger] m@[i]@[buttons.len() as int] == joltage@[i],
{
    let nb = buttons.len();
    let mut m: Vec<Vec<i64>> = Vec::new();
    let mut i: usize = 0;
    while i < joltage.len()
        invariant
            i <= joltage.len(),
            nb == buttons.len(),
            nb < usize::MAX,
            m.len() == i,
            forall|r: int| 0 <= r < i ==> #[trigger] m@[r]@.len() == nb + 1,
            forall|r: int, j: int| 0 <= r < i && 0 <= j < nb ==> m@[r]@[j] == if touches(buttons@, j, r) { 1i64 } else { 0i64 },
            forall|r: int| 0 <= r < i ==> #[trigger] m@[r]@[nb as int] == joltage@[r],
        decreases joltage.len() - i,
    {
        let mut row: Vec<i64> = Vec::new();
        let mut j: usize = 0;
        while j < nb
            invariant
                j <= nb,
                nb == buttons.len(),
                i < joltage.len(),
                row.len() == j,
                forall|c: int| 0 <= c < j ==> row@[c] == if touches(buttons@, c, i as int) { 1i64 } else { 0i64 },
            decreases nb - j,
        {
            if button_touches(&buttons[j], i) {
                row.push(1);
            } else {
                row.push(0);
            }
            j += 1;
        }
        row.push(joltage[i]);
        m.push(row);
        i += 1;
    }
    m
}

/// `row[c] * x[c]` summed over `lo <= c < hi`.
pub open spec fn row_sum(row: Seq<i64>, x: Seq<i64>, lo: int, hi: int) -> int
    decreases hi - lo,
{
    if hi <= lo { 0 } else { row_sum(row, x, lo, hi - 1) + row[hi - 1] * x[hi - 1] }
}

/// Row `row` of a counter system holds for the press counts `x`.
pub open spec fn int_row_holds(row: Seq<i64>, x: Seq<i64>, nb: int) -> bool {
    row_sum(row, x, 0, nb) == row[nb] as int
}

/// Every row of the counter system holds for `x`.
pub open spec fn int_system_holds(rows: Seq<Vec<i64>>, x: Seq<i64>, nb: int) -> bool {
    forall|r: int| 0 <= r < rows.len() ==> int_row_holds(#[trigger] rows[r]@, x, nb)
}

/// The two counter systems have the same solutions.
pub open spec fn same_int_solutions(a: Seq<Vec<i64>>, b: Seq<Vec<i64>>, nb: int) -> bool {
    forall|x: Seq<i64>| x.len() == nb ==> (int_system_holds(a, x, nb) <==> int_system_holds(b, x, nb))
}

proof fn lemma_row_sum_cross(row: Seq<i64>, pivot: Seq<i64>, out: Seq<i64>, p: int, f: int, x: Seq<i64>, hi: int)
    requires
        0 <= hi <= out.len(),
        out.len() == row.len(),
        row.len() == pivot.len(),
        forall|c: int| 0 <= c < out.len() ==> #[trigger] out[c] as int == row[c] * p - pivot[c] * f,
    ensures
        row_sum(out, x, 0, hi) == p * row_sum(row, x, 0, hi) - f * row_sum(pivot, x, 0, hi),
    decreases hi,
{
    if hi > 0 {
        lemma_row_sum_cross(row, pivot, out, p, f, x, hi - 1);
        let (a, b, xc) = (row[hi - 1] as int, pivot[hi - 1] as int, x[hi - 1] as int);
        let (ra, rb) = (row_sum(row, x, 0, hi - 1), row_sum(pivot, x, 0, hi - 1));
        assert((a * p - b * f) * xc == p * (a * xc) - f * (b * xc)) by (nonlinear_arith);
        assert(p * (ra + a * xc) - f * (rb + b * xc) == (p * ra - f * rb) + (p * (a * xc) - f * (b * xc))) by (nonlinear_arith);
    }
}

proof fn lemma_row_sum_scale(row: Seq<i64>, out: Seq<i64>, g: int, x: Seq<i64>, hi: int)
    requires
        0 <= hi <= out.len(),
        out.len() == row.len(),
        forall|c: int| 0 <= c < out.len() ==> row[c] as int == #[trigger] out[c] * g,
    ensures
        row_sum(row, x, 0, hi) == g * row_sum(out, x, 0, hi),
    decreases hi,
{
    if hi > 0 {
        lemma_row_sum_scale(row, out, g, x, hi - 1);
        let (o, xc, r) = (out[hi - 1] as int, x[hi - 1] as int, row_sum(out, x, 0, hi - 1));
        assert((o * g) * xc + g * r == g * (r + o * xc)) by (nonlinear_arith);
    }
}

/// The counter matrix of a machine has exactly the machine's solutions.
proof fn lemma_counter_matrix_solutions(m: Seq<Vec<i64>>, joltage: Seq<i64>, buttons: Seq<Vec<usize>>, x: Seq<i64>)
    requires
        m.len() == joltage.len(),
        x.len() == buttons.len(),
        forall|i: int| 0 <= i < joltage.len() ==> #[trigger] m[i]@.len() == buttons.len() + 1,
        forall|i: int, j: int| 0 <= i < joltage.len() && 0 <= j < buttons.len()
            ==> m[i]@[j] == if touches(buttons, j, i) { 1i64 } else { 0i64 },
        forall|i: int| 0 <= i < joltage.len() ==> #[trigger] m[i]@[buttons.len() as int] == joltage[i],
    ensures
        int_system_holds(m, x, buttons.len() as int) <==> solves_counters(joltage, buttons, x),
{
    let nb = buttons.len() as int;
    assert forall|i: int| 0 <= i < joltage.len() implies row_sum(#[trigger] m[i]@, x, 0, nb) == counter_after(buttons, x, i, nb) by {
        lemma_counter_row(m[i]@, buttons, x, i, nb);
    }
    if int_system_holds(m, x, nb) {
        assert forall|i: int| 0 <= i < joltage.len() implies counter_after(buttons, x, i, nb) == joltage[i] as int by {
            assert(int_row_holds(m[i]@, x, nb));
        }
    }
}

proof fn lemma_counter_row(row: Seq<i64>, buttons: Seq<Vec<usize>>, x: Seq<i64>, i: int, n: int)
    requires
        0 <= n <= buttons.len(),
        row.len() > n,
        forall|j: int| 0 <= j < buttons.len() ==> row[j] == if touches(buttons, j, i) { 1i64 } else { 0i64 },
    ensures
        row_sum(row, x, 0, n) == counter_after(buttons, x, i, n),
    decreases n,
{
    if n > 0 {
        lemma_counter_row(row, buttons, x, i, n - 1);
        if touches(buttons, n - 1, i) {
            assert(row[n - 1] == 1);
            assert(row[n - 1] * x[n - 1] == x[n - 1]);
        } else {
            assert(row[n - 1] == 0);
            assert(row[n - 1] * x[n - 1] == 0);
        }
    }
}

/// Replacing a row by `row * p - pivot * f` (with `p != 0`) keeps whether it
/// holds, when the pivot row holds.
proof fn lemma_cross_holds(row: Seq<i64>, pivot: Seq<i64>, out: Seq<i64>, p: int, f: int, x: Seq<i64>, nb: int)
    requires
        0 <= nb,
        row.len() == nb + 1,
        pivot.len() == nb + 1,
        out.len() == nb + 1,
        p != 0,
        forall|c: int| 0 <= c < out.len() ==> #[trigger] out[c] as int == row[c] * p - pivot[c] * f,
        int_row_holds(pivot, x, nb),
    ensures
        int_row_holds(out, x, nb) == int_row_holds(row, x, nb),
{
    lemma_row_sum_cross(row, pivot, out, p, f, x, nb);
    let (rs, rn) = (row_sum(row, x, 0, nb), row[nb] as int);
    assert(out[nb] as int == rn * p - pivot[nb] * f);
    assert((p * rs == rn * p) <==> (rs == rn)) by (nonlinear_arith)
        requires
            p != 0,
    ;
}

/// Dividing a row exactly by `g > 0` keeps whether it holds.
proof fn lemma_scale_holds(row: Seq<i64>, out: Seq<i64>, g: int, x: Seq<i64>, nb: int)
    requires
        0 <= nb,
        row.len() == nb + 1,
        out.len() == nb + 1,
        g > 0,
        forall|c: int| 0 <= c < row.len() ==> row[c] as int == #[trigger] out[c] * g,
    ensures
        int_row_holds(out, x, nb) == int_row_holds(row, x, nb),
{
    lemma_row_sum_scale(row, out, g, x, nb);
    let (os, on) = (row_sum(out, x, 0, nb), out[nb] as int);
    assert(row[nb] as int == on * g);
    assert((g * os == on * g) <==> (os == on)) by (nonlinear_arith)
        requires
            g > 0,
    ;
}

/// `a * p`, `b * f` and `a * p - b * f` all fit `i64`.
pub open spec fn entry_fits(a: int, p: int, b: int, f: int) -> bool {
    &&& i64::MIN <= a * p <= i64::MAX
    &&& i64::MIN <= b * f <= i64::MAX
    &&& i64::MIN <= a * p - b * f <= i64::MAX
}

/// `row * p - pivot * f`, entry by entry; `None` when an entry leaves `i64`.
pub open spec fn cross_spec(row: Seq<i64>, pivot: Seq<i64>, p: i64, f: i64) -> Option<Seq<i64>> {
    if forall|c: int| 0 <= c < row.len() ==> #[trigger] entry_fits(row[c] as int, p as int, pivot[c] as int, f as int) {
        Some(Seq::new(row.len(), |c: int| (row[c] * p - pivot[c] * f) as i64))
    } else {
        None
    }
}

/// `row * p - pivot * f`, entry by entry; `None` when an entry leaves `i64`.
fn cross_eliminate(row: &Vec<i64>, pivot: &Vec<i64>, p: i64, f: i64) -> (r: Option<Vec<i64>>)
    requires
        row.len() == pivot.len(),
    ensures
        r matches Some(v) ==> v.len() == row.len()
            && forall|c: int| 0 <= c < row.len() ==> #[trigger] v@[c] as int == row@[c] * p - pivot@[c] * f,
        r matches Some(v) ==> cross_spec(row@, pivot@, p, f) == Some(v@),
        r is None ==> cross_spec(row@, pivot@, p, f) is None,
{
    let mut out: Vec<i64> = Vec::new();
    let mut c: usize = 0;
    while c < row.len()
        invariant
            c <= row.len(),
            row.len() == pivot.len(),
            out.len() == c,
            forall|d: int| 0 <= d < c ==> #[trigger] out@[d] as int == row@[d] * p - pivot@[d] * f,
            forall|d: int| 0 <= d < c ==> #[trigger] entry_fits(row@[d] as int, p as int, pivot@[d] as int, f as int),
        decreases row.len() - c,
    {
        let a = row[c].checked_mul(p);
        let b = pivot[c].checked_mul(f);
        match (a, b) {
            (Some(a), Some(b)) => match a.checked_sub(b) {
                Some(v) => out.push(v),
                None => {
                    assert(!entry_fits(row@[c as int] as int, p as int, pivot@[c as int] as int, f as int));
                    return None;
                },
            },
            _ => {
                assert(!entry_fits(row@[c as int] as int, p as int, pivot@[c as int] as int, f as int));
                return None;
            },
        }
        c += 1;
    }
    assert(out@ =~= Seq::new(row.len() as nat, |c: int| (row@[c] * p - pivot@[c] * f) as i64));
    Some(out)
}

/// Greatest common divisor of the magnitudes of `row[..k]`; `None` when one
/// of them is `i64::MIN`.
pub open spec fn gcd_fold(row: Seq<i64>, k: int) -> Option<int>
    decreases k,
{
    if k <= 0 {
        Some(0)
    } else {
        match gcd_fold(row, k - 1) {
            None => None,
            Some(g) => if row[k - 1] == i64::MIN {
                None
            } else {
                Some(gcd_spec(g, if row[k - 1] < 0 { -(row[k - 1] as int) } else { row[k - 1] as int }))
            },
        }
    }
}

proof fn lemma_gcd_fold_none(row: Seq<i64>, j: int, k: int)
    requires
        0 <= j <= k,
        gcd_fold(row, j) is None,
    ensures
        gcd_fold(row, k) is None,
    decreases k - j,
{
    if j < k {
        lemma_gcd_fold_none(row, j, k - 1);
    }
}

/// `g` divides every entry of `row` exactly (checked in `i64`).
pub open spec fn divides_all(row: Seq<i64>, g: i64) -> bool {
    forall|c: int| 0 <= c < row.len() ==> (#[trigger] row[c].checked_div(g) matches Some(q) && q.checked_mul(g) == Some(row[c]))
}

/// A row divided by the gcd of its entries when that is above 1 and divides
/// them exactly; the row itself otherwise; `None` when an entry is `i64::MIN`.
pub open spec fn norm_spec(row: Seq<i64>) -> Option<Seq<i64>> {
    match gcd_fold(row, row.len() as int) {
        None => None,
        Some(g) => if g <= 1 {
            Some(row)
        } else if divides_all(row, g as i64) {
            Some(Seq::new(row.len(), |c: int| row[c].checked_div(g as i64)->0))
        } else {
            Some(row)
        },
    }
}

/// Divides a row by the greatest common divisor of its entries when that is
/// above 1 and divides every entry exactly (else the row is kept); `None`
/// when an entry is `i64::MIN`. The result times the divisor is the row.
fn normalize_row(row: &Vec<i64>) -> (r: Option<(Vec<i64>, i64)>)
    ensures
        r matches Some((v, g)) ==> v.len() == row.len() && g > 0
            && forall|c: int| 0 <= c < row.len() ==> row@[c] as int == #[trigger] v@[c] * g,
        r matches Some((v, g)) ==> norm_spec(row@) == Some(v@),
        r is None ==> norm_spec(row@) is None,
{
    let mut g: i64 = 0;
    let mut c: usize = 0;
    while c < row.len()
        invariant
            c <= row.len(),
            g >= 0,
            gcd_fold(row@, c as int) == Some(g as int),
        decreases row.len() - c,
    {
        match magnitude(row[c]) {
            Some(a) => {
                g = gcd(g, a);
            },
            None => {
                proof {
                    lemma_gcd_fold_none(row@, c + 1, row.len() as int);
                }
                return None;
            },
        }
        c += 1;
    }
    if g <= 1 {
        let v = copy_row(row);
        assert(forall|c: int| 0 <= c < row.len() ==> row@[c] as int == #[trigger] v@[c] * 1);
        return Some((v, 1));
    }
    let mut out: Vec<i64> = Vec::new();
    let mut c: usize = 0;
    while c < row.len()
        invariant
            c <= row.len(),
            out.len() == c,
            g > 1,
            gcd_fold(row@, row.len() as int) == Some(g as int),
            forall|d: int| 0 <= d < c ==> row@[d] as int == #[trigger] out@[d] * g,
            forall|d: int| 0 <= d < c ==> (#[trigger] row@[d].checked_div(g) matches Some(q) && q.checked_mul(g) == Some(row@[d]) && out@[d] == q),
        decreases row.len() - c,
    {
        match row[c].checked_div(g) {
            Some(v) => {
                match v.checked_mul(g) {
                    Some(back) => {
                        if back != row[c] {
                            assert(!(row@[c as int].checked_div(g) matches Some(q) && q.checked_mul(g) == Some(row@[c as int])));
                            let v = copy_row(row);
                            assert(forall|c: int| 0 <= c < row.len() ==> row@[c] as int == #[trigger] v@[c] * 1);
                            return Some((v, 1));
                        }
                    },
                    None => {
                        assert(!(row@[c as int].checked_div(g) matches Some(q) && q.checked_mul(g) == Some(row@[c as int])));
                        let v = copy_row(row);
                        assert(forall|c: int| 0 <= c < row.len() ==> row@[c] as int == #[trigger] v@[c] * 1);
                        return Some((v, 1));
                    },
                }
                out.push(v);
            },
            None => {
                let v = copy_row(row);
                assert(forall|c: int| 0 <= c < row.len() ==> row@[c] as int == #[trigger] v@[c] * 1);
                return Some((v, 1));
            },
        }
        c += 1;
    }
    assert(out@ =~= Seq::new(row.len() as nat, |c: int| row@[c].checked_div(g)->0));
    Some((out, g))
}

/// Reduced row echelon shape of a counter system, for the columns below
/// `col`: pivot row `k` has a non-zero entry in its pivot column, no other
/// row has one there, the rows after the pivot rows are zero below `col`, and
/// a pivot row is zero before its pivot.
pub open spec fn int_echelon_shape(rows: Seq<Vec<i64>>, pivots: Seq<usize>, col: int) -> bool {
    &&& forall|k: int| 0 <= k < pivots.len() ==> #[trigger] rows[k]@[pivots[k] as int] != 0
    &&& forall|k: int, r: int| 0 <= k < pivots.len() && 0 <= r < rows.len() && r != k
        ==> #[trigger] rows[r]@[#[trigger] pivots[k] as int] == 0
    &&& forall|r: int, c: int| pivots.len() <= r < rows.len() && 0 <= c < col ==> #[trigger] rows[r]@[c] == 0
    &&& forall|k: int, c: int| 0 <= k < pivots.len() && 0 <= c < pivots[k] ==> #[trigger] rows[k]@[c] == 0
}

proof fn lemma_nonzero_product(a: int, b: int)
    requires
        a != 0,
        b != 0,
    ensures
        a * b != 0,
{
    assert(a * b != 0) by (nonlinear_arith)
        requires
            a != 0,
            b != 0,
    ;
}

proof fn lemma_zero_quotient(o: int, g: int, r: int)
    requires
        g > 0,
        r == o * g,
    ensures
        (r == 0) == (o == 0),
{
    if o != 0 {
        lemma_nonzero_product(o, g);
    }
}

/// The rows of a matrix as sequences.
pub open spec fn views_i(rows: Seq<Vec<i64>>) -> Seq<Seq<i64>> {
    Seq::new(rows.len(), |i: int| rows[i]@)
}

/// Pivot choice for column `col` among rows `row..`: the first row with the
/// smallest non-zero magnitude there (`best` so far, of magnitude `best_val`;
/// the first non-zero entry is always taken);
/// `None` when an entry is `i64::MIN`.
pub open spec fn pick_spec(v: Seq<Seq<i64>>, col: int, row: int, best: Option<int>, best_val: int) -> Option<Option<int>>
    decreases v.len() - row,
{
    if row >= v.len() || row < 0 {
        Some(best)
    } else {
        let x = v[row][col];
        if x == 0 {
            pick_spec(v, col, row + 1, best, best_val)
        } else if x == i64::MIN {
            None
        } else {
            let a = if x < 0 { -(x as int) } else { x as int };
            if best is None || a < best_val {
                pick_spec(v, col, row + 1, Some(row), a)
            } else {
                pick_spec(v, col, row + 1, best, best_val)
            }
        }
    }
}

/// Eliminates column `col` from rows `r..` other than `pr` with the pivot row
/// `pivot` (entry `pv`); `None` when an entry leaves `i64`.
pub open spec fn elim_rows(v: Seq<Seq<i64>>, pr: int, col: int, pivot: Seq<i64>, pv: i64, r: int) -> Option<Seq<Seq<i64>>>
    decreases v.len() - r,
{
    if r >= v.len() || r < 0 {
        Some(v)
    } else {
        let f = v[r][col];
        if r != pr && f != 0 {
            match cross_spec(v[r], pivot, pv, f) {
                Some(u) => elim_rows(v.update(r, u), pr, col, pivot, pv, r + 1),
                None => None,
            }
        } else {
            elim_rows(v, pr, col, pivot, pv, r + 1)
        }
    }
}

/// Rows `a` and `b` exchanged.
pub open spec fn swap_rows(v: Seq<Seq<i64>>, a: int, b: int) -> Seq<Seq<i64>> {
    v.update(a, v[b]).update(b, v[a])
}

/// The column loop of the elimination from column `col`, with `pivots` found
/// so far and the next pivot row `pr`; `None` when an entry leaves `i64`.
pub open spec fn cols_spec(v: Seq<Seq<i64>>, pivots: Seq<usize>, pr: int, col: int, nb: int) -> Option<(Seq<Seq<i64>>, Seq<usize>)>
    decreases nb - col,
{
    if !(col < nb && pr < v.len()) || col < 0 || pr < 0 {
        Some((v, pivots))
    } else {
        match pick_spec(v, col, pr, None, i64::MAX as int) {
            None => None,
            Some(None) => cols_spec(v, pivots, pr, col + 1, nb),
            Some(Some(f)) => {
                let sw = swap_rows(v, pr, f);
                match elim_rows(sw, pr, col, sw[pr], sw[pr][col], 0) {
                    None => None,
                    Some(w) => cols_spec(w, pivots.push(col as usize), pr + 1, col + 1, nb),
                }
            },
        }
    }
}

/// Rows `i..n` normalized by `norm_spec`.
pub open spec fn norm_rows(v: Seq<Seq<i64>>, i: int, n: int) -> Option<Seq<Seq<i64>>>
    decreases n - i,
{
    if i >= n || i < 0 {
        Some(v)
    } else {
        match norm_spec(v[i]) {
            None => None,
            Some(u) => norm_rows(v.update(i, u), i + 1, n),
        }
    }
}

/// The checked fraction-free elimination of `m`: the reduced rows and pivot
/// columns, or `None` when an entry leaves `i64`.
pub open spec fn elim_spec(m: Seq<Seq<i64>>, nb: int) -> Option<(Seq<Seq<i64>>, Seq<usize>)> {
    match cols_spec(m, Seq::empty(), 0, 0, nb) {
        None => None,
        Some((w, ps)) => match norm_rows(w, 0, ps.len() as int) {
            None => None,
            Some(u) => Some((u, ps)),
        },
    }
}

/// Fraction-free elimination: for each column in turn, the first row at or
/// below the current pivot row with the smallest non-zero magnitude there is
/// swapped into place, and every other row is replaced by
/// `row * pivot - pivot_row * row[col]`. Pivot rows are then divided by the
/// gcd of their entries. The result is exactly `elim_spec`: it has the same
/// solutions and reduced row echelon shape, and is `None` exactly when an
/// entry leaves the `i64` range.
pub fn reduce_counter_matrix(matrix: Vec<Vec<i64>>, n_buttons: usize) -> (r: Option<Echelon<i64>>)
    requires
        n_buttons < usize::MAX,
        forall|i: int| 0 <= i < matrix.len() ==> #[trigger] matrix@[i]@.len() == n_buttons + 1,
    ensures
        r matches Some(e) ==> e.wf() && e.n_buttons == n_buttons && e.rows.len() == matrix.len()
            && same_int_solutions(e.rows@, matrix@, n_buttons as int)
            && int_echelon_shape(e.rows@, e.pivot_cols@, n_buttons as int),
        r is None <==> elim_spec(views_i(matrix@), n_buttons as int) is None,
        r matches Some(e) ==> elim_spec(views_i(matrix@), n_buttons as int) == Some((views_i(e.rows@), e.pivot_cols@)),
{
    let ghost given = matrix@;
    let ghost start_cols = cols_spec(views_i(matrix@), Seq::empty(), 0, 0, n_buttons as int);
    let ghost nb = n_buttons as int;
    let n_rows = matrix.len();
    let mut rows = matrix;
    let mut pivot_cols: Vec<usize> = Vec::new();
    let mut pivot_row: usize = 0;
    let mut col: usize = 0;
    while col < n_buttons && pivot_row < n_rows
        invariant
            rows.len() == n_rows,
            n_buttons < usize::MAX,
            col <= n_buttons,
            pivot_row <= n_rows,
            pivot_cols.len() == pivot_row,
            forall|i: int| 0 <= i < n_rows ==> #[trigger] rows@[i]@.len() == n_buttons + 1,
            forall|k: int| 0 <= k < pivot_cols.len() ==> #[trigger] pivot_cols@[k] < col,
            forall|a: int, b: int| 0 <= a < b < pivot_cols.len() ==> pivot_cols@[a] < pivot_cols@[b],
            nb == n_buttons,
            same_int_solutions(rows@, given, nb),
            start_cols == cols_spec(views_i(rows@), pivot_cols@, pivot_row as int, col as int, nb),
            start_cols == cols_spec(views_i(given), Seq::empty(), 0, 0, nb),
            given == matrix@,
            int_echelon_shape(rows@, pivot_cols@, col as int),
        decreases n_buttons - col,
    {
        let mut best: Option<usize> = None;
        let mut best_val: i64 = i64::MAX;
        let mut row: usize = pivot_row;
        let ghost v0 = views_i(rows@);
        while row < n_rows
            invariant
                v0 == views_i(rows@),
                given == matrix@,
                best is None ==> forall|q: int| pivot_row <= q < row ==> #[trigger] rows@[q]@[col as int] == 0,
                nb == n_buttons,
                pivot_row < n_rows,
                start_cols == cols_spec(v0, pivot_cols@, pivot_row as int, col as int, nb),
                start_cols == cols_spec(views_i(given), Seq::empty(), 0, 0, nb),
                pick_spec(v0, col as int, pivot_row as int, None, i64::MAX as int)
                    == pick_spec(v0, col as int, row as int, match best { Some(f) => Some(f as int), None => None }, best_val as int),
                pivot_row <= row <= n_rows,
                rows.len() == n_rows,
                col < n_buttons,
                forall|i: int| 0 <= i < n_rows ==> #[trigger] rows@[i]@.len() == n_buttons + 1,
                best matches Some(f) ==> pivot_row <= f < n_rows && rows@[f as int]@[col as int] != 0,
            decreases n_rows - row,
        {
            let v = rows[row][col];
            if v != 0 {
                match magnitude(v) {
                    Some(a) => {
                        if best.is_none() || a < best_val {
                            best = Some(row);
                            best_val = a;
                        }
                    },
                    None => {
                        assert(views_i(rows@)[row as int][col as int] == v);
                        return None;
                    },
                }
            }
            assert(views_i(rows@)[row as int][col as int] == v);
            row += 1;
        }
        assert(pick_spec(v0, col as int, row as int, match best { Some(f) => Some(f as int), None => None }, best_val as int)
            == Some(match best { Some(f) => Some(f as int), None => None::<int> }));
        if let Some(f) = best {
            let ghost vb = views_i(rows@);
            let ghost before = rows@;
            let a = copy_row(&rows[pivot_row]);
            let b = copy_row(&rows[f]);
            assert(a.len() == n_buttons + 1 && b.len() == n_buttons + 1);
            rows[pivot_row] = b;
            rows[f] = a;
            proof {
                let p = pivot_row as int;
                let fi = f as int;
                assert forall|q: int| 0 <= q < n_rows implies rows@[q]@ == before[if q == p { fi } else if q == fi { p } else { q }]@ by {}
                assert forall|q: int| 0 <= q < n_rows implies #[trigger] rows@[q]@.len() == n_buttons + 1 by {
                    assert(rows@[q]@ == before[if q == p { fi } else if q == fi { p } else { q }]@);
                }
                assert forall|x: Seq<i64>| x.len() == nb implies (int_system_holds(rows@, x, nb) <==> int_system_holds(before, x, nb)) by {
                    if int_system_holds(before, x, nb) {
                        assert forall|q: int| 0 <= q < rows@.len() implies int_row_holds(#[trigger] rows@[q]@, x, nb) by {
                            let src = if q == p { fi } else if q == fi { p } else { q };
                            assert(rows@[q]@ == before[src]@);
                            assert(int_row_holds(before[src]@, x, nb));
                        }
                    }
                    if int_system_holds(rows@, x, nb) {
                        assert forall|q: int| 0 <= q < before.len() implies int_row_holds(#[trigger] before[q]@, x, nb) by {
                            let dst = if q == p { fi } else if q == fi { p } else { q };
                            assert(rows@[dst]@ == before[q]@);
                            assert(int_row_holds(rows@[dst]@, x, nb));
                        }
                    }
                }
            }
            proof {
                let p = pivot_row as int;
                let fi = f as int;
                assert(int_echelon_shape(rows@, pivot_cols@, col as int)) by {
                    assert forall|k: int, r: int| 0 <= k < pivot_cols.len() && 0 <= r < rows@.len() && r != k
                        implies #[trigger] rows@[r]@[#[trigger] pivot_cols@[k] as int] == 0 by {
                        let src = if r == p { fi } else if r == fi { p } else { r };
                        assert(rows@[r]@ == before[src]@);
                    }
                    assert forall|r: int, c: int| pivot_cols.len() <= r < rows@.len() && 0 <= c < col
                        implies #[trigger] rows@[r]@[c] == 0 by {
                        let src = if r == p { fi } else if r == fi { p } else { r };
                        assert(rows@[r]@ == before[src]@);
                    }
                    assert forall|k: int| 0 <= k < pivot_cols.len() implies #[trigger] rows@[k]@[pivot_cols@[k] as int] != 0 by {
                        assert(rows@[k]@ == before[k]@);
                    }
                    assert forall|k: int, c: int| 0 <= k < pivot_cols.len() && 0 <= c < pivot_cols@[k]
                        implies #[trigger] rows@[k]@[c] == 0 by {
                        assert(rows@[k]@ == before[k]@);
                    }
                }
            }
            let pivot = copy_row(&rows[pivot_row]);
            let pivot_val = pivot[col];
            let ghost sw = views_i(rows@);
            assert(sw =~= swap_rows(vb, pivot_row as int, f as int));
            let mut r: usize = 0;
            while r < n_rows
                invariant
                    r <= n_rows,
                    rows.len() == n_rows,
                    col < n_buttons,
                    pivot.len() == n_buttons + 1,
                    forall|q: int| 0 <= q < n_rows ==> #[trigger] rows@[q]@.len() == n_buttons + 1,
                    pivot_row < n_rows,
                    rows@[pivot_row as int]@ == pivot@,
                    pivot_val == pivot@[col as int],
                    pivot_val != 0,
                    nb == n_buttons,
                    same_int_solutions(rows@, given, nb),
                    sw[pivot_row as int] == pivot@,
                    given == matrix@,
                    int_echelon_shape(rows@, pivot_cols@, col as int),
                    pivot_cols.len() == pivot_row,
                    forall|k: int| 0 <= k < pivot_cols.len() ==> #[trigger] pivot_cols@[k] < col,
                    forall|q: int| 0 <= q < r && q != pivot_row ==> #[trigger] rows@[q]@[col as int] == 0,
                    start_cols == cols_spec(vb, pivot_cols@, pivot_row as int, col as int, nb),
                    start_cols == cols_spec(views_i(given), Seq::empty(), 0, 0, nb),
                    pick_spec(vb, col as int, pivot_row as int, None, i64::MAX as int) == Some(Some(f as int)),
                    sw == swap_rows(vb, pivot_row as int, f as int),
                    col < n_buttons,
                    elim_rows(sw, pivot_row as int, col as int, pivot@, pivot_val, 0)
                        == elim_rows(views_i(rows@), pivot_row as int, col as int, pivot@, pivot_val, r as int),
                decreases n_rows - r,
            {
                let factor = rows[r][col];
                let ghost vr = views_i(rows@);
                assert(vr[r as int][col as int] == factor);
                if r != pivot_row && factor != 0 {
                    match cross_eliminate(&rows[r], &pivot, pivot_val, factor) {
                        Some(updated) => {
                            let ghost before = rows@;
                            assert(vr[r as int] == rows@[r as int]@);
                            let ghost old_row = rows@[r as int]@;
                            rows[r] = updated;
                            proof {
                                let ri = r as int;
                                assert(views_i(rows@) =~= vr.update(ri, updated@));
                                assert(updated@[col as int] == 0) by {
                                    assert(updated@[col as int] as int == old_row[col as int] * pivot_val - pivot@[col as int] * factor);
                                    assert(old_row[col as int] * pivot_val - pivot_val * old_row[col as int] == 0) by (nonlinear_arith);
                                }
                                assert(int_echelon_shape(rows@, pivot_cols@, col as int)) by {
                                    assert forall|k: int| 0 <= k < pivot_cols.len() implies #[trigger] rows@[k]@[pivot_cols@[k] as int] != 0 by {
                                        let pk = pivot_cols@[k] as int;
                                        assert(before[pivot_row as int]@[pk] == 0);
                                        assert(pivot@ == before[pivot_row as int]@);
                                        assert(before[k]@[pk] != 0);
                                        if k != ri { assert(rows@[k] == before[k]); }
                                        if k == ri {
                                            assert(updated@[pk] as int == old_row[pk] * pivot_val - pivot@[pk] * factor);
                                            lemma_nonzero_product(old_row[pk] as int, pivot_val as int);
                                        }
                                    }
                                    assert forall|k: int, q: int| 0 <= k < pivot_cols.len() && 0 <= q < rows@.len() && q != k
                                        implies #[trigger] rows@[q]@[#[trigger] pivot_cols@[k] as int] == 0 by {
                                        let pk = pivot_cols@[k] as int;
                                        assert(before[pivot_row as int]@[pk] == 0);
                                        assert(pivot@ == before[pivot_row as int]@);
                                        assert(before[q]@[pk] == 0);
                                        if q != ri { assert(rows@[q] == before[q]); }
                                        if q == ri {
                                            assert(updated@[pk] as int == old_row[pk] * pivot_val - pivot@[pk] * factor);
                                        }
                                    }
                                    assert forall|q: int, d: int| pivot_cols.len() <= q < rows@.len() && 0 <= d < col
                                        implies #[trigger] rows@[q]@[d] == 0 by {
                                        assert(before[pivot_row as int]@[d] == 0);
                                        assert(pivot@ == before[pivot_row as int]@);
                                        assert(before[q]@[d] == 0);
                                        if q != ri { assert(rows@[q] == before[q]); }
                                        if q == ri {
                                            assert(updated@[d] as int == old_row[d] * pivot_val - pivot@[d] * factor);
                                        }
                                    }
                                    assert forall|k: int, d: int| 0 <= k < pivot_cols.len() && 0 <= d < pivot_cols@[k]
                                        implies #[trigger] rows@[k]@[d] == 0 by {
                                        assert(d < col);
                                        assert(before[pivot_row as int]@[d] == 0);
                                        assert(pivot@ == before[pivot_row as int]@);
                                        assert(before[k]@[d] == 0);
                                        if k != ri { assert(rows@[k] == before[k]); }
                                        if k == ri {
                                            assert(updated@[d] as int == old_row[d] * pivot_val - pivot@[d] * factor);
                                        }
                                    }
                                }
                                assert forall|q: int| 0 <= q < n_rows implies #[trigger] rows@[q]@.len() == n_buttons + 1 by {
                                    if q != ri {
                                        assert(rows@[q] == before[q]);
                                    }
                                }
                                assert forall|x: Seq<i64>| x.len() == nb implies (int_system_holds(rows@, x, nb) <==> int_system_holds(before, x, nb)) by {
                                    if int_system_holds(before, x, nb) {
                                        assert(int_row_holds(before[pivot_row as int]@, x, nb));
                                        lemma_cross_holds(old_row, pivot@, updated@, pivot_val as int, factor as int, x, nb);
                                        assert forall|q: int| 0 <= q < rows@.len() implies int_row_holds(#[trigger] rows@[q]@, x, nb) by {
                                            if q != ri {
                                                assert(rows@[q] == before[q]);
                                            }
                                        }
                                    }
                                    if int_system_holds(rows@, x, nb) {
                                        assert(int_row_holds(rows@[pivot_row as int]@, x, nb));
                                        lemma_cross_holds(old_row, pivot@, updated@, pivot_val as int, factor as int, x, nb);
                                        assert forall|q: int| 0 <= q < before.len() implies int_row_holds(#[trigger] before[q]@, x, nb) by {
                                            if q != ri {
                                                assert(rows@[q] == before[q]);
                                            } else {
                                                assert(int_row_holds(rows@[ri]@, x, nb));
                                            }
                                        }
                                    }
                                }
                            }
                        },
                        None => {
                            assert(vr[r as int] == rows@[r as int]@);
                            return None;
                        },
                    }
                }
                r += 1;
            }
            proof {
                let p = pivot_row as int;
                let newp = pivot_cols@.push(col);
                assert forall|k: int| 0 <= k < newp.len() implies #[trigger] rows@[k]@[newp[k] as int] != 0 by {
                    if k == p {
                        assert(newp[k] == col);
                    } else {
                        assert(newp[k] == pivot_cols@[k]);
                    }
                }
                assert forall|k: int, q: int| 0 <= k < newp.len() && 0 <= q < rows@.len() && q != k
                    implies #[trigger] rows@[q]@[#[trigger] newp[k] as int] == 0 by {
                    if k == p {
                        assert(newp[k] == col);
                    } else {
                        assert(newp[k] == pivot_cols@[k]);
                    }
                }
                assert forall|q: int, d: int| newp.len() <= q < rows@.len() && 0 <= d < col + 1
                    implies #[trigger] rows@[q]@[d] == 0 by {
                }
                assert forall|k: int, d: int| 0 <= k < newp.len() && 0 <= d < newp[k]
                    implies #[trigger] rows@[k]@[d] == 0 by {
                    if k == p {
                        assert(newp[k] == col);
                        assert(rows@[k]@ == pivot@);
                    } else {
                        assert(newp[k] == pivot_cols@[k]);
                    }
                }
            }
            pivot_cols.push(col);
            pivot_row += 1;
        } else {
            proof {
                assert forall|q: int, d: int| pivot_cols.len() <= q < rows@.len() && 0 <= d < col + 1
                    implies #[trigger] rows@[q]@[d] == 0 by {
                }
            }
        }
        col += 1;
    }
    proof {
        if pivot_row == n_rows {
            assert forall|q: int, d: int| pivot_cols.len() <= q < rows@.len() && 0 <= d < nb
                implies #[trigger] rows@[q]@[d] == 0 by {
            }
        }
    }
    let ghost w0 = views_i(rows@);
    let mut i: usize = 0;
    while i < pivot_row
        invariant
            i <= pivot_row <= n_rows,
            rows.len() == n_rows,
            forall|q: int| 0 <= q < n_rows ==> #[trigger] rows@[q]@.len() == n_buttons + 1,
            nb == n_buttons,
            same_int_solutions(rows@, given, nb),
            start_cols == Some((w0, pivot_cols@)),
            given == matrix@,
            int_echelon_shape(rows@, pivot_cols@, nb),
            forall|k: int| 0 <= k < pivot_cols.len() ==> #[trigger] pivot_cols@[k] < nb,
            start_cols == cols_spec(views_i(given), Seq::empty(), 0, 0, nb),
            norm_rows(w0, 0, pivot_row as int) == norm_rows(views_i(rows@), i as int, pivot_row as int),
            pivot_cols.len() == pivot_row,
        decreases pivot_row - i,
    {
        match normalize_row(&rows[i]) {
            Some((updated, g)) => {
                let ghost vi = views_i(rows@);
                assert(vi[i as int] == rows@[i as int]@);
                let ghost before = rows@;
                let ghost old_row = rows@[i as int]@;
                rows[i] = updated;
                proof {
                    let ii = i as int;
                    assert(views_i(rows@) =~= vi.update(ii, updated@));
                    assert forall|c: int| 0 <= c < nb + 1 implies (#[trigger] updated@[c] == 0) == (vi[ii][c] == 0) by {
                        lemma_zero_quotient(updated@[c] as int, g as int, vi[ii][c] as int);
                    }
                    assert(int_echelon_shape(rows@, pivot_cols@, nb)) by {
                        assert forall|k: int| 0 <= k < pivot_cols.len() implies #[trigger] rows@[k]@[pivot_cols@[k] as int] != 0 by {
                            if k != ii { assert(rows@[k] == before[k]); }
                        }
                        assert forall|k: int, q: int| 0 <= k < pivot_cols.len() && 0 <= q < rows@.len() && q != k
                            implies #[trigger] rows@[q]@[#[trigger] pivot_cols@[k] as int] == 0 by {
                            if q != ii { assert(rows@[q] == before[q]); }
                        }
                        assert forall|q: int, d: int| pivot_cols.len() <= q < rows@.len() && 0 <= d < nb
                            implies #[trigger] rows@[q]@[d] == 0 by {
                            if q != ii { assert(rows@[q] == before[q]); }
                        }
                        assert forall|k: int, d: int| 0 <= k < pivot_cols.len() && 0 <= d < pivot_cols@[k]
                            implies #[trigger] rows@[k]@[d] == 0 by {
                            if k != ii { assert(rows@[k] == before[k]); }
                        }
                    }
                    assert forall|q: int| 0 <= q < n_rows implies #[trigger] rows@[q]@.len() == n_buttons + 1 by {
                        if q != ii {
                            assert(rows@[q] == before[q]);
                        }
                    }
                    assert forall|x: Seq<i64>| x.len() == nb implies (int_system_holds(rows@, x, nb) <==> int_system_holds(before, x, nb)) by {
                        lemma_scale_holds(old_row, updated@, g as int, x, nb);
                        if int_system_holds(before, x, nb) {
                            assert(int_row_holds(before[ii]@, x, nb));
                            assert forall|q: int| 0 <= q < rows@.len() implies int_row_holds(#[trigger] rows@[q]@, x, nb) by {
                                if q != ii {
                                    assert(rows@[q] == before[q]);
                                }
                            }
                        }
                        if int_system_holds(rows@, x, nb) {
                            assert(int_row_holds(rows@[ii]@, x, nb));
                            assert forall|q: int| 0 <= q < before.len() implies int_row_holds(#[trigger] before[q]@, x, nb) by {
                                if q != ii {
                                    assert(rows@[q] == before[q]);
                                }
                            }
                        }
                    }
                }
            },
            None => {
                assert(views_i(rows@)[i as int] == rows@[i as int]@);
                return None;
            },
        }
        i += 1;
    }
    Some(Echelon { rows, pivot_cols, n_buttons })
}

/// `val` minus `row[c] * t[c]` for `lo <= c < hi`, in that order; `None`
/// when a product or difference leaves `i64`.
pub open spec fn rest_after_terms(row: Seq<i64>, t: Seq<i64>, lo: int, hi: int, val: i64) -> Option<i64>
    decreases hi - lo,
{
    if lo >= hi {
        Some(val)
    } else {
        match row[lo].checked_mul(t[lo]) {
            Some(p) => match val.checked_sub(p) {
                Some(v) => rest_after_terms(row, t, lo + 1, hi, v),
                None => None,
            },
            None => None,
        }
    }
}

/// Back substitution over the pivot rows from the last one down to row `k`,
/// starting from `s`: a pivot button gets the row's right-hand side minus
/// the later buttons' contributions, divided by its pivot entry (rows with a
/// zero pivot entry are passed over). `None` when a division is not exact or
/// a value leaves `i64`.
pub open spec fn bs_counts(rows: Seq<Vec<i64>>, pivots: Seq<usize>, nb: int, s: Seq<i64>, k: int) -> Option<Seq<i64>>
    decreases pivots.len() - k,
{
    if k < 0 || k >= pivots.len() {
        Some(s)
    } else {
        match bs_counts(rows, pivots, nb, s, k + 1) {
            None => None,
            Some(t) => {
                let row = rows[k]@;
                let p = pivots[k] as int;
                let pv = row[p];
                if pv == 0 {
                    Some(t)
                } else {
                    match rest_after_terms(row, t, p + 1, nb, row[nb]) {
                        None => None,
                        Some(val) => match val.checked_div(pv) {
                            None => None,
                            Some(q) => if q.checked_mul(pv) == Some(val) { Some(t.update(p, q)) } else { None },
                        },
                    }
                }
            },
        }
    }
}

proof fn lemma_bs_none(rows: Seq<Vec<i64>>, pivots: Seq<usize>, nb: int, s: Seq<i64>, j: int, k: int)
    requires
        0 <= j <= k,
        bs_counts(rows, pivots, nb, s, k) is None,
    ensures
        bs_counts(rows, pivots, nb, s, j) is None,
    decreases k - j,
{
    if j < k {
        lemma_bs_none(rows, pivots, nb, s, j + 1, k);
    }
}

/// Back substitution over the pivot rows, from the last to the first,
/// starting from `start` (see `bs_counts`).
pub fn back_substitute_counts(e: &Echelon<i64>, start: Vec<i64>) -> (r: Option<Vec<i64>>)
    requires
        e.wf(),
        start.len() == e.n_buttons,
    ensures
        r matches Some(s) ==> s.len() == e.n_buttons
            && bs_counts(e.rows@, e.pivot_cols@, e.n_buttons as int, start@, 0) == Some(s@),
        r is None ==> bs_counts(e.rows@, e.pivot_cols@, e.n_buttons as int, start@, 0) is None,
{
    let nb = e.n_buttons;
    let ghost st = start@;
    let mut s = start;
    let mut i: usize = e.pivot_cols.len();
    while i > 0
        invariant
            e.wf(),
            nb == e.n_buttons,
            i <= e.pivot_cols.len(),
            s.len() == nb,
            bs_counts(e.rows@, e.pivot_cols@, nb as int, st, i as int) == Some(s@),
            st == start@,
        decreases i,
    {
        i -= 1;
        let col = e.pivot_cols[i];
        let row = &e.rows[i];
        assert(row@.len() == nb + 1);
        let ghost t = s@;
        let pivot_val = row[col];
        if pivot_val != 0 {
            let mut val: i64 = row[nb];
            let mut c: usize = col + 1;
            while c < nb
                invariant
                    col < c <= nb || c == col + 1,
                    col < nb,
                    row@.len() == nb + 1,
                    s.len() == nb,
                    s@ == t,
                    e.wf(),
                    nb == e.n_buttons,
                    i < e.pivot_cols.len(),
                    col == e.pivot_cols@[i as int],
                    row@ == e.rows@[i as int]@,
                    pivot_val == row@[col as int],
                    pivot_val != 0,
                    bs_counts(e.rows@, e.pivot_cols@, nb as int, st, i + 1) == Some(t),
                    st == start@,
                    rest_after_terms(row@, t, col + 1, nb as int, row@[nb as int])
                        == rest_after_terms(row@, t, c as int, nb as int, val),
                decreases nb - c,
            {
                match row[c].checked_mul(s[c]) {
                    Some(p) => match val.checked_sub(p) {
                        Some(v) => {
                            val = v;
                        },
                        None => {
                            proof {
                                lemma_bs_none(e.rows@, e.pivot_cols@, nb as int, st, 0, i as int);
                            }
                            return None;
                        },
                    },
                    None => {
                        proof {
                            lemma_bs_none(e.rows@, e.pivot_cols@, nb as int, st, 0, i as int);
                        }
                        return None;
                    },
                }
                c += 1;
            }
            match val.checked_div(pivot_val) {
                Some(q) => match q.checked_mul(pivot_val) {
                    Some(back) => {
                        if back != val {
                            proof {
                                lemma_bs_none(e.rows@, e.pivot_cols@, nb as int, st, 0, i as int);
                            }
                            return None;
                        }
                        s[col] = q;
                    },
                    None => {
                        proof {
                            lemma_bs_none(e.rows@, e.pivot_cols@, nb as int, st, 0, i as int);
                        }
                        return None;
                    },
                },
                None => {
                    proof {
                        lemma_bs_none(e.rows@, e.pivot_cols@, nb as int, st, 0, i as int);
                    }
                    return None;
                },
            }
        }
    }
    Some(s)
}

/// The sum of absolute values of `x` as an `i64`; `None` when an entry is
/// `i64::MIN` or the sum leaves `i64`.
pub open spec fn magnitude_of(x: Seq<i64>) -> Option<i64> {
    if (forall|j: int| 0 <= j < x.len() ==> i64::MIN < #[trigger] x[j]) && abs_sum(x) <= i64::MAX {
        Some(abs_sum(x) as i64)
    } else {
        None
    }
}

/// Sum of the absolute values of `x`; `None` when it leaves `i64`.
pub fn total_magnitude(x: &Vec<i64>) -> (r: Option<i64>)
    ensures
        r == magnitude_of(x@),
{
    let mut t: i64 = 0;
    let mut k: usize = 0;
    while k < x.len()
        invariant
            k <= x.len(),
            t as int == abs_sum(x@.take(k as int)),
            t >= 0,
            forall|j: int| 0 <= j < k ==> i64::MIN < #[trigger] x@[j],
        decreases x.len() - k,
    {
        assert(x@.take(k as int + 1).drop_last() == x@.take(k as int));
        let a = match magnitude(x[k]) {
            Some(a) => a,
            None => {
                assert(!(i64::MIN < x@[k as int]));
                return None;
            },
        };
        match t.checked_add(a) {
            Some(v) => {
                t = v;
            },
            None => {
                proof {
                    lemma_abs_sum_prefix(x@, k as int + 1);
                }
                return None;
            },
        }
        k += 1;
    }
    assert(x@.take(x.len() as int) == x@);
    Some(t)
}

/// The sum of absolute values over a prefix is at most that over the whole.
pub proof fn lemma_abs_sum_prefix(x: Seq<i64>, k: int)
    requires
        0 <= k <= x.len(),
    ensures
        abs_sum(x.take(k)) <= abs_sum(x),
    decreases x.len() - k,
{
    if k < x.len() {
        lemma_abs_sum_prefix(x, k + 1);
        assert(x.take(k + 1).drop_last() == x.take(k));
    } else {
        assert(x.take(k) == x);
    }
}

/// Whether every entry of `x` is non-negative.
pub fn all_non_negative_exec(x: &Vec<i64>) -> (r: bool)
    ensures
        r == all_non_negative(x@),
{
    let mut k: usize = 0;
    while k < x.len()
        invariant
            k <= x.len(),
            forall|j: int| 0 <= j < k ==> x@[j] >= 0,
        decreases x.len() - k,
    {
        if x[k] < 0 {
            return false;
        }
        k += 1;
    }
    true
}

/// Zeros, with free button `free[k]` set to `vals[k]` for `k < n`.
pub open spec fn seed_counts(nb: nat, free: Seq<usize>, vals: Seq<i64>, n: int) -> Seq<i64>
    decreases n,
{
    if n <= 0 {
        Seq::new(nb, |j: int| 0i64)
    } else {
        seed_counts(nb, free, vals, n - 1).update(free[n - 1] as int, vals[n - 1])
    }
}

/// Cost of one full assignment `vals` of the free buttons: the sum of the
/// back-substituted press counts, when the back substitution succeeds, no
/// count is negative, every target is met and the sum fits `i64`.
pub open spec fn leaf_cost(m: Machine, e: Echelon<i64>, free: Seq<usize>, vals: Seq<i64>) -> Option<i64> {
    match bs_counts(e.rows@, e.pivot_cols@, e.n_buttons as int, seed_counts(e.n_buttons as nat, free, vals, free.len() as int), 0) {
        Some(x) => if all_non_negative(x) && solves_counters(m.joltage@, m.buttons@, x) && abs_sum(x) <= i64::MAX {
            Some(abs_sum(x) as i64)
        } else {
            None
        },
        None => None,
    }
}

/// The smaller of two costs, either of which may be missing.
pub open spec fn min_opt(a: Option<i64>, b: Option<i64>) -> Option<i64> {
    match (a, b) {
        (Some(x), Some(y)) => Some(if x <= y { x } else { y }),
        (Some(x), None) => Some(x),
        (None, y) => y,
    }
}

pub open spec fn clip(v: i64) -> int {
    if v < 0 { 0 } else { v as int }
}

/// Least leaf cost over the completions of `prefix` whose remaining free
/// values lie in `0..=max_val`.
pub open spec fn box_best(m: Machine, e: Echelon<i64>, free: Seq<usize>, prefix: Seq<i64>, max_val: i64) -> Option<i64>
    decreases free.len() - prefix.len(), clip(max_val) + 2,
{
    if prefix.len() >= free.len() {
        leaf_cost(m, e, free, prefix)
    } else {
        range_best(m, e, free, prefix, max_val, 0)
    }
}

/// Least leaf cost over the completions of `prefix` whose next free value is
/// in `v..=max_val` and whose later ones are in `0..=max_val`.
pub open spec fn range_best(m: Machine, e: Echelon<i64>, free: Seq<usize>, prefix: Seq<i64>, max_val: i64, v: int) -> Option<i64>
    decreases free.len() - prefix.len(), clip(max_val) + 1 - v,
{
    if v < 0 || v > max_val || prefix.len() >= free.len() {
        None
    } else {
        min_opt(box_best(m, e, free, prefix.push(v as i64), max_val), range_best(m, e, free, prefix, max_val, v + 1))
    }
}

/// Sum of `s`.
pub open spec fn vals_sum(s: Seq<i64>) -> int
    decreases s.len(),
{
    if s.len() == 0 { 0 } else { vals_sum(s.drop_last()) + s.last() }
}

/// The search's assumptions about the reduced system and its free columns.
pub open spec fn search_ready(m: Machine, e: Echelon<i64>, free: Seq<usize>) -> bool {
    &&& e.wf()
    &&& e.n_buttons == m.buttons.len()
    &&& forall|k: int| 0 <= k < free.len() ==> #[trigger] free[k] < e.n_buttons
    &&& forall|a: int, b: int| 0 <= a < b < free.len() ==> free[a] < free[b]
    &&& forall|k: int, q: int| 0 <= k < free.len() && 0 <= q < e.pivot_cols.len() ==> free[k] != e.pivot_cols@[q]
}

proof fn lemma_bs_keeps(rows: Seq<Vec<i64>>, pivots: Seq<usize>, nb: int, s: Seq<i64>, k: int, c: int)
    requires
        0 <= k,
        bs_counts(rows, pivots, nb, s, k) is Some,
        forall|q: int| 0 <= q < pivots.len() ==> pivots[q] != c,
        forall|q: int| 0 <= q < pivots.len() ==> #[trigger] pivots[q] < s.len(),
    ensures
        bs_counts(rows, pivots, nb, s, k)->0.len() == s.len(),
        0 <= c < s.len() ==> bs_counts(rows, pivots, nb, s, k)->0[c] == s[c],
    decreases pivots.len() - k,
{
    if k < pivots.len() {
        lemma_bs_keeps(rows, pivots, nb, s, k + 1, c);
        assert(pivots[k] != c);
        let t = bs_counts(rows, pivots, nb, s, k + 1)->0;
        assert(bs_counts(rows, pivots, nb, s, k + 1) == Some(t));
        let row = rows[k]@;
        let p = pivots[k] as int;
        if row[p] != 0 {
            let val = rest_after_terms(row, t, p + 1, nb, row[nb])->0;
            let q = val.checked_div(row[p])->0;
            assert(bs_counts(rows, pivots, nb, s, k) == Some(t.update(p, q)));
        } else {
            assert(bs_counts(rows, pivots, nb, s, k) == Some(t));
        }
    }
}

proof fn lemma_seed_counts(nb: nat, free: Seq<usize>, vals: Seq<i64>, n: int)
    requires
        0 <= n <= free.len(),
        n <= vals.len(),
        forall|k: int| 0 <= k < free.len() ==> #[trigger] free[k] < nb,
        forall|a: int, b: int| 0 <= a < b < free.len() ==> free[a] < free[b],
    ensures
        seed_counts(nb, free, vals, n).len() == nb,
        forall|i: int| 0 <= i < n ==> #[trigger] seed_counts(nb, free, vals, n)[free[i] as int] == vals[i],
    decreases n,
{
    if n > 0 {
        lemma_seed_counts(nb, free, vals, n - 1);
    }
}

proof fn lemma_abs_sum_take_mono(x: Seq<i64>, a: int, b: int)
    requires
        0 <= a <= b <= x.len(),
    ensures
        abs_sum(x.take(a)) <= abs_sum(x.take(b)),
{
    lemma_abs_sum_prefix(x.take(b), a);
    assert(x.take(b).take(a) == x.take(a));
}

/// With no negative entry, the free positions' values sum to at most the total.
proof fn lemma_abs_sum_covers(x: Seq<i64>, free: Seq<usize>, vals: Seq<i64>, n: int)
    requires
        0 <= n <= free.len(),
        n <= vals.len(),
        all_non_negative(x),
        forall|k: int| 0 <= k < free.len() ==> #[trigger] free[k] < x.len(),
        forall|a: int, b: int| 0 <= a < b < free.len() ==> free[a] < free[b],
        forall|k: int| 0 <= k < n ==> x[free[k] as int] == #[trigger] vals[k],
    ensures
        n > 0 ==> vals_sum(vals.take(n)) <= abs_sum(x.take(free[n - 1] + 1)),
        vals_sum(vals.take(n)) <= abs_sum(x),
    decreases n,
{
    if n > 0 {
        lemma_abs_sum_covers(x, free, vals, n - 1);
        let f = free[n - 1] as int;
        assert(vals.take(n).drop_last() == vals.take(n - 1));
        assert(x.take(f + 1).drop_last() == x.take(f));
        if n > 1 {
            lemma_abs_sum_take_mono(x, free[n - 2] + 1, f);
        } else {
            assert(vals.take(0) =~= Seq::<i64>::empty());
            lemma_abs_sum_take_mono(x, 0, f);
            assert(x.take(0) =~= Seq::<i64>::empty());
        }
        lemma_abs_sum_prefix(x, f + 1);
    } else {
        assert(vals.take(0) =~= Seq::<i64>::empty());
        lemma_abs_sum_prefix(x, 0);
        assert(x.take(0) =~= Seq::<i64>::empty());
    }
}

proof fn lemma_leaf(m: Machine, e: Echelon<i64>, free: Seq<usize>, vals: Seq<i64>)
    requires
        search_ready(m, e, free),
        vals.len() == free.len(),
        leaf_cost(m, e, free, vals) is Some,
    ensures
        leaf_cost(m, e, free, vals)->0 >= vals_sum(vals),
        reachable_cost(m, leaf_cost(m, e, free, vals)->0),
{
    let nb = e.n_buttons;
    let sd = seed_counts(nb as nat, free, vals, free.len() as int);
    lemma_seed_counts(nb as nat, free, vals, free.len() as int);
    let x = bs_counts(e.rows@, e.pivot_cols@, nb as int, sd, 0)->0;
    assert forall|k: int| 0 <= k < free.len() implies x[free[k] as int] == #[trigger] vals[k] by {
        lemma_bs_keeps(e.rows@, e.pivot_cols@, nb as int, sd, 0, free[k] as int);
    }
    lemma_bs_keeps(e.rows@, e.pivot_cols@, nb as int, sd, 0, -1);
    lemma_abs_sum_covers(x, free, vals, free.len() as int);
    assert(vals.take(free.len() as int) == vals);
    lemma_abs_sum_at_least_zero(x);
    assert(solves_counters(m.joltage@, m.buttons@, x) && abs_sum(x) == leaf_cost(m, e, free, vals)->0 as int);
}

proof fn lemma_abs_sum_at_least_zero(x: Seq<i64>)
    ensures
        abs_sum(x) >= 0,
    decreases x.len(),
{
    if x.len() > 0 {
        lemma_abs_sum_at_least_zero(x.drop_last());
    }
}

proof fn lemma_box_lower(m: Machine, e: Echelon<i64>, free: Seq<usize>, prefix: Seq<i64>, max_val: i64)
    requires
        search_ready(m, e, free),
        prefix.len() <= free.len(),
    ensures
        box_best(m, e, free, prefix, max_val) matches Some(b) ==> b >= vals_sum(prefix) && reachable_cost(m, b),
    decreases free.len() - prefix.len(), clip(max_val) + 2,
{
    if prefix.len() >= free.len() {
        if leaf_cost(m, e, free, prefix) is Some {
            lemma_leaf(m, e, free, prefix);
        }
    } else {
        lemma_range_lower(m, e, free, prefix, max_val, 0);
    }
}

proof fn lemma_range_lower(m: Machine, e: Echelon<i64>, free: Seq<usize>, prefix: Seq<i64>, max_val: i64, v: int)
    requires
        search_ready(m, e, free),
        prefix.len() <= free.len(),
        v >= 0,
    ensures
        range_best(m, e, free, prefix, max_val, v) matches Some(b) ==> b >= vals_sum(prefix) && reachable_cost(m, b),
    decreases free.len() - prefix.len(), clip(max_val) + 1 - v,
{
    if !(v < 0 || v > max_val || prefix.len() >= free.len()) {
        let p2 = prefix.push(v as i64);
        lemma_box_lower(m, e, free, p2, max_val);
        lemma_range_lower(m, e, free, prefix, max_val, v + 1);
        assert(p2.drop_last() == prefix);
    }
}

/// Recursive search over the free buttons: `free_values[..free_idx]` is fixed,
/// and each remaining free button takes every value in `0..=max_val`. A full
/// assignment is back-substituted; when every press count is non-negative and
/// the counters reach their targets, its total lowers `min_cost`. A branch
/// whose fixed values already sum to at least `min_cost` is cut, which loses
/// nothing: every completion costs at least that sum. Afterwards `min_cost`
/// is the smaller of its old value and the least cost over the whole range
/// (`box_best`).
pub fn try_free_variables(
    m: &Machine,
    e: &Echelon<i64>,
    free_vars: &Vec<usize>,
    free_idx: usize,
    free_values: &mut Vec<i64>,
    max_val: i64,
    min_cost: &mut Option<i64>,
)
    requires
        search_ready(*m, *e, free_vars@),
        free_idx <= free_vars.len(),
        old(free_values).len() == free_vars.len(),
        forall|k: int| 0 <= k < free_idx ==> #[trigger] old(free_values)@[k] >= 0,
        max_val < i64::MAX,
    ensures
        final(free_values).len() == free_vars.len(),
        final(free_values)@.take(free_idx as int) == old(free_values)@.take(free_idx as int),
        *final(min_cost) == min_opt(*old(min_cost), box_best(*m, *e, free_vars@, old(free_values)@.take(free_idx as int), max_val)),
    decreases free_vars.len() - free_idx,
{
    let nb = e.n_buttons;
    let ghost prefix = free_values@.take(free_idx as int);
    if free_idx == free_vars.len() {
        assert(prefix == free_values@);
        let mut start: Vec<i64> = Vec::new();
        let mut j: usize = 0;
        while j < nb
            invariant
                j <= nb,
                start@ == Seq::new(j as nat, |c: int| 0i64),
            decreases nb - j,
        {
            start.push(0);
            j += 1;
            assert(start@ == Seq::new(j as nat, |c: int| 0i64));
        }
        let mut i: usize = 0;
        while i < free_vars.len()
            invariant
                i <= free_vars.len(),
                start.len() == nb,
                free_values.len() == free_vars.len(),
                search_ready(*m, *e, free_vars@),
                nb == e.n_buttons,
                start@ == seed_counts(nb as nat, free_vars@, free_values@, i as int),
            decreases free_vars.len() - i,
        {
            start[free_vars[i]] = free_values[i];
            i += 1;
        }
        let leaf = match back_substitute_counts(e, start) {
            Some(s) => {
                if all_non_negative_exec(&s) && counters_match(&m.joltage, &m.buttons, &s) {
                    total_magnitude(&s)
                } else {
                    None
                }
            },
            None => None,
        };
        assert(leaf == leaf_cost(*m, *e, free_vars@, free_values@));
        match leaf {
            Some(cost) => {
                let better = match *min_cost {
                    Some(c) => cost < c,
                    None => true,
                };
                if better {
                    *min_cost = Some(cost);
                }
            },
            None => {},
        }
        return;
    }
    let mut current_sum: i64 = 0;
    let mut k: usize = 0;
    while k < free_idx
        invariant
            k <= free_idx <= free_vars.len(),
            free_values.len() == free_vars.len(),
            prefix == free_values@.take(free_idx as int),
            forall|q: int| 0 <= q < free_idx ==> #[trigger] free_values@[q] >= 0,
            current_sum as int == vals_sum(free_values@.take(k as int)),
            current_sum >= 0,
            search_ready(*m, *e, free_vars@),
            *min_cost == *old(min_cost),
            *free_values == *old(free_values),
        decreases free_idx - k,
    {
        assert(free_values@.take(k + 1).drop_last() == free_values@.take(k as int));
        match current_sum.checked_add(free_values[k]) {
            Some(v) => {
                current_sum = v;
            },
            None => {
                proof {
                    assert forall|q: int| 0 <= q < prefix.len() implies #[trigger] prefix[q] >= 0 by {
                        assert(prefix[q] == free_values@[q]);
                    }
                    lemma_vals_sum_mono(prefix, k + 1, free_idx as int);
                    assert(prefix.take(k + 1) == free_values@.take(k + 1));
                    assert(prefix.take(free_idx as int) == prefix);
                    lemma_box_lower(*m, *e, free_vars@, prefix, max_val);
                }
                return;
            },
        }
        k += 1;
    }
    assert(free_values@.take(free_idx as int) == prefix);
    if let Some(c) = *min_cost {
        if current_sum >= c {
            proof {
                lemma_box_lower(*m, *e, free_vars@, prefix, max_val);
            }
            return;
        }
    }
    if max_val < 0 {
        return;
    }
    let ghost old_min = *min_cost;
    assert forall|q: int| 0 <= q < free_idx implies #[trigger] prefix[q] >= 0 by {
        assert(prefix[q] == free_values@[q]);
    }
    let mut val: i64 = 0;
    while val <= max_val
        invariant
            search_ready(*m, *e, free_vars@),
            free_idx < free_vars.len(),
            free_values.len() == free_vars.len(),
            free_values@.take(free_idx as int) == prefix,
            prefix.len() == free_idx,
            forall|q: int| 0 <= q < free_idx ==> #[trigger] prefix[q] >= 0,
            0 <= val <= max_val + 1,
            max_val < i64::MAX,
            min_opt(old_min, box_best(*m, *e, free_vars@, prefix, max_val))
                == min_opt(*min_cost, range_best(*m, *e, free_vars@, prefix, max_val, val as int)),
        decreases max_val + 1 - val,
    {
        free_values[free_idx] = val;
        assert(free_values@.take(free_idx + 1) == prefix.push(val));
        assert(free_values@.take(free_idx as int) == prefix);
        assert forall|q: int| 0 <= q < free_idx + 1 implies #[trigger] free_values@[q] >= 0 by {
            if q < free_idx {
                assert(free_values@[q] == prefix[q]);
            }
        }
        let ghost before = *min_cost;
        try_free_variables(m, e, free_vars, free_idx + 1, free_values, max_val, min_cost);
        proof {
            assert(free_values@.take(free_idx as int) == free_values@.take(free_idx + 1).take(free_idx as int));
            lemma_min_assoc(before, box_best(*m, *e, free_vars@, prefix.push(val), max_val),
                range_best(*m, *e, free_vars@, prefix, max_val, val + 1));
        }
        val += 1;
    }
}

proof fn lemma_min_assoc(a: Option<i64>, b: Option<i64>, c: Option<i64>)
    ensures
        min_opt(a, min_opt(b, c)) == min_opt(min_opt(a, b), c),
{
}

proof fn lemma_vals_sum_mono(s: Seq<i64>, a: int, b: int)
    requires
        0 <= a <= b <= s.len(),
        forall|q: int| 0 <= q < s.len() ==> #[trigger] s[q] >= 0,
    ensures
        vals_sum(s.take(a)) <= vals_sum(s.take(b)),
    decreases b - a,
{
    if a < b {
        lemma_vals_sum_mono(s, a, b - 1);
        assert(s.take(b).drop_last() == s.take(b - 1));
    }
}

/// Largest of `j[0..k]`, for `k >= 1`.
pub open spec fn max_prefix(j: Seq<i64>, k: int) -> int
    decreases k,
{
    if k <= 1 {
        j[0] as int
    } else {
        let m = max_prefix(j, k - 1);
        if j[k - 1] > m { j[k - 1] as int } else { m }
    }
}

/// The largest target, or 100 when there is none.
pub open spec fn largest_target(j: Seq<i64>) -> int {
    if j.len() == 0 { 100 } else { max_prefix(j, j.len() as int) }
}

/// The range searched for each free button, from the largest target `mx`:
/// nothing when `mx <= 0`, else `min(3 * mx, 200)` for at most two free
/// buttons and `min(2 * mx, 100)` for more.
pub open spec fn range_for(mx: int, num_free: int) -> int {
    if mx <= 0 {
        0
    } else if num_free <= 2 {
        if 3 * mx <= 200 { 3 * mx } else { 200 }
    } else {
        if 2 * mx <= 100 { 2 * mx } else { 100 }
    }
}

/// Range searched for each free button (see `range_for`).
pub fn search_range(joltage: &Vec<i64>, num_free: usize) -> (r: i64)
    ensures
        r == range_for(largest_target(joltage@), num_free as int),
        0 <= r <= 200,
{
    let mut max_val: i64 = 100;
    if joltage.len() > 0 {
        max_val = joltage[0];
        let mut k: usize = 1;
        while k < joltage.len()
            invariant
                1 <= k <= joltage.len(),
                max_val == max_prefix(joltage@, k as int),
            decreases joltage.len() - k,
        {
            if joltage[k] > max_val {
                max_val = joltage[k];
            }
            k += 1;
        }
    }
    if max_val <= 0 {
        0
    } else if num_free <= 2 {
        if max_val >= 67 { 200 } else { max_val * 3 }
    } else {
        if max_val >= 50 { 100 } else { max_val * 2 }
    }
}

/// The answer with no free button: the back substitution from all zeros,
/// when it succeeds and meets every target, costed by the sum of the
/// absolute values of its press counts.
pub open spec fn unique_answer(m: Machine, e: Echelon<i64>) -> Option<i64> {
    match bs_counts(e.rows@, e.pivot_cols@, e.n_buttons as int, Seq::new(e.n_buttons as nat, |j: int| 0i64), 0) {
        Some(x) => if solves_counters(m.joltage@, m.buttons@, x) { magnitude_of(x) } else { None },
        None => None,
    }
}

/// `e` has exactly the machine's counter solutions, `free` lists exactly its
/// non-pivot columns in increasing order, and `e` is shaped for the machine.
pub open spec fn free_columns_of(m: Machine, e: Echelon<i64>, free: Seq<usize>) -> bool {
    &&& search_ready(m, e, free)
    &&& forall|x: Seq<i64>| x.len() == e.n_buttons
        ==> (int_system_holds(e.rows@, x, e.n_buttons as int) <==> solves_counters(m.joltage@, m.buttons@, x))
    &&& forall|c: usize| #[trigger] free.contains(c) <==> (c < e.n_buttons && !e.pivot_cols@.contains(c))
    &&& int_echelon_shape(e.rows@, e.pivot_cols@, e.n_buttons as int)
}

/// The free values of `x`: its entries at the free columns, in order.
pub open spec fn free_values_of(x: Seq<i64>, free: Seq<usize>) -> Seq<i64> {
    Seq::new(free.len(), |k: int| x[free[k] as int])
}

proof fn lemma_row_sum_split(row: Seq<i64>, x: Seq<i64>, lo: int, mid: int, hi: int)
    requires
        lo <= mid <= hi,
    ensures
        row_sum(row, x, lo, hi) == row_sum(row, x, lo, mid) + row_sum(row, x, mid, hi),
    decreases hi - mid,
{
    if hi > mid {
        lemma_row_sum_split(row, x, lo, mid, hi - 1);
    }
}

proof fn lemma_row_sum_agree(row: Seq<i64>, a: Seq<i64>, b: Seq<i64>, lo: int, hi: int)
    requires
        forall|c: int| lo <= c < hi && #[trigger] row[c] != 0 ==> a[c] == b[c],
    ensures
        row_sum(row, a, lo, hi) == row_sum(row, b, lo, hi),
    decreases hi - lo,
{
    if hi > lo {
        lemma_row_sum_agree(row, a, b, lo, hi - 1);
        if row[hi - 1] == 0 {
            assert(row[hi - 1] * a[hi - 1] == 0 && row[hi - 1] * b[hi - 1] == 0);
        }
    }
}

proof fn lemma_row_sum_first(row: Seq<i64>, x: Seq<i64>, lo: int, hi: int)
    requires
        lo < hi,
    ensures
        row_sum(row, x, lo, hi) == row[lo] * x[lo] + row_sum(row, x, lo + 1, hi),
{
    lemma_row_sum_split(row, x, lo, lo + 1, hi);
    assert(row_sum(row, x, lo, lo) == 0);
    assert(row_sum(row, x, lo, lo + 1) == row_sum(row, x, lo, lo) + row[lo] * x[lo]);
}

proof fn lemma_rest_value(row: Seq<i64>, t: Seq<i64>, lo: int, hi: int, val: i64)
    requires
        lo <= hi,
        rest_after_terms(row, t, lo, hi, val) is Some,
    ensures
        rest_after_terms(row, t, lo, hi, val)->0 as int == val - row_sum(row, t, lo, hi),
    decreases hi - lo,
{
    if lo < hi {
        let p = row[lo].checked_mul(t[lo])->0;
        let v = val.checked_sub(p)->0;
        lemma_rest_value(row, t, lo + 1, hi, v);
        lemma_row_sum_first(row, t, lo, hi);
    }
}

/// Back substitution from any pattern that agrees with a solution on the
/// free columns rebuilds that solution, from pivot row `j` on, whenever it
/// stays within `i64`.
proof fn lemma_int_rebuild(m: Machine, e: Echelon<i64>, free: Seq<usize>, x: Seq<i64>, s: Seq<i64>, j: int)
    requires
        free_columns_of(m, e, free),
        x.len() == e.n_buttons,
        int_system_holds(e.rows@, x, e.n_buttons as int),
        s.len() == e.n_buttons,
        forall|c: usize| #[trigger] free.contains(c) ==> s[c as int] == x[c as int],
        0 <= j <= e.pivot_cols.len(),
        bs_counts(e.rows@, e.pivot_cols@, e.n_buttons as int, s, j) is Some,
    ensures
        bs_counts(e.rows@, e.pivot_cols@, e.n_buttons as int, s, j)->0.len() == e.n_buttons,
        forall|c: int| 0 <= c < e.n_buttons && (free.contains(c as usize)
            || exists|k: int| j <= k < e.pivot_cols.len() && e.pivot_cols@[k] == c)
            ==> #[trigger] bs_counts(e.rows@, e.pivot_cols@, e.n_buttons as int, s, j)->0[c] == x[c],
    decreases e.pivot_cols.len() - j,
{
    let nb = e.n_buttons as int;
    let rows = e.rows@;
    let pivots = e.pivot_cols@;
    if j < pivots.len() {
        lemma_int_rebuild(m, e, free, x, s, j + 1);
        let t = bs_counts(rows, pivots, nb, s, j + 1)->0;
        assert(bs_counts(rows, pivots, nb, s, j + 1) == Some(t));
        let p = pivots[j] as int;
        let row = rows[j]@;
        assert(row.len() == nb + 1);
        let pv = row[p];
        assert(pv != 0);
        let val = rest_after_terms(row, t, p + 1, nb, row[nb])->0;
        lemma_rest_value(row, t, p + 1, nb, row[nb]);
        let q = val.checked_div(pv)->0;
        let r = bs_counts(rows, pivots, nb, s, j)->0;
        assert(r == t.update(p, q));
        assert(q * pv == val);
        assert forall|c: int| p + 1 <= c < nb && #[trigger] row[c] != 0 implies t[c] == x[c] by {
            let cu = c as usize;
            if !free.contains(cu) {
                assert(pivots.contains(cu));
                let k = choose|k: int| 0 <= k < pivots.len() && pivots[k] == cu;
                if k < j {
                    assert(pivots[k] < pivots[j]);
                } else if k == j {
                } else {
                    assert(rows[j]@[pivots[k] as int] == 0);
                }
            }
        }
        lemma_row_sum_agree(row, t, x, p + 1, nb);
        assert(int_row_holds(row, x, nb));
        lemma_row_sum_split(row, x, 0, p, nb);
        lemma_row_sum_first(row, x, p, nb);
        assert forall|c: int| 0 <= c < p && #[trigger] row[c] != 0 implies x[c] == Seq::new(nb as nat, |i: int| 0i64)[c] by {
            assert(rows[j]@[c] == 0);
        }
        lemma_row_sum_agree(row, x, Seq::new(nb as nat, |i: int| 0i64), 0, p);
        lemma_row_sum_zero(row, 0, p, nb);
        assert(pv * x[p] == q * pv);
        assert(q == x[p]) by (nonlinear_arith)
            requires
                pv * x[p] == q * pv,
                pv != 0,
        ;
        assert forall|c: int| 0 <= c < nb && (free.contains(c as usize)
            || exists|k: int| j <= k < pivots.len() && pivots[k] == c) implies #[trigger] r[c] == x[c] by {
            if c != p {
                if !free.contains(c as usize) {
                    let k = choose|k: int| j <= k < pivots.len() && pivots[k] == c;
                    assert(k != j);
                    assert(exists|k2: int| j + 1 <= k2 < pivots.len() && pivots[k2] == c);
                }
            }
        }
    } else {
        assert forall|c: int| 0 <= c < nb && (free.contains(c as usize)
            || exists|k: int| j <= k < pivots.len() && pivots[k] == c)
            implies #[trigger] bs_counts(rows, pivots, nb, s, j)->0[c] == x[c] by {
            assert(free.contains(c as usize));
        }
    }
}

proof fn lemma_row_sum_zero(row: Seq<i64>, lo: int, hi: int, n: int)
    requires
        0 <= lo <= hi <= n,
    ensures
        row_sum(row, Seq::new(n as nat, |i: int| 0i64), lo, hi) == 0,
    decreases hi - lo,
{
    if hi > lo {
        lemma_row_sum_zero(row, lo, hi - 1, n);
        let z = Seq::new(n as nat, |i: int| 0i64);
        assert(z[hi - 1] == 0);
        assert(row[hi - 1] * z[hi - 1] == 0);
    }
}

/// The answer that a reduced system `e` with free columns `free` gives:
/// `unique_answer` with no free column, else the least cost over the
/// searched range of the free values (`box_best`).
pub open spec fn reduced_answer(m: Machine, e: Echelon<i64>, free: Seq<usize>) -> Option<i64> {
    if free.len() == 0 {
        unique_answer(m, e)
    } else {
        box_best(m, e, free, Seq::empty(), range_for(largest_target(m.joltage@), free.len() as int) as i64)
    }
}

proof fn lemma_box_le(m: Machine, e: Echelon<i64>, free: Seq<usize>, prefix: Seq<i64>, max_val: i64, vals: Seq<i64>)
    requires
        search_ready(m, e, free),
        vals.len() == free.len(),
        prefix.len() <= free.len(),
        prefix == vals.take(prefix.len() as int),
        forall|k: int| prefix.len() <= k < vals.len() ==> 0 <= #[trigger] vals[k] <= max_val,
        leaf_cost(m, e, free, vals) is Some,
    ensures
        box_best(m, e, free, prefix, max_val) matches Some(b) && b <= leaf_cost(m, e, free, vals)->0,
    decreases free.len() - prefix.len(), clip(max_val) + 2,
{
    if prefix.len() >= free.len() {
        assert(prefix =~= vals);
    } else {
        lemma_range_le(m, e, free, prefix, max_val, 0, vals);
    }
}

proof fn lemma_range_le(m: Machine, e: Echelon<i64>, free: Seq<usize>, prefix: Seq<i64>, max_val: i64, v: int, vals: Seq<i64>)
    requires
        search_ready(m, e, free),
        vals.len() == free.len(),
        prefix.len() < free.len(),
        prefix == vals.take(prefix.len() as int),
        forall|k: int| prefix.len() <= k < vals.len() ==> 0 <= #[trigger] vals[k] <= max_val,
        0 <= v <= vals[prefix.len() as int],
        leaf_cost(m, e, free, vals) is Some,
    ensures
        range_best(m, e, free, prefix, max_val, v) matches Some(b) && b <= leaf_cost(m, e, free, vals)->0,
    decreases free.len() - prefix.len(), clip(max_val) + 1 - v,
{
    let i = prefix.len() as int;
    if v == vals[i] {
        let p2 = prefix.push(v as i64);
        assert(p2 =~= vals.take(i + 1));
        lemma_box_le(m, e, free, p2, max_val, vals);
    } else {
        lemma_range_le(m, e, free, prefix, max_val, v + 1, vals);
    }
}

/// `x` is a non-negative solution whose free values lie in `0..=range` and
/// whose back substitution from those free values stays within `i64`, with a
/// total that fits `i64`: a solution that the search is sure to meet.
pub open spec fn in_search_box(m: Machine, e: Echelon<i64>, free: Seq<usize>, range: int, x: Seq<i64>) -> bool {
    &&& x.len() == e.n_buttons
    &&& all_non_negative(x)
    &&& solves_counters(m.joltage@, m.buttons@, x)
    &&& forall|k: int| 0 <= k < free.len() ==> #[trigger] x[free[k] as int] <= range
    &&& bs_counts(e.rows@, e.pivot_cols@, e.n_buttons as int,
        seed_counts(e.n_buttons as nat, free, free_values_of(x, free), free.len() as int), 0) is Some
    &&& abs_sum(x) <= i64::MAX
}

/// Every solution with back substitution within `i64` is its own candidate.
proof fn lemma_solution_candidate(m: Machine, e: Echelon<i64>, free: Seq<usize>, x: Seq<i64>)
    requires
        free_columns_of(m, e, free),
        x.len() == e.n_buttons,
        solves_counters(m.joltage@, m.buttons@, x),
        bs_counts(e.rows@, e.pivot_cols@, e.n_buttons as int,
            seed_counts(e.n_buttons as nat, free, free_values_of(x, free), free.len() as int), 0) is Some,
    ensures
        bs_counts(e.rows@, e.pivot_cols@, e.n_buttons as int,
            seed_counts(e.n_buttons as nat, free, free_values_of(x, free), free.len() as int), 0) == Some(x),
{
    let nb = e.n_buttons as int;
    let vals = free_values_of(x, free);
    lemma_seed_counts(nb as nat, free, vals, free.len() as int);
    let sd = seed_counts(nb as nat, free, vals, free.len() as int);
    assert forall|c: usize| #[trigger] free.contains(c) implies sd[c as int] == x[c as int] by {
        let k = choose|k: int| 0 <= k < free.len() && free[k] == c;
        assert(sd[free[k] as int] == vals[k]);
    }
    lemma_int_rebuild(m, e, free, x, sd, 0);
    let t = bs_counts(e.rows@, e.pivot_cols@, nb, sd, 0)->0;
    assert forall|c: int| 0 <= c < nb implies t[c] == x[c] by {
        if !free.contains(c as usize) {
            assert(e.pivot_cols@.contains(c as usize));
            let k = choose|k: int| 0 <= k < e.pivot_cols@.len() && e.pivot_cols@[k] == c as usize;
            assert(exists|k2: int| 0 <= k2 < e.pivot_cols@.len() && e.pivot_cols@[k2] == c);
        }
    }
    assert(t =~= x);
}

/// Fewest total presses for a reduced system (see `reduced_answer`): with no
/// free button the single candidate is checked and costed by the sum of the
/// absolute values of its press counts; with free buttons a bounded search
/// keeps only non-negative solutions.
pub fn solve_reduced_joltage(machine: &Machine, e: &Echelon<i64>, free_vars: &Vec<usize>) -> (r: Option<i64>)
    requires
        free_columns_of(*machine, *e, free_vars@),
    ensures
        r == reduced_answer(*machine, *e, free_vars@),
        r matches Some(c) ==> reachable_cost(*machine, c) && c >= 0,
        free_vars.len() == 0 ==> forall|x: Seq<i64>| x.len() == e.n_buttons && solves_counters(machine.joltage@, machine.buttons@, x)
            && bs_counts(e.rows@, e.pivot_cols@, e.n_buttons as int, Seq::new(e.n_buttons as nat, |j: int| 0i64), 0) is Some
            ==> r == magnitude_of(x),
        free_vars.len() > 0 ==> forall|x: Seq<i64>|
            #[trigger] in_search_box(*machine, *e, free_vars@, range_for(largest_target(machine.joltage@), free_vars.len() as int), x)
            ==> (r matches Some(c) && c <= abs_sum(x)),
{
    let nb = e.n_buttons;
    let num_free = free_vars.len();
    if num_free == 0 {
        let mut start: Vec<i64> = Vec::new();
        let mut j: usize = 0;
        while j < nb
            invariant
                j <= nb,
                start@ == Seq::new(j as nat, |c: int| 0i64),
            decreases nb - j,
        {
            start.push(0);
            j += 1;
            assert(start@ == Seq::new(j as nat, |c: int| 0i64));
        }
        let s = match back_substitute_counts(e, start) {
            Some(s) => s,
            None => return None,
        };
        if !counters_match(&machine.joltage, &machine.buttons, &s) {
            proof {
                assert forall|x: Seq<i64>| x.len() == e.n_buttons && solves_counters(machine.joltage@, machine.buttons@, x)
                    && bs_counts(e.rows@, e.pivot_cols@, e.n_buttons as int, Seq::new(e.n_buttons as nat, |j: int| 0i64), 0) is Some
                    implies false by {
                    assert(seed_counts(nb as nat, free_vars@, free_values_of(x, free_vars@), 0) == Seq::new(nb as nat, |j: int| 0i64));
                    lemma_solution_candidate(*machine, *e, free_vars@, x);
                }
            }
            return None;
        }
        let r = total_magnitude(&s);
        proof {
            if r is Some {
                lemma_abs_sum_at_least_zero(s@);
            }
            assert forall|x: Seq<i64>| x.len() == e.n_buttons && solves_counters(machine.joltage@, machine.buttons@, x)
                && bs_counts(e.rows@, e.pivot_cols@, e.n_buttons as int, Seq::new(e.n_buttons as nat, |j: int| 0i64), 0) is Some
                implies r == magnitude_of(x) by {
                assert(seed_counts(nb as nat, free_vars@, free_values_of(x, free_vars@), 0) == Seq::new(nb as nat, |j: int| 0i64));
                lemma_solution_candidate(*machine, *e, free_vars@, x);
            }
        }
        return r;
    }
    let range = search_range(&machine.joltage, num_free);
    let mut free_values: Vec<i64> = Vec::new();
    let mut k: usize = 0;
    while k < num_free
        invariant
            k <= num_free,
            free_values.len() == k,
        decreases num_free - k,
    {
        free_values.push(0);
        k += 1;
    }
    let mut min_cost: Option<i64> = None;
    let ghost start_values = free_values@;
    try_free_variables(machine, e, free_vars, 0, &mut free_values, range, &mut min_cost);
    proof {
        assert(start_values.take(0) =~= Seq::<i64>::empty());
        lemma_box_lower(*machine, *e, free_vars@, Seq::empty(), range);
        assert forall|x: Seq<i64>|
            #[trigger] in_search_box(*machine, *e, free_vars@, range_for(largest_target(machine.joltage@), free_vars.len() as int), x)
            implies (min_cost matches Some(c) && c <= abs_sum(x)) by {
            let vals = free_values_of(x, free_vars@);
            lemma_solution_candidate(*machine, *e, free_vars@, x);
            lemma_abs_sum_at_least_zero(x);
            assert(leaf_cost(*machine, *e, free_vars@, vals) == Some(abs_sum(x) as i64));
            assert(Seq::<i64>::empty() =~= vals.take(0));
            lemma_box_le(*machine, *e, free_vars@, Seq::empty(), range, vals);
        }
        if min_cost is Some {
            let c = min_cost->0;
            let x = choose|x: Seq<i64>| solves_counters(machine.joltage@, machine.buttons@, x) && abs_sum(x) == c as int;
            lemma_abs_sum_at_least_zero(x);
        }
    }
    min_cost
}

/// The augmented counter matrix of a machine (see `build_counter_matrix`).
pub open spec fn counter_matrix_spec(m: Machine) -> Seq<Seq<i64>> {
    Seq::new(m.joltage.len() as nat, |i: int| Seq::new((m.buttons.len() + 1) as nat, |j: int|
        if j < m.buttons.len() { if touches(m.buttons@, j, i) { 1i64 } else { 0i64 } } else { m.joltage@[i] }))
}

/// The reduced rows of an elimination result.
pub open spec fn elim_rows_of(o: Option<(Seq<Seq<i64>>, Seq<usize>)>) -> Seq<Seq<i64>> {
    match o {
        Some((rs, _)) => rs,
        None => Seq::empty(),
    }
}

/// The pivot columns of an elimination result.
pub open spec fn elim_pivots_of(o: Option<(Seq<Seq<i64>>, Seq<usize>)>) -> Seq<usize> {
    match o {
        Some((_, ps)) => ps,
        None => Seq::empty(),
    }
}

/// What the counter solver answers for `m`. `None` when the checked
/// elimination (`elim_spec`) leaves `i64`. Otherwise the answer of the
/// reduced system it produces (`reduced_answer`), which has the machine's
/// solutions and echelon shape. With no free button, when some solution's back
/// substitution stays within `i64`, that answer is the sum of the absolute values
/// of the solution's press counts (`magnitude_of`). With free buttons, the
/// answer is present and at most the total of every non-negative solution that
/// the search range covers (`in_search_box`).
pub open spec fn joltage_outcome(m: Machine, r: Option<i64>) -> bool {
    let el = elim_spec(counter_matrix_spec(m), m.buttons.len() as int);
    &&& el is None ==> r is None
    &&& el is Some ==> exists|e: Echelon<i64>, free: Seq<usize>| #[trigger] free_columns_of(m, e, free)
        && views_i(e.rows@) == elim_rows_of(el) && e.pivot_cols@ == elim_pivots_of(el)
        && r == reduced_answer(m, e, free)
        && (free.len() == 0 ==> forall|x: Seq<i64>| x.len() == e.n_buttons && solves_counters(m.joltage@, m.buttons@, x)
            && bs_counts(e.rows@, e.pivot_cols@, e.n_buttons as int, Seq::new(e.n_buttons as nat, |j: int| 0i64), 0) is Some
            ==> r == magnitude_of(x))
        && (free.len() > 0 ==> forall|x: Seq<i64>|
            #[trigger] in_search_box(m, e, free, range_for(largest_target(m.joltage@), free.len() as int), x)
            ==> (r matches Some(c) && c <= abs_sum(x)))
}

/// Fewest total presses that bring every counter exactly to its target:
/// fraction-free elimination, then `solve_reduced_joltage` on the reduced
/// system (see `joltage_outcome`). `None` when the elimination leaves `i64`,
/// or when the reduced system gives no answer (in particular when no press
/// vector reaches the targets, or none that is non-negative lies in the
/// searched range).
pub fn solve_machine_joltage(machine: &Machine) -> (r: Option<i64>)
    requires
        machine.buttons.len() < usize::MAX,
    ensures
        r matches Some(c) ==> reachable_cost(*machine, c) && c >= 0,
        (forall|x: Seq<i64>| !solves_counters(machine.joltage@, machine.buttons@, x)) ==> r is None,
        r is Some ==> exists|e: Echelon<i64>, free: Seq<usize>| #[trigger] free_columns_of(*machine, e, free)
            && r == reduced_answer(*machine, e, free),
        joltage_outcome(*machine, r),
{
    let nb = machine.buttons.len();
    let matrix = build_counter_matrix(&machine.joltage, &machine.buttons);
    proof {
        assert forall|i: int| 0 <= i < matrix.len() implies #[trigger] views_i(matrix@)[i] == counter_matrix_spec(*machine)[i] by {
            assert(views_i(matrix@)[i] =~= counter_matrix_spec(*machine)[i]);
        }
        assert(views_i(matrix@) =~= counter_matrix_spec(*machine));
    }
    let ghost mv = matrix@;
    let e = match reduce_counter_matrix(matrix, nb) {
        Some(e) => e,
        None => return None,
    };
    let free_vars = free_columns(&e.pivot_cols, nb);
    proof {
        assert forall|k: int, q: int| 0 <= k < free_vars.len() && 0 <= q < e.pivot_cols.len()
            implies free_vars@[k] != e.pivot_cols@[q] by {
            assert(free_vars@.contains(free_vars@[k]));
            assert(e.pivot_cols@.contains(e.pivot_cols@[q]));
        }
        assert forall|x: Seq<i64>| x.len() == e.n_buttons implies (int_system_holds(e.rows@, x, e.n_buttons as int)
            <==> solves_counters(machine.joltage@, machine.buttons@, x)) by {
            lemma_counter_matrix_solutions(matrix@, machine.joltage@, machine.buttons@, x);
        }
        assert(free_columns_of(*machine, e, free_vars@));
    }
    let r = solve_reduced_joltage(machine, &e, &free_vars);
    proof {
        let el = elim_spec(counter_matrix_spec(*machine), nb as int);
        assert(el == Some((views_i(e.rows@), e.pivot_cols@)));
        assert(free_columns_of(*machine, e, free_vars@) && views_i(e.rows@) == elim_rows_of(el)
            && e.pivot_cols@ == elim_pivots_of(el));
    }
    r
}

} // verus!
