//! Row echelon systems shared by the two solvers: the reduced rows, their
//! pivot columns, and the free columns left over.

use vstd::prelude::*;
use crate::machine::button_touches;

verus! {

/// A linear system in row echelon form: row `k` has its pivot in
/// column `pivot_cols[k]`; the last column of each row is the right-hand side.
pub struct Echelon<T> {
    pub rows: Vec<Vec<T>>,
    pub pivot_cols: Vec<usize>,
    pub n_buttons: usize,
}

impl<T> Echelon<T> {
    /// Each row has a column per button plus the right-hand side; pivot
    /// columns name buttons and increase down the rows.
    pub open spec fn wf(&self) -> bool {
        &&& self.pivot_cols.len() <= self.rows.len()
        &&& forall|r: int| 0 <= r < self.rows.len() ==> #[trigger] self.rows@[r]@.len() == self.n_buttons + 1
        &&& forall|k: int| 0 <= k < self.pivot_cols.len() ==> #[trigger] self.pivot_cols@[k] < self.n_buttons
        &&& forall|a: int, b: int| 0 <= a < b < self.pivot_cols.len() ==> self.pivot_cols@[a] < self.pivot_cols@[b]
    }
}

/// Copy of a row.
pub fn copy_row<T: Copy>(v: &Vec<T>) -> (r: Vec<T>)
    ensures
        r@ == v@,
{
    let mut r: Vec<T> = Vec::new();
    let mut k: usize = 0;
    while k < v.len()
        invariant
            k <= v.len(),
            r@ == v@.take(k as int),
        decreases v.len() - k,
    {
        r.push(v[k]);
        k += 1;
        assert(r@ == v@.take(k as int));
    }
    assert(v@.take(v.len() as int) == v@);
    r
}

/// The columns below `n` that are not pivot columns, in increasing order.
pub fn free_columns(pivot_cols: &Vec<usize>, n: usize) -> (f: Vec<usize>)
    ensures
        forall|k: int| 0 <= k < f.len() ==> #[trigger] f@[k] < n,
        forall|c: usize| #[trigger] f@.contains(c) <==> (c < n && !pivot_cols@.contains(c)),
        forall|a: int, b: int| 0 <= a < b < f.len() ==> f@[a] < f@[b],
{
    let mut f: Vec<usize> = Vec::new();
    let mut c: usize = 0;
    while c < n
        invariant
            c <= n,
            forall|k: int| 0 <= k < f.len() ==> #[trigger] f@[k] < c,
            forall|d: usize| #[trigger] f@.contains(d) <==> (d < c && !pivot_cols@.contains(d)),
            forall|a: int, b: int| 0 <= a < b < f.len() ==> f@[a] < f@[b],
        decreases n - c,
    {
        let ghost before = f@;
        if !button_touches(pivot_cols, c) {
            f.push(c);
            assert forall|d: usize| #[trigger] f@.contains(d) <==> (d < c + 1 && !pivot_cols@.contains(d)) by {
                if f@.contains(d) {
                    let k = choose|k: int| 0 <= k < f.len() && f@[k] == d;
                    if k < before.len() {
                        assert(before.contains(d));
                    }
                }
                if d < c && !pivot_cols@.contains(d) {
                    assert(before.contains(d));
                    let k = choose|k: int| 0 <= k < before.len() && before[k] == d;
                    assert(f@[k] == d);
                }
                if d == c && !pivot_cols@.contains(d) {
                    assert(f@[f.len() - 1] == d);
                }
            }
        } else {
            assert forall|d: usize| #[trigger] f@.contains(d) <==> (d < c + 1 && !pivot_cols@.contains(d)) by {
                if f@.contains(d) {
                    assert(d < c);
                }
            }
        }
        c += 1;
    }
    f
}

} // verus!
