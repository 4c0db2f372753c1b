//! Rolls of paper (`@`) on a grid, and which of them a forklift can reach:
//! those with fewer than four rolls among their eight neighbours.

use vstd::prelude::*;
use crate::echelon::copy_row;

verus! {

/// Every row of the grid has `m` cells.
pub open spec fn rectangular(grid: Seq<Vec<char>>, m: int) -> bool {
    forall|r: int| 0 <= r < grid.len() ==> #[trigger] grid[r]@.len() == m
}

/// Every row of the grid has at least `m` cells.
pub open spec fn wide_enough(grid: Seq<Vec<char>>, m: int) -> bool {
    forall|r: int| 0 <= r < grid.len() ==> #[trigger] grid[r]@.len() >= m
}

/// The cell `(i, j)` is on the grid and holds a roll.
pub open spec fn roll_at(grid: Seq<Vec<char>>, m: int, i: int, j: int) -> bool {
    0 <= i < grid.len() && 0 <= j < m && grid[i]@[j] == '@'
}

/// Rolls among the neighbours `d < k` of `(i, j)`, neighbour `d` being the
/// offset `(d / 3 - 1, d % 3 - 1)` and `d == 4` the cell itself, skipped.
pub open spec fn neighbours(grid: Seq<Vec<char>>, m: int, i: int, j: int, k: int) -> nat
    decreases k,
{
    if k <= 0 {
        0
    } else {
        neighbours(grid, m, i, j, k - 1) + if k - 1 != 4 && roll_at(grid, m, i + (k - 1) / 3 - 1, j + (k - 1) % 3 - 1) {
            1nat
        } else {
            0nat
        }
    }
}

/// Rolls among the eight neighbours of `(i, j)`.
pub open spec fn adjacent(grid: Seq<Vec<char>>, m: int, i: int, j: int) -> nat {
    neighbours(grid, m, i, j, 9)
}

/// Number of rolls among the eight neighbours of `(i, j)` on an `n` by `m` grid.
pub fn count_adjacent(grid: &Vec<Vec<char>>, i: usize, j: usize, n: usize, m: usize) -> (r: u32)
    requires
        n == grid.len(),
        wide_enough(grid@, m as int),
        i < n,
        j < m,
    ensures
        r == adjacent(grid@, m as int, i as int, j as int),
{
    let mut count: u32 = 0;
    let mut d: usize = 0;
    while d < 9
        invariant
            d <= 9,
            n == grid.len(),
            wide_enough(grid@, m as int),
            i < n,
            j < m,
            count == neighbours(grid@, m as int, i as int, j as int, d as int),
            count <= d,
        decreases 9 - d,
    {
        if d != 4 {
            let di = d / 3;
            let dj = d % 3;
            let row_ok = if di == 0 { i >= 1 } else if di == 1 { true } else { i + 1 < n };
            let col_ok = if dj == 0 { j >= 1 } else if dj == 1 { true } else { j + 1 < m };
            if row_ok && col_ok {
                let ni = if di == 0 { i - 1 } else if di == 1 { i } else { i + 1 };
                let nj = if dj == 0 { j - 1 } else if dj == 1 { j } else { j + 1 };
                assert(grid@[ni as int]@.len() >= m);
                if grid[ni][nj] == '@' {
                    count += 1;
                }
            }
        }
        d += 1;
    }
    count
}

/// Reachable rolls in the cells `(i, c)` with `c < j`.
pub open spec fn reachable_in_row(grid: Seq<Vec<char>>, m: int, i: int, j: int) -> nat
    decreases j,
{
    if j <= 0 {
        0
    } else {
        reachable_in_row(grid, m, i, j - 1) + if grid[i]@[j - 1] != '.' && adjacent(grid, m, i, j - 1) < 4 {
            1nat
        } else {
            0nat
        }
    }
}

/// Reachable rolls in the rows before `i`.
pub open spec fn reachable(grid: Seq<Vec<char>>, m: int, i: int) -> nat
    decreases i,
{
    if i <= 0 {
        0
    } else {
        reachable(grid, m, i - 1) + reachable_in_row(grid, m, i - 1, m)
    }
}

/// Number of occupied cells with fewer than four rolls around them.
pub fn part1(grid: &Vec<Vec<char>>) -> (r: u64)
    requires
        grid.len() >= 1,
        rectangular(grid@, grid@[0]@.len() as int),
        grid.len() * grid@[0]@.len() <= u64::MAX,
    ensures
        r == reachable(grid@, grid@[0]@.len() as int, grid.len() as int),
{
    let n = grid.len();
    let m = grid[0].len();
    let mut sum: u64 = 0;
    let mut i: usize = 0;
    while i < n
        invariant
            i <= n == grid.len(),
            m == grid@[0]@.len(),
            rectangular(grid@, m as int),
            sum == reachable(grid@, m as int, i as int),
            sum <= i * m,
            n * m <= u64::MAX,
        decreases n - i,
    {
        let mut row_sum: u64 = 0;
        let mut j: usize = 0;
        while j < m
            invariant
                i < n == grid.len(),
                j <= m == grid@[0]@.len(),
                rectangular(grid@, m as int),
                row_sum == reachable_in_row(grid@, m as int, i as int, j as int),
                row_sum <= j,
            decreases m - j,
        {
            assert(grid@[i as int]@.len() == m);
            if grid[i][j] != '.' && count_adjacent(grid, i, j, n, m) < 4 {
                row_sum += 1;
            }
            j += 1;
        }
        assert(sum + row_sum <= (i + 1) * m) by (nonlinear_arith)
            requires
                sum <= i * m,
                row_sum <= m,
        ;
        assert((i + 1) * m <= n * m) by (nonlinear_arith)
            requires
                i < n,
        ;
        sum += row_sum;
        i += 1;
    }
    sum
}

/// Cells of row `i` before column `j` that differ between `a` and `b`.
pub open spec fn changed_in_row(a: Seq<Vec<char>>, b: Seq<Vec<char>>, i: int, j: int) -> nat
    decreases j,
{
    if j <= 0 {
        0
    } else {
        changed_in_row(a, b, i, j - 1) + if a[i]@[j - 1] != b[i]@[j - 1] { 1nat } else { 0nat }
    }
}

/// Cells of the rows before `i` (of `m` columns) that differ between `a` and `b`.
pub open spec fn changed(a: Seq<Vec<char>>, b: Seq<Vec<char>>, m: int, i: int) -> nat
    decreases i,
{
    if i <= 0 {
        0
    } else {
        changed(a, b, m, i - 1) + changed_in_row(a, b, i - 1, m)
    }
}

proof fn lemma_changed_in_row_frame(a: Seq<Vec<char>>, b: Seq<Vec<char>>, c: Seq<Vec<char>>, i: int, j: int)
    requires
        forall|k: int| 0 <= k < j ==> b[i]@[k] == c[i]@[k],
    ensures
        changed_in_row(a, b, i, j) == changed_in_row(a, c, i, j),
    decreases j,
{
    if j > 0 {
        lemma_changed_in_row_frame(a, b, c, i, j - 1);
    }
}

proof fn lemma_changed_frame(a: Seq<Vec<char>>, b: Seq<Vec<char>>, c: Seq<Vec<char>>, m: int, i: int)
    requires
        forall|r: int| 0 <= r < i ==> #[trigger] b[r]@ == c[r]@,
    ensures
        changed(a, b, m, i) == changed(a, c, m, i),
    decreases i,
{
    if i > 0 {
        lemma_changed_frame(a, b, c, m, i - 1);
        lemma_changed_in_row_frame(a, b, c, i - 1, m);
    }
}

/// The rows of the grid as sequences.
pub open spec fn grid_views(g: Seq<Vec<char>>) -> Seq<Seq<char>> {
    Seq::new(g.len(), |i: int| g[i]@)
}

/// `roll_at`, over rows as sequences.
pub open spec fn roll_at_v(g: Seq<Seq<char>>, m: int, i: int, j: int) -> bool {
    0 <= i < g.len() && 0 <= j < m && g[i][j] == '@'
}

/// `neighbours`, over rows as sequences.
pub open spec fn neighbours_v(g: Seq<Seq<char>>, m: int, i: int, j: int, k: int) -> nat
    decreases k,
{
    if k <= 0 {
        0
    } else {
        neighbours_v(g, m, i, j, k - 1) + if k - 1 != 4 && roll_at_v(g, m, i + (k - 1) / 3 - 1, j + (k - 1) % 3 - 1) {
            1nat
        } else {
            0nat
        }
    }
}

/// The sweep's visit of cell `(i, j)`: cleared when occupied with fewer than
/// four rolls around it, as the grid stands.
pub open spec fn sweep_step(g: Seq<Seq<char>>, m: int, i: int, j: int) -> Seq<Seq<char>> {
    if g[i][j] != '.' && neighbours_v(g, m, i, j, 9) < 4 { g.update(i, g[i].update(j, '.')) } else { g }
}

/// The grid after the sweep has visited cells `(i, 0..j)`.
pub open spec fn sweep_row(g: Seq<Seq<char>>, m: int, i: int, j: int) -> Seq<Seq<char>>
    decreases j,
{
    if j <= 0 { g } else { sweep_step(sweep_row(g, m, i, j - 1), m, i, j - 1) }
}

/// The grid after the sweep has visited rows `0..i` (of `m` cells) in order.
pub open spec fn sweep_rows(g: Seq<Seq<char>>, m: int, i: int) -> Seq<Seq<char>>
    decreases i,
{
    if i <= 0 { g } else { sweep_row(sweep_rows(g, m, i - 1), m, i - 1, m) }
}

proof fn lemma_neighbours_views(g: Seq<Vec<char>>, m: int, i: int, j: int, k: int)
    ensures
        neighbours(g, m, i, j, k) == neighbours_v(grid_views(g), m, i, j, k),
    decreases k,
{
    if k > 0 {
        lemma_neighbours_views(g, m, i, j, k - 1);
        let a = i + (k - 1) / 3 - 1;
        if 0 <= a < g.len() {
            assert(grid_views(g)[a] == g[a]@);
        }
    }
}

/// One sweep in reading order: each occupied cell with fewer than four rolls
/// around it, counted on the grid as the sweep has left it so far, is
/// cleared. Returns the number of cells cleared.
pub fn part2(grid: &mut Vec<Vec<char>>) -> (r: u64)
    requires
        old(grid).len() >= 1,
        rectangular(old(grid)@, old(grid)@[0]@.len() as int),
        old(grid).len() * old(grid)@[0]@.len() <= u64::MAX,
    ensures
        final(grid).len() == old(grid).len(),
        rectangular(final(grid)@, old(grid)@[0]@.len() as int),
        forall|i: int, j: int| 0 <= i < old(grid).len() && 0 <= j < old(grid)@[0]@.len()
            ==> #[trigger] final(grid)@[i]@[j] == old(grid)@[i]@[j] || (old(grid)@[i]@[j] != '.' && final(grid)@[i]@[j] == '.'),
        r == changed(old(grid)@, final(grid)@, old(grid)@[0]@.len() as int, old(grid).len() as int),
        grid_views(final(grid)@) == sweep_rows(grid_views(old(grid)@), old(grid)@[0]@.len() as int, old(grid).len() as int),
{
    let ghost start = grid@;
    let n = grid.len();
    let m = grid[0].len();
    let mut sum: u64 = 0;
    let mut i: usize = 0;
    while i < n
        invariant
            i <= n == grid.len() == start.len(),
            m == start[0]@.len(),
            rectangular(grid@, m as int),
            rectangular(start, m as int),
            n * m <= u64::MAX,
            forall|a: int, b: int| 0 <= a < n && 0 <= b < m
                ==> #[trigger] grid@[a]@[b] == start[a]@[b] || (start[a]@[b] != '.' && grid@[a]@[b] == '.'),
            forall|a: int| i <= a < n ==> #[trigger] grid@[a]@ == start[a]@,
            sum == changed(start, grid@, m as int, i as int),
            sum <= i * m,
            grid_views(grid@) == sweep_rows(grid_views(start), m as int, i as int),
        decreases n - i,
    {
        let mut row_sum: u64 = 0;
        let mut j: usize = 0;
        let ghost row_start = grid@;
        let ghost vr = grid_views(grid@);
        while j < m
            invariant
                vr == sweep_rows(grid_views(start), m as int, i as int),
                grid_views(grid@) == sweep_row(vr, m as int, i as int, j as int),
                i < n == grid.len() == start.len(),
                j <= m == start[0]@.len(),
                rectangular(grid@, m as int),
                rectangular(start, m as int),
                forall|a: int, b: int| 0 <= a < n && 0 <= b < m
                    ==> #[trigger] grid@[a]@[b] == start[a]@[b] || (start[a]@[b] != '.' && grid@[a]@[b] == '.'),
                forall|a: int| i < a < n ==> #[trigger] grid@[a]@ == start[a]@,
                forall|b: int| j <= b < m ==> grid@[i as int]@[b] == start[i as int]@[b],
                forall|a: int| 0 <= a < i ==> #[trigger] grid@[a]@ == row_start[a]@,
                row_sum == changed_in_row(start, grid@, i as int, j as int),
                row_sum <= j,
            decreases m - j,
        {
            assert(grid@[i as int]@.len() == m);
            let ghost cur = grid_views(grid@);
            proof {
                lemma_neighbours_views(grid@, m as int, i as int, j as int, 9);
                assert(cur[i as int] == grid@[i as int]@);
            }
            if grid[i][j] != '.' && count_adjacent(grid, i, j, n, m) < 4 {
                let ghost before = grid@;
                let mut row = copy_row(&grid[i]);
                row[j] = '.';
                grid[i] = row;
                proof {
                    assert forall|a: int| 0 <= a < n && a != i implies #[trigger] grid@[a]@ == before[a]@ by {}
                    assert forall|b: int| 0 <= b < m && b != j implies grid@[i as int]@[b] == before[i as int]@[b] by {}
                    assert(start[i as int]@[j as int] == before[i as int]@[j as int]);
                    lemma_changed_in_row_frame(start, before, grid@, i as int, j as int);
                    assert(grid_views(grid@) =~= cur.update(i as int, cur[i as int].update(j as int, '.')));
                }
                row_sum += 1;
            }
            j += 1;
        }
        proof {
            lemma_changed_frame(start, row_start, grid@, m as int, i as int);
        }
        assert(sum + row_sum <= (i + 1) * m) by (nonlinear_arith)
            requires
                sum <= i * m,
                row_sum <= m,
        ;
        assert((i + 1) * m <= n * m) by (nonlinear_arith)
            requires
                i < n,
        ;
        sum += row_sum;
        i += 1;
    }
    sum
}

} // verus!
