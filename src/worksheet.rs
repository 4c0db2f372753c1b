//! A worksheet of problems: columns of numbers, each combined by `+` or `*`.

use vstd::prelude::*;

verus! {

/// The problems of a worksheet: `numbers[i]` are combined by `operators[i]`.
pub struct Worksheet {
    pub numbers: Vec<Vec<u64>>,
    pub operators: Vec<char>,
}

/// Sum of `s`.
pub open spec fn total(s: Seq<u64>) -> int
    decreases s.len(),
{
    if s.len() == 0 { 0 } else { total(s.drop_last()) + s.last() }
}

/// Product of `s`.
pub open spec fn product(s: Seq<u64>) -> int
    decreases s.len(),
{
    if s.len() == 0 { 1 } else { product(s.drop_last()) * s.last() }
}

/// Answer to problem `i`: the sum of its numbers for `+`, else their product.
pub open spec fn answer(w: Worksheet, i: int) -> int {
    if w.operators@[i] == '+' { total(w.numbers@[i]@) } else { product(w.numbers@[i]@) }
}

/// Every partial product of `s` fits `u64`.
pub open spec fn products_fit(s: Seq<u64>) -> bool {
    forall|k: int| 0 <= k <= s.len() ==> #[trigger] product(s.take(k)) <= u64::MAX
}

/// Problem `i` can be worked in `u64`: its sum, or every partial product, fits.
pub open spec fn answer_fits(w: Worksheet, i: int) -> bool {
    if w.operators@[i] == '+' { total(w.numbers@[i]@) <= u64::MAX } else { products_fit(w.numbers@[i]@) }
}

proof fn lemma_answer_nonneg(w: Worksheet, i: int)
    requires
        0 <= i < w.operators.len(),
        i < w.numbers.len(),
    ensures
        answer(w, i) >= 0,
{
    lemma_total_nonneg(w.numbers@[i]@);
    lemma_product_nonneg(w.numbers@[i]@);
}

proof fn lemma_total_nonneg(s: Seq<u64>)
    ensures
        total(s) >= 0,
    decreases s.len(),
{
    if s.len() > 0 {
        lemma_total_nonneg(s.drop_last());
    }
}

proof fn lemma_product_nonneg(s: Seq<u64>)
    ensures
        product(s) >= 0,
    decreases s.len(),
{
    if s.len() > 0 {
        lemma_product_nonneg(s.drop_last());
        assert(product(s.drop_last()) * s.last() >= 0) by (nonlinear_arith)
            requires
                product(s.drop_last()) >= 0,
        ;
    }
}

proof fn lemma_grand_total_mono(w: Worksheet, a: int, b: int)
    requires
        0 <= a <= b <= w.operators.len(),
        w.operators.len() <= w.numbers.len(),
    ensures
        grand_total(w, a) <= grand_total(w, b),
    decreases b - a,
{
    if a < b {
        lemma_grand_total_mono(w, a, b - 1);
        lemma_answer_nonneg(w, b - 1);
    }
}

/// Sum of the answers to the first `k` problems.
pub open spec fn grand_total(w: Worksheet, k: int) -> int
    decreases k,
{
    if k <= 0 { 0 } else { grand_total(w, k - 1) + answer(w, k - 1) }
}

/// Rows become columns: `r[c][row] == matrix[row][c]`. The column count is
/// that of the first row; an empty matrix stays empty.
pub fn transpose(matrix: Vec<Vec<u64>>) -> (r: Vec<Vec<u64>>)
    requires
        forall|row: int| 0 <= row < matrix.len() ==> #[trigger] matrix@[row]@.len() == matrix@[0]@.len(),
    ensures
        matrix.len() == 0 ==> r.len() == 0,
        matrix.len() > 0 ==> r.len() == matrix@[0]@.len(),
        forall|c: int| 0 <= c < r.len() ==> #[trigger] r@[c]@.len() == matrix.len(),
        forall|c: int, row: int| 0 <= c < r.len() && 0 <= row < matrix.len() ==> r@[c]@[row] == matrix@[row]@[c],
{
    let mut r: Vec<Vec<u64>> = Vec::new();
    if matrix.len() == 0 {
        return r;
    }
    let rows = matrix.len();
    let cols = matrix[0].len();
    let mut c: usize = 0;
    while c < cols
        invariant
            c <= cols == matrix@[0]@.len(),
            rows == matrix.len(),
            forall|row: int| 0 <= row < rows ==> #[trigger] matrix@[row]@.len() == cols,
            r.len() == c,
            forall|k: int| 0 <= k < c ==> #[trigger] r@[k]@.len() == rows,
            forall|k: int, row: int| 0 <= k < c && 0 <= row < rows ==> r@[k]@[row] == matrix@[row]@[k],
        decreases cols - c,
    {
        let mut column: Vec<u64> = Vec::new();
        let mut row: usize = 0;
        while row < rows
            invariant
                row <= rows == matrix.len(),
                c < cols,
                forall|q: int| 0 <= q < rows ==> #[trigger] matrix@[q]@.len() == cols,
                column.len() == row,
                forall|q: int| 0 <= q < row ==> column@[q] == matrix@[q]@[c as int],
            decreases rows - row,
        {
            assert(matrix@[row as int]@.len() == cols);
            column.push(matrix[row][c]);
            row += 1;
        }
        r.push(column);
        c += 1;
    }
    r
}

/// Sum of `s`, or `None` when it exceeds `u64`.
fn checked_total(s: &Vec<u64>) -> (r: Option<u64>)
    ensures
        r matches Some(v) ==> v == total(s@),
        r is None ==> total(s@) > u64::MAX,
{
    let mut t: u64 = 0;
    let mut k: usize = 0;
    while k < s.len()
        invariant
            k <= s.len(),
            t == total(s@.take(k as int)),
        decreases s.len() - k,
    {
        assert(s@.take(k as int + 1).drop_last() == s@.take(k as int));
        match t.checked_add(s[k]) {
            Some(v) => {
                t = v;
            },
            None => {
                proof {
                    lemma_total_prefix(s@, k as int + 1);
                }
                return None;
            },
        }
        k += 1;
    }
    assert(s@.take(s.len() as int) == s@);
    Some(t)
}

proof fn lemma_total_prefix(s: Seq<u64>, k: int)
    requires
        0 <= k <= s.len(),
    ensures
        total(s.take(k)) <= total(s),
    decreases s.len() - k,
{
    if k < s.len() {
        lemma_total_prefix(s, k + 1);
        assert(s.take(k + 1).drop_last() == s.take(k));
    } else {
        assert(s.take(k) == s);
    }
}

/// Product of `s`, or `None` when a partial product exceeds `u64`.
fn checked_product(s: &Vec<u64>) -> (r: Option<u64>)
    ensures
        r matches Some(v) ==> v == product(s@),
        r is None ==> !products_fit(s@),
{
    let mut t: u64 = 1;
    let mut k: usize = 0;
    while k < s.len()
        invariant
            k <= s.len(),
            t == product(s@.take(k as int)),
        decreases s.len() - k,
    {
        assert(s@.take(k as int + 1).drop_last() == s@.take(k as int));
        match t.checked_mul(s[k]) {
            Some(v) => {
                t = v;
            },
            None => {
                assert(product(s@.take(k + 1)) > u64::MAX);
                return None;
            },
        }
        k += 1;
    }
    assert(s@.take(s.len() as int) == s@);
    Some(t)
}

/// Sum over all problems of their answers; `None` when a value exceeds `u64`.
pub fn solve(parsed: &Worksheet) -> (r: Option<u64>)
    requires
        parsed.operators.len() <= parsed.numbers.len(),
    ensures
        r matches Some(v) ==> v == grand_total(*parsed, parsed.operators.len() as int),
        (forall|i: int| 0 <= i < parsed.operators.len() ==> #[trigger] answer_fits(*parsed, i))
            && grand_total(*parsed, parsed.operators.len() as int) <= u64::MAX ==> r is Some,
{
    let mut sum: u64 = 0;
    let mut i: usize = 0;
    while i < parsed.operators.len()
        invariant
            i <= parsed.operators.len() <= parsed.numbers.len(),
            sum == grand_total(*parsed, i as int),
        decreases parsed.operators.len() - i,
    {
        let a = if parsed.operators[i] == '+' {
            checked_total(&parsed.numbers[i])
        } else {
            checked_product(&parsed.numbers[i])
        };
        match a {
            Some(a) => match sum.checked_add(a) {
                Some(v) => {
                    sum = v;
                },
                None => {
                    proof {
                        lemma_grand_total_mono(*parsed, i + 1, parsed.operators.len() as int);
                    }
                    return None;
                },
            },
            None => {
                assert(!answer_fits(*parsed, i as int));
                return None;
            },
        }
        i += 1;
    }
    Some(sum)
}

} // verus!
