//! Rectangles spanned by pairs of red tiles, and whether such a rectangle
//! lies inside the polygon that the tiles outline. All arithmetic is exact
//! (`i128`), so no coordinate range is excluded.

use vstd::prelude::*;
use vstd::string::StringSliceAdditionalSpecFns;
use crate::parse::line_end;
use crate::dial::{signed_value, parse_signed};

verus! {

pub open spec fn min_of(a: int, b: int) -> int {
    if a <= b { a } else { b }
}

pub open spec fn max_of(a: int, b: int) -> int {
    if a >= b { a } else { b }
}

pub open spec fn abs_of(a: int) -> int {
    if a >= 0 { a } else { -a }
}

/// `a * b - c * d`.
pub open spec fn cross(a: int, b: int, c: int, d: int) -> int {
    a * b - c * d
}

/// Division rounding toward zero.
pub open spec fn trunc_div(x: int, d: int) -> int {
    if x == 0 || d == 0 {
        0
    } else if x > 0 && d > 0 {
        x / d
    } else if x < 0 && d < 0 {
        (-x) / (-d)
    } else if x < 0 {
        -((-x) / d)
    } else {
        -(x / (-d))
    }
}

/// The point `(px, py)` lies on the closed segment from `p1` to `p2`.
pub open spec fn on_segment(p1: (i32, i32), p2: (i32, i32), px: i32, py: i32) -> bool {
    &&& min_of(p1.0 as int, p2.0 as int) <= px <= max_of(p1.0 as int, p2.0 as int)
    &&& min_of(p1.1 as int, p2.1 as int) <= py <= max_of(p1.1 as int, p2.1 as int)
    &&& cross(py - p1.1, p2.0 - p1.0, px - p1.0, p2.1 - p1.1) == 0
}

/// `n / d` lies strictly between 0 and 1.
pub open spec fn strictly_unit(n: int, d: int) -> bool {
    (d > 0 && 0 < n < d) || (d < 0 && d < n < 0)
}

/// The open segments `p1 p2` and `q1 q2` cross at a single point interior to both.
pub open spec fn segments_cross(p1: (i32, i32), p2: (i32, i32), q1: (i32, i32), q2: (i32, i32)) -> bool {
    let d = cross(p1.0 - p2.0, q1.1 - q2.1, p1.1 - p2.1, q1.0 - q2.0);
    let t = cross(p1.0 - q1.0, q1.1 - q2.1, p1.1 - q1.1, q1.0 - q2.0);
    let u = -cross(p1.0 - p2.0, p1.1 - q1.1, p1.1 - p2.1, p1.0 - q1.0);
    d != 0 && strictly_unit(t, d) && strictly_unit(u, d)
}

/// Index of the vertex after `i`, wrapping around.
pub open spec fn next(n: int, i: int) -> int {
    if i + 1 == n { 0 } else { i + 1 }
}

/// The point lies on some edge of the polygon.
pub open spec fn on_boundary(poly: Seq<(i32, i32)>, px: i32, py: i32) -> bool {
    exists|i: int| 0 <= i < poly.len() && on_segment(#[trigger] poly[i], poly[next(poly.len() as int, i)], px, py)
}

/// Edge `i` crosses the horizontal ray from the point toward larger `x`.
pub open spec fn ray_crosses(poly: Seq<(i32, i32)>, i: int, px: i32, py: i32) -> bool {
    let (xi, yi) = poly[i];
    let (xj, yj) = poly[next(poly.len() as int, i)];
    (yi > py) != (yj > py) && px < trunc_div((xj - xi) * (py - yi), yj - yi) + xi
}

/// Parity of the edges among the first `k` that the ray crosses.
pub open spec fn odd_crossings(poly: Seq<(i32, i32)>, px: i32, py: i32, k: int) -> bool
    decreases k,
{
    if k <= 0 {
        false
    } else {
        odd_crossings(poly, px, py, k - 1) != ray_crosses(poly, k - 1, px, py)
    }
}

/// On the boundary, or inside by the even-odd rule.
pub open spec fn inside(poly: Seq<(i32, i32)>, px: i32, py: i32) -> bool {
    on_boundary(poly, px, py) || odd_crossings(poly, px, py, poly.len() as int)
}

/// Edge `i` meets the bounding box of the rectangle and crosses one of its sides.
pub open spec fn edge_cuts(poly: Seq<(i32, i32)>, i: int, x1: i32, y1: i32, x2: i32, y2: i32) -> bool {
    let p1 = poly[i];
    let p2 = poly[next(poly.len() as int, i)];
    &&& !(max_of(p1.0 as int, p2.0 as int) < x1 || min_of(p1.0 as int, p2.0 as int) > x2
        || max_of(p1.1 as int, p2.1 as int) < y1 || min_of(p1.1 as int, p2.1 as int) > y2)
    &&& (segments_cross(p1, p2, (x1, y1), (x2, y1)) || segments_cross(p1, p2, (x2, y1), (x2, y2))
        || segments_cross(p1, p2, (x2, y2), (x1, y2)) || segments_cross(p1, p2, (x1, y2), (x1, y1)))
}

/// All four corners are inside and no edge of the polygon cuts a side.
pub open spec fn rectangle_inside(poly: Seq<(i32, i32)>, x1: i32, y1: i32, x2: i32, y2: i32) -> bool {
    &&& inside(poly, x1, y1) && inside(poly, x1, y2) && inside(poly, x2, y1) && inside(poly, x2, y2)
    &&& forall|i: int| 0 <= i < poly.len() ==> !#[trigger] edge_cuts(poly, i, x1, y1, x2, y2)
}

/// Tiles covered by the rectangle with opposite corners `p` and `q`.
pub open spec fn area(p: (i32, i32), q: (i32, i32)) -> int {
    (abs_of(p.0 - q.0) + 1) * (abs_of(p.1 - q.1) + 1)
}

proof fn lemma_product_bound(a: int, b: int, bound: int)
    requires
        -bound <= a <= bound,
        -bound <= b <= bound,
        bound >= 0,
    ensures
        -(bound * bound) <= a * b <= bound * bound,
{
    assert(-(bound * bound) <= a * b <= bound * bound) by (nonlinear_arith)
        requires
            -bound <= a <= bound,
            -bound <= b <= bound,
            bound >= 0,
    ;
}

/// `a * b - c * d` for differences of `i32` values.
fn cross_exact(a: i64, b: i64, c: i64, d: i64) -> (r: i128)
    requires
        -0x1_0000_0000 <= a <= 0x1_0000_0000,
        -0x1_0000_0000 <= b <= 0x1_0000_0000,
        -0x1_0000_0000 <= c <= 0x1_0000_0000,
        -0x1_0000_0000 <= d <= 0x1_0000_0000,
    ensures
        r as int == cross(a as int, b as int, c as int, d as int),
        -0x2_0000_0000_0000_0000 <= r <= 0x2_0000_0000_0000_0000,
{
    proof {
        lemma_product_bound(a as int, b as int, 0x1_0000_0000);
        lemma_product_bound(c as int, d as int, 0x1_0000_0000);
    }
    (a as i128) * (b as i128) - (c as i128) * (d as i128)
}

fn diff(a: i32, b: i32) -> (r: i64)
    ensures
        r == a - b,
        -0x1_0000_0000 <= r <= 0x1_0000_0000,
{
    a as i64 - b as i64
}

/// Whether `(px, py)` lies on the closed segment from `p1` to `p2`.
pub fn is_on_segment(p1: (i32, i32), p2: (i32, i32), px: i32, py: i32) -> (r: bool)
    ensures
        r == on_segment(p1, p2, px, py),
{
    let min_x = if p1.0 <= p2.0 { p1.0 } else { p2.0 };
    let max_x = if p1.0 >= p2.0 { p1.0 } else { p2.0 };
    let min_y = if p1.1 <= p2.1 { p1.1 } else { p2.1 };
    let max_y = if p1.1 >= p2.1 { p1.1 } else { p2.1 };
    if px < min_x || px > max_x || py < min_y || py > max_y {
        return false;
    }
    cross_exact(diff(py, p1.1), diff(p2.0, p1.0), diff(px, p1.0), diff(p2.1, p1.1)) == 0
}

fn strictly_unit_exec(n: i128, d: i128) -> (r: bool)
    ensures
        r == strictly_unit(n as int, d as int),
{
    (d > 0 && 0 < n && n < d) || (d < 0 && d < n && n < 0)
}

/// Whether the open segments `p1 p2` and `q1 q2` cross at one point interior
/// to both (parallel segments never do).
pub fn segments_intersect(p1: (i32, i32), p2: (i32, i32), q1: (i32, i32), q2: (i32, i32)) -> (r: bool)
    ensures
        r == segments_cross(p1, p2, q1, q2),
{
    let d = cross_exact(diff(p1.0, p2.0), diff(q1.1, q2.1), diff(p1.1, p2.1), diff(q1.0, q2.0));
    if d == 0 {
        return false;
    }
    let t = cross_exact(diff(p1.0, q1.0), diff(q1.1, q2.1), diff(p1.1, q1.1), diff(q1.0, q2.0));
    let u = -cross_exact(diff(p1.0, p2.0), diff(p1.1, q1.1), diff(p1.1, p2.1), diff(p1.0, q1.0));
    strictly_unit_exec(t, d) && strictly_unit_exec(u, d)
}

fn next_index(n: usize, i: usize) -> (r: usize)
    requires
        i < n,
    ensures
        r == next(n as int, i as int),
        r < n,
{
    if i + 1 == n { 0 } else { i + 1 }
}

/// Whether edge `i` crosses the ray from `(px, py)` toward larger `x`.
fn ray_crosses_exec(polygon: &Vec<(i32, i32)>, i: usize, px: i32, py: i32) -> (r: bool)
    requires
        i < polygon.len(),
    ensures
        r == ray_crosses(polygon@, i as int, px, py),
{
    let j = next_index(polygon.len(), i);
    let (xi, yi) = polygon[i];
    let (xj, yj) = polygon[j];
    if (yi > py) == (yj > py) {
        return false;
    }
    let num = cross_exact(diff(xj, xi), diff(py, yi), 0, 0);
    let den = diff(yj, yi) as i128;
    let q = match num.checked_div(den) {
        Some(q) => q,
        None => {
            return false;
        },
    };
    assert(q as int == trunc_div((xj - xi) * (py - yi), yj - yi));
    (px as i128) < q + (xi as i128)
}

/// Whether `(px, py)` lies on the polygon's boundary or inside it (even-odd rule).
pub fn is_point_inside_polygon(polygon: &Vec<(i32, i32)>, px: i32, py: i32) -> (r: bool)
    ensures
        r == inside(polygon@, px, py),
{
    let n = polygon.len();
    let mut i: usize = 0;
    while i < n
        invariant
            i <= n == polygon.len(),
            forall|k: int| 0 <= k < i ==> !on_segment(#[trigger] polygon@[k], polygon@[next(n as int, k)], px, py),
        decreases n - i,
    {
        let j = next_index(n, i);
        if is_on_segment(polygon[i], polygon[j], px, py) {
            return true;
        }
        i += 1;
    }
    let mut odd = false;
    let mut i: usize = 0;
    while i < n
        invariant
            i <= n == polygon.len(),
            odd == odd_crossings(polygon@, px, py, i as int),
        decreases n - i,
    {
        if ray_crosses_exec(polygon, i, px, py) {
            odd = !odd;
        }
        i += 1;
    }
    odd
}

/// Whether the rectangle `[x1, x2] x [y1, y2]` lies inside the polygon: its
/// corners are inside and no polygon edge cuts one of its sides.
pub fn is_rectangle_valid(polygon: &Vec<(i32, i32)>, x1: i32, y1: i32, x2: i32, y2: i32) -> (r: bool)
    ensures
        r == rectangle_inside(polygon@, x1, y1, x2, y2),
{
    if !is_point_inside_polygon(polygon, x1, y1) || !is_point_inside_polygon(polygon, x1, y2)
        || !is_point_inside_polygon(polygon, x2, y1) || !is_point_inside_polygon(polygon, x2, y2) {
        return false;
    }
    let n = polygon.len();
    let mut i: usize = 0;
    while i < n
        invariant
            i <= n == polygon.len(),
            forall|k: int| 0 <= k < i ==> !#[trigger] edge_cuts(polygon@, k, x1, y1, x2, y2),
        decreases n - i,
    {
        let j = next_index(n, i);
        let p1 = polygon[i];
        let p2 = polygon[j];
        let seg_min_x = if p1.0 <= p2.0 { p1.0 } else { p2.0 };
        let seg_max_x = if p1.0 >= p2.0 { p1.0 } else { p2.0 };
        let seg_min_y = if p1.1 <= p2.1 { p1.1 } else { p2.1 };
        let seg_max_y = if p1.1 >= p2.1 { p1.1 } else { p2.1 };
        if !(seg_max_x < x1 || seg_min_x > x2 || seg_max_y < y1 || seg_min_y > y2) {
            if segments_intersect(p1, p2, (x1, y1), (x2, y1)) || segments_intersect(p1, p2, (x2, y1), (x2, y2))
                || segments_intersect(p1, p2, (x2, y2), (x1, y2)) || segments_intersect(p1, p2, (x1, y2), (x1, y1)) {
                assert(edge_cuts(polygon@, i as int, x1, y1, x2, y2));
                return false;
            }
        }
        i += 1;
    }
    true
}

/// Tiles covered by the rectangle with opposite corners `p` and `q`.
pub fn area_exec(p: (i32, i32), q: (i32, i32)) -> (r: u128)
    ensures
        r as int == area(p, q),
{
    let dx = diff(p.0, q.0);
    let dy = diff(p.1, q.1);
    let w: i64 = if dx >= 0 { dx + 1 } else { -dx + 1 };
    let h: i64 = if dy >= 0 { dy + 1 } else { -dy + 1 };
    proof {
        lemma_product_bound(w as int, h as int, 0x1_0000_0001);
    }
    (w as u128) * (h as u128)
}

/// Largest rectangle with two of the tiles as opposite corners (0 with
/// fewer than two tiles).
pub fn part1(points: &Vec<(i32, i32)>) -> (r: u128)
    ensures
        forall|i: int, j: int| 0 <= i < j < points.len() ==> area(points@[i], points@[j]) <= r,
        points.len() >= 2 ==> exists|i: int, j: int| 0 <= i < j < points.len() && area(points@[i], points@[j]) == r,
        points.len() < 2 ==> r == 0,
{
    let n = points.len();
    let mut best: u128 = 0;
    let mut i: usize = 0;
    while i < n
        invariant
            i <= n == points.len(),
            forall|a: int, b: int| 0 <= a < i && a < b < n ==> area(points@[a], points@[b]) <= best,
            best == 0 || exists|a: int, b: int| 0 <= a < b < n && area(points@[a], points@[b]) == best,
        decreases n - i,
    {
        let mut j: usize = i + 1;
        while j < n
            invariant
                i < n == points.len(),
                i + 1 <= j <= n,
                forall|a: int, b: int| 0 <= a < i && a < b < n ==> area(points@[a], points@[b]) <= best,
                forall|b: int| i < b < j ==> area(points@[i as int], points@[b]) <= best,
                best == 0 || exists|a: int, b: int| 0 <= a < b < n && area(points@[a], points@[b]) == best,
            decreases n - j,
        {
            let a = area_exec(points[i], points[j]);
            if a > best {
                best = a;
            }
            j += 1;
        }
        i += 1;
    }
    if n >= 2 {
        assert(area(points@[0], points@[1]) >= 1) by (nonlinear_arith)
            requires
                area(points@[0], points@[1]) == (abs_of(points@[0].0 - points@[1].0) + 1) * (abs_of(points@[0].1 - points@[1].1) + 1),
                abs_of(points@[0].0 - points@[1].0) >= 0,
                abs_of(points@[0].1 - points@[1].1) >= 0,
        ;
    }
    best
}

/// The tiles `p` and `q` differ in both coordinates and the rectangle they
/// span lies inside the polygon.
pub open spec fn valid_pair(poly: Seq<(i32, i32)>, p: (i32, i32), q: (i32, i32)) -> bool {
    &&& p.0 != q.0 && p.1 != q.1
    &&& rectangle_inside(
        poly,
        min_of(p.0 as int, q.0 as int) as i32,
        min_of(p.1 as int, q.1 as int) as i32,
        max_of(p.0 as int, q.0 as int) as i32,
        max_of(p.1 as int, q.1 as int) as i32,
    )
}

/// Largest rectangle with two vertices of the polygon as opposite corners
/// that lies inside the polygon; 0 when there is none.
pub fn part2(polygon: &Vec<(i32, i32)>) -> (r: u128)
    ensures
        forall|i: int, j: int| 0 <= i < j < polygon.len() && valid_pair(polygon@, polygon@[i], polygon@[j])
            ==> area(polygon@[i], polygon@[j]) <= r,
        r == 0 || exists|i: int, j: int| 0 <= i < j < polygon.len() && valid_pair(polygon@, polygon@[i], polygon@[j])
            && area(polygon@[i], polygon@[j]) == r,
{
    let n = polygon.len();
    let mut best: u128 = 0;
    let mut i: usize = 0;
    while i < n
        invariant
            i <= n == polygon.len(),
            forall|a: int, b: int| 0 <= a < i && a < b < n && valid_pair(polygon@, polygon@[a], polygon@[b])
                ==> area(polygon@[a], polygon@[b]) <= best,
            best == 0 || exists|a: int, b: int| 0 <= a < b < n && valid_pair(polygon@, polygon@[a], polygon@[b])
                && area(polygon@[a], polygon@[b]) == best,
        decreases n - i,
    {
        let pi = polygon[i];
        let mut j: usize = i + 1;
        while j < n
            invariant
                i < n == polygon.len(),
                i + 1 <= j <= n,
                pi == polygon@[i as int],
                forall|a: int, b: int| 0 <= a < i && a < b < n && valid_pair(polygon@, polygon@[a], polygon@[b])
                    ==> area(polygon@[a], polygon@[b]) <= best,
                forall|b: int| i < b < j && valid_pair(polygon@, polygon@[i as int], polygon@[b])
                    ==> area(polygon@[i as int], polygon@[b]) <= best,
                best == 0 || exists|a: int, b: int| 0 <= a < b < n && valid_pair(polygon@, polygon@[a], polygon@[b])
                    && area(polygon@[a], polygon@[b]) == best,
            decreases n - j,
        {
            let pj = polygon[j];
            if pi.0 != pj.0 && pi.1 != pj.1 {
                let (x1, x2) = if pi.0 < pj.0 { (pi.0, pj.0) } else { (pj.0, pi.0) };
                let (y1, y2) = if pi.1 < pj.1 { (pi.1, pj.1) } else { (pj.1, pi.1) };
                let a = area_exec(pi, pj);
                if a > best && is_rectangle_valid(polygon, x1, y1, x2, y2) {
                    best = a;
                }
            }
            j += 1;
        }
        i += 1;
    }
    best
}

/// First position in `pos..end` holding a comma, or `end`.
pub open spec fn comma_at(b: Seq<u8>, pos: int, end: int) -> int
    decreases end - pos,
{
    if pos < end && b[pos] != 44u8 { comma_at(b, pos + 1, end) } else { pos }
}

/// The tiles listed one per line as `x,y` from `start` on (a carriage return
/// before a newline is dropped); `None` when a line is not of that form.
pub open spec fn points_spec(b: Seq<u8>, start: int) -> Option<Seq<(i32, i32)>>
    decreases b.len() - start,
{
    if start >= b.len() || start < 0 {
        Some(Seq::empty())
    } else {
        let stop = line_end(b, start);
        let rest = if stop < b.len() { stop + 1 } else { b.len() as int };
        let cend = if stop > start && b[stop - 1] == 13u8 { stop - 1 } else { stop };
        let c = comma_at(b, start, cend);
        if rest <= start || c >= cend {
            None
        } else {
            match (signed_value(b.subrange(start, c)), signed_value(b.subrange(c + 1, cend))) {
                (Some(x), Some(y)) => match points_spec(b, rest) {
                    Some(ps) => Some(seq![(x as i32, y as i32)] + ps),
                    None => None,
                },
                _ => None,
            }
        }
    }
}

/// Reads the tiles, one `x,y` per line.
pub fn parse_input(input: &str) -> (r: Option<Vec<(i32, i32)>>)
    ensures
        r matches Some(ps) ==> points_spec(input.spec_bytes(), 0) == Some(ps@),
        r is None ==> points_spec(input.spec_bytes(), 0) is None,
{
    let b = input.as_bytes();
    let n = b.len();
    let mut points: Vec<(i32, i32)> = Vec::new();
    let mut start: usize = 0;
    while start < n
        invariant
            start <= n == b@.len(),
            b@ == input.spec_bytes(),
            points_spec(b@, 0) == match points_spec(b@, start as int) {
                Some(rest) => Some(points@ + rest),
                None => None::<Seq<(i32, i32)>>,
            },
        decreases n - start,
    {
        let mut stop = start;
        while stop < n && b[stop] != 10
            invariant
                start <= stop <= n == b@.len(),
                line_end(b@, start as int) == line_end(b@, stop as int),
            decreases n - stop,
        {
            stop += 1;
        }
        let cend = if stop > start && b[stop - 1] == 13 { stop - 1 } else { stop };
        let mut c = start;
        while c < cend && b[c] != 44
            invariant
                start <= c <= cend <= n == b@.len(),
                comma_at(b@, start as int, cend as int) == comma_at(b@, c as int, cend as int),
            decreases cend - c,
        {
            c += 1;
        }
        if c >= cend {
            return None;
        }
        let x = match parse_signed(b, start, c) {
            Some(x) => x,
            None => return None,
        };
        let y = match parse_signed(b, c + 1, cend) {
            Some(y) => y,
            None => return None,
        };
        let ghost before = points@;
        points.push((x, y));
        proof {
            assert forall|tail: Seq<(i32, i32)>| before + (seq![(x, y)] + tail) == points@ + tail by {
                assert(before + (seq![(x, y)] + tail) =~= points@ + tail);
            }
        }
        if stop < n {
            start = stop + 1;
        } else {
            start = n;
        }
    }
    proof {
        assert(points@ + Seq::<(i32, i32)>::empty() =~= points@);
    }
    Some(points)
}

} // verus!
