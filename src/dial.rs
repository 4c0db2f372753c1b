//! A safe's dial numbered 0 to 99: rotations read as `L<n>` or `R<n>`, where
//! the dial rests after each, and how often it points at 0.

use vstd::prelude::*;
use vstd::string::StringSliceAdditionalSpecFns;
use crate::parse::{is_digit, digits_value};

verus! {

/// Every byte of `s` is a digit.
pub open spec fn all_digits(s: Seq<u8>) -> bool {
    forall|k: int| 0 <= k < s.len() ==> is_digit(#[trigger] s[k])
}

/// The number that `s` spells in the form Rust's `i32` parser accepts: an
/// optional sign, then one or more digits; `None` otherwise or when out of range.
pub open spec fn signed_value(s: Seq<u8>) -> Option<int> {
    let neg = s.len() > 0 && s[0] == 45u8;
    let signed = s.len() > 0 && (s[0] == 45u8 || s[0] == 43u8);
    let digits = if signed { s.drop_first() } else { s };
    let v = if neg { -(digits_value(digits) as int) } else { digits_value(digits) as int };
    if digits.len() == 0 || !all_digits(digits) {
        None
    } else if v < i32::MIN || v > i32::MAX {
        None
    } else {
        Some(v)
    }
}

/// Value of the digits `b[lo..hi]`, or `None` when it exceeds `2^32`.
fn digits_exec(b: &[u8], lo: usize, hi: usize) -> (r: Option<i64>)
    requires
        lo <= hi <= b@.len(),
        forall|k: int| lo <= k < hi ==> is_digit(#[trigger] b@[k]),
    ensures
        r matches Some(v) ==> v as int == digits_value(b@.subrange(lo as int, hi as int)),
        r is None ==> digits_value(b@.subrange(lo as int, hi as int)) > 0x1_0000_0000,
{
    let mut v: i64 = 0;
    let mut p = lo;
    while p < hi
        invariant
            lo <= p <= hi <= b@.len(),
            forall|k: int| lo <= k < hi ==> is_digit(#[trigger] b@[k]),
            v as int == digits_value(b@.subrange(lo as int, p as int)),
            0 <= v <= 0x1_0000_0000,
        decreases hi - p,
    {
        assert(b@.subrange(lo as int, p + 1).drop_last() == b@.subrange(lo as int, p as int));
        let d = (b[p] - 48) as i64;
        let next = v * 10 + d;
        if next > 0x1_0000_0000 {
            proof {
                lemma_digits_grow(b@, lo as int, p + 1, hi as int);
            }
            return None;
        }
        v = next;
        p += 1;
    }
    Some(v)
}

proof fn lemma_digits_grow(b: Seq<u8>, lo: int, mid: int, hi: int)
    requires
        0 <= lo <= mid <= hi <= b.len(),
        forall|k: int| lo <= k < hi ==> is_digit(#[trigger] b[k]),
    ensures
        digits_value(b.subrange(lo, mid)) <= digits_value(b.subrange(lo, hi)),
    decreases hi - mid,
{
    if mid < hi {
        lemma_digits_grow(b, lo, mid + 1, hi);
        assert(b.subrange(lo, mid + 1).drop_last() == b.subrange(lo, mid));
    }
}

/// The number that `b[lo..hi]` spells (see `signed_value`).
pub fn parse_signed(b: &[u8], lo: usize, hi: usize) -> (r: Option<i32>)
    requires
        lo <= hi <= b@.len(),
    ensures
        r == match signed_value(b@.subrange(lo as int, hi as int)) {
            Some(v) => Some(v as i32),
            None => None,
        },
{
    let ghost s = b@.subrange(lo as int, hi as int);
    let mut start: usize = lo;
    let mut neg = false;
    if lo < hi && (b[lo] == 45 || b[lo] == 43) {
        neg = b[lo] == 45;
        start = lo + 1;
    }
    let ghost digits = b@.subrange(start as int, hi as int);
    assert(digits == if s.len() > 0 && (s[0] == 45u8 || s[0] == 43u8) { s.drop_first() } else { s });
    if start == hi {
        return None;
    }
    let mut k = start;
    while k < hi
        invariant
            start <= k <= hi <= b@.len(),
            digits == b@.subrange(start as int, hi as int),
            s == b@.subrange(lo as int, hi as int),
            digits == (if s.len() > 0 && (s[0] == 45u8 || s[0] == 43u8) { s.drop_first() } else { s }),
            digits.len() > 0,
            forall|t: int| start <= t < k ==> is_digit(#[trigger] b@[t]),
        decreases hi - k,
    {
        if !(48 <= b[k] && b[k] <= 57) {
            assert(digits[k - start] == b@[k as int]);
            assert(!is_digit(digits[k - start]));
            return None;
        }
        k += 1;
    }
    assert forall|t: int| 0 <= t < digits.len() implies is_digit(#[trigger] digits[t]) by {
        assert(is_digit(b@[t + start]));
    }
    let v = match digits_exec(b, start, hi) {
        Some(v) => v,
        None => return None,
    };
    let value: i64 = if neg { -v } else { v };
    if value < i32::MIN as i64 || value > i32::MAX as i64 {
        return None;
    }
    Some(value as i32)
}

/// Reads a rotation such as `R48` or `L5`: its first character and the
/// number after it. `None` when the text is empty or the rest is not a number.
pub fn parse_direction_value(s: &str) -> (r: Option<(char, i32)>)
    requires
        s.spec_bytes().len() > 0 ==> s.spec_bytes()[0] < 128,
    ensures
        s.spec_bytes().len() == 0 ==> r is None,
        s.spec_bytes().len() > 0 ==> r == match signed_value(s.spec_bytes().drop_first()) {
            Some(v) => Some(((s.spec_bytes()[0] as u32) as char, v as i32)),
            None => None,
        },
{
    let b = s.as_bytes();
    let n = b.len();
    if n == 0 {
        return None;
    }
    assert(b@.subrange(1, n as int) == b@.drop_first());
    match parse_signed(b, 1, n) {
        Some(v) => Some((b[0] as char, v)),
        None => None,
    }
}

/// Clicks among the `n` of a left turn from `p` that leave the dial at 0.
pub open spec fn left_hits(p: int, n: int) -> int {
    if p == 0 {
        n / 100
    } else if n >= p {
        (n - p) / 100 + 1
    } else {
        0
    }
}

/// Times the dial points at 0 during a turn of `n` clicks from `p` (left
/// when `left`), counting a left turn of no clicks that rests at 0 once.
pub open spec fn zero_clicks(p: int, n: int, left: bool) -> int {
    if !left {
        (p + n) / 100
    } else {
        left_hits(p, n) + if n == 0 && p == 0 { 1int } else { 0int }
    }
}

/// Where the dial rests after turning `n` clicks from `p`.
pub open spec fn rest_after(p: int, n: int, left: bool) -> int {
    if left { (p - n) % 100 } else { (p + n) % 100 }
}

/// Turns the dial `num` clicks from `pos`, left for `L` and right otherwise:
/// where it rests, and how many clicks left it at 0.
pub fn rotate(pos: i32, dir: char, num: i32) -> (r: (i32, i32))
    requires
        0 <= pos < 100,
        0 <= num <= i32::MAX - 100,
    ensures
        r.0 == rest_after(pos as int, num as int, dir == 'L'),
        r.1 == zero_clicks(pos as int, num as int, dir == 'L'),
{
    if dir != 'L' {
        let new_pos = pos + num;
        return (new_pos % 100, new_pos / 100);
    }
    let mut p = pos;
    let mut n = num;
    let mut count: i32 = 0;
    while n > 0
        invariant
            0 <= p < 100,
            0 <= n <= num,
            0 <= count <= num - n,
            num == 0 ==> n == 0 && p == pos,
            count + zero_clicks(p as int, n as int, true) == zero_clicks(pos as int, num as int, true),
            rest_after(p as int, n as int, true) == rest_after(pos as int, num as int, true),
        decreases n,
    {
        if n > p {
            if p != 0 {
                count += 1;
            }
            n = n - p - 1;
            p = 99;
        } else {
            p = p - n;
            n = 0;
        }
    }
    if p == 0 {
        count += 1;
    }
    (p, count)
}

/// Every rotation turns a number of clicks that `rotate` accepts.
pub open spec fn turns_ok(moves: Seq<(char, i32)>) -> bool {
    forall|k: int| 0 <= k < moves.len() ==> 0 <= (#[trigger] moves[k]).1 <= i32::MAX - 100
}

/// After the first `k` rotations from 50: where the dial rests, how many
/// rotations ended at 0, and how many clicks left it at 0.
pub open spec fn dial_after(moves: Seq<(char, i32)>, k: int) -> (int, int, int)
    decreases k,
{
    if k <= 0 {
        (50, 0, 0)
    } else {
        let (p, rests, clicks) = dial_after(moves, k - 1);
        let left = moves[k - 1].0 == 'L';
        let n = moves[k - 1].1 as int;
        let q = rest_after(p, n, left);
        (q, rests + if q == 0 { 1int } else { 0int }, clicks + zero_clicks(p, n, left))
    }
}

proof fn lemma_dial_in_range(moves: Seq<(char, i32)>, k: int)
    requires
        0 <= k <= moves.len(),
        turns_ok(moves),
    ensures
        0 <= dial_after(moves, k).0 < 100,
        0 <= dial_after(moves, k).1 <= k,
        dial_after(moves, k).2 >= 0,
    decreases k,
{
    if k > 0 {
        lemma_dial_in_range(moves, k - 1);
        assert(0 <= moves[k - 1].1);
    }
}

/// Follows the rotations from 50: the number of rotations that end at 0, and
/// the number of clicks that leave the dial at 0.
pub fn follow(moves: &Vec<(char, i32)>) -> (r: (u128, u128))
    requires
        turns_ok(moves@),
    ensures
        r.0 == dial_after(moves@, moves.len() as int).1,
        r.1 == dial_after(moves@, moves.len() as int).2,
{
    let mut pos: i32 = 50;
    let mut rests: u128 = 0;
    let mut clicks: u128 = 0;
    let mut k: usize = 0;
    while k < moves.len()
        invariant
            k <= moves.len(),
            turns_ok(moves@),
            pos == dial_after(moves@, k as int).0,
            rests == dial_after(moves@, k as int).1,
            clicks == dial_after(moves@, k as int).2,
            clicks <= k * 0x1_0000_0000,
        decreases moves.len() - k,
    {
        proof {
            lemma_dial_in_range(moves@, k as int);
        }
        let (dir, num) = moves[k];
        let (q, c) = rotate(pos, dir, num);
        assert(c <= 0x1_0000_0000 && c >= 0) by {
            assert(c == zero_clicks(pos as int, num as int, dir == 'L'));
        }
        if q == 0 {
            rests += 1;
        }
        clicks += c as u128;
        pos = q;
        k += 1;
    }
    (rests, clicks)
}

} // verus!
