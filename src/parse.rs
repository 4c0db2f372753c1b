//! Reading machine records: `[<lights>] (<i>,<i>,...)* {<n>,<n>,...}`, one per
//! line, with blanks allowed between the groups and around the numbers.
//!
//! The grammar is stated by the spec functions below (`record_spec` for one
//! line, `records_spec` for a whole input); the parsing functions are proved
//! to accept exactly what they describe.

use vstd::prelude::*;
use vstd::string::StringSliceAdditionalSpecFns;
use crate::machine::Machine;
use crate::batch::sized;

verus! {

/// The input does not follow the record grammar.
#[derive(Debug, Clone, Copy, PartialEq, Eq, Structural)]
pub enum ParseError {
    /// The record on this line (counting from 0) is malformed.
    MalformedRecord { line: usize },
}

pub open spec fn is_digit(c: u8) -> bool {
    48 <= c <= 57
}

/// Space, tab or carriage return.
pub open spec fn is_blank(c: u8) -> bool {
    c == 32 || c == 9 || c == 13
}

/// Decimal value of a run of digits.
pub open spec fn digits_value(s: Seq<u8>) -> nat
    decreases s.len(),
{
    if s.len() == 0 {
        0
    } else {
        digits_value(s.drop_last()) * 10 + (s.last() - 48) as nat
    }
}

/// The light pattern that a run of `#` and `.` describes.
pub open spec fn lights_of(s: Seq<u8>) -> Seq<bool> {
    Seq::new(s.len(), |k: int| s[k] == 35u8)
}

/// Line number (counting from `line` at `start`, stopping at `usize::MAX`)
/// of the first malformed or oversized record from `start` on.
pub open spec fn bad_line(b: Seq<u8>, start: int, line: int) -> int
    decreases b.len() - start,
{
    if start >= b.len() || start < 0 {
        line
    } else {
        let stop = line_end(b, start);
        let rest = if stop < b.len() { stop + 1 } else { b.len() as int };
        let next = if line < usize::MAX { line + 1 } else { line };
        if rest <= start {
            line
        } else if skip_spec(b, start, stop) == stop {
            bad_line(b, rest, next)
        } else {
            match record_spec(b, start, stop) {
                Some(rec) => if record_fits(rec.1, rec.2) { bad_line(b, rest, next) } else { line },
                None => line,
            }
        }
    }
}

/// First position at or after `pos` (and before `end`) that is not blank.
pub open spec fn skip_spec(b: Seq<u8>, pos: int, end: int) -> int
    decreases end - pos,
{
    if pos < end && is_blank(b[pos]) { skip_spec(b, pos + 1, end) } else { pos }
}

/// End of the run of digits that starts at `pos`.
pub open spec fn digits_end(b: Seq<u8>, pos: int, end: int) -> int
    decreases end - pos,
{
    if pos < end && is_digit(b[pos]) { digits_end(b, pos + 1, end) } else { pos }
}

/// Position of the `]` that closes a lights group whose pattern starts at
/// `pos`; `None` when a byte other than `#` or `.` comes first.
pub open spec fn lights_close(b: Seq<u8>, pos: int, end: int) -> Option<int>
    decreases end - pos,
{
    if pos >= end {
        None
    } else if b[pos] == 93u8 {
        Some(pos)
    } else if b[pos] == 35u8 || b[pos] == 46u8 {
        lights_close(b, pos + 1, end)
    } else {
        None
    }
}

/// A comma-separated list of numbers from `pos` to the byte `close`, blanks
/// allowed around each number: the numbers and the position after `close`.
pub open spec fn list_spec(b: Seq<u8>, pos: int, end: int, close: u8) -> Option<(Seq<nat>, int)>
    decreases end - pos,
{
    let q = skip_spec(b, pos, end);
    let e = digits_end(b, q, end);
    let s = skip_spec(b, e, end);
    if e <= q || q < pos || s < e || s >= end {
        None
    } else if b[s] == close {
        Some((seq![digits_value(b.subrange(q, e))], s + 1))
    } else if b[s] != 44u8 {
        None
    } else {
        match list_spec(b, s + 1, end, close) {
            Some((vs, f)) => Some((seq![digits_value(b.subrange(q, e))] + vs, f)),
            None => None,
        }
    }
}

/// The groups after the lights, from `p` to `end`: any number of button
/// lists in parentheses, then one counter list in braces and nothing but
/// blanks after it.
pub open spec fn groups_spec(b: Seq<u8>, p: int, end: int) -> Option<(Seq<Seq<nat>>, Seq<nat>)>
    decreases end - p,
{
    let q = skip_spec(b, p, end);
    if q >= end || q < p {
        None
    } else if b[q] == 40u8 {
        match list_spec(b, q + 1, end, 41u8) {
            Some((vs, f)) => if f <= p || f > end {
                None
            } else {
                match groups_spec(b, f, end) {
                    Some((bs, js)) => Some((seq![vs] + bs, js)),
                    None => None,
                }
            },
            None => None,
        }
    } else if b[q] == 123u8 {
        match list_spec(b, q + 1, end, 125u8) {
            Some((vs, f)) => if skip_spec(b, f, end) == end { Some((Seq::empty(), vs)) } else { None },
            None => None,
        }
    } else {
        None
    }
}

/// One record in `b[start..end]`: lights, buttons and counter targets.
pub open spec fn record_spec(b: Seq<u8>, start: int, end: int) -> Option<(Seq<bool>, Seq<Seq<nat>>, Seq<nat>)> {
    let p0 = skip_spec(b, start, end);
    if p0 >= end || b[p0] != 91u8 {
        None
    } else {
        match lights_close(b, p0 + 1, end) {
            Some(c) => match groups_spec(b, c + 1, end) {
                Some((bs, js)) => Some((lights_of(b.subrange(p0 + 1, c)), bs, js)),
                None => None,
            },
            None => None,
        }
    }
}

/// Button indices fit `usize` and counter targets fit `i64`.
pub open spec fn record_fits(bs: Seq<Seq<nat>>, js: Seq<nat>) -> bool {
    &&& forall|k: int, t: int| 0 <= k < bs.len() && 0 <= t < bs[k].len() ==> #[trigger] bs[k][t] <= usize::MAX
    &&& forall|t: int| 0 <= t < js.len() ==> #[trigger] js[t] <= i64::MAX
}

/// The machine holds exactly the record's values.
pub open spec fn describes(m: Machine, rec: (Seq<bool>, Seq<Seq<nat>>, Seq<nat>)) -> bool {
    &&& m.target@ == rec.0
    &&& m.buttons.len() == rec.1.len()
    &&& forall|k: int| 0 <= k < rec.1.len() ==> #[trigger] m.buttons@[k]@.len() == rec.1[k].len()
    &&& forall|k: int, t: int| 0 <= k < rec.1.len() && 0 <= t < rec.1[k].len() ==> m.buttons@[k]@[t] as nat == #[trigger] rec.1[k][t]
    &&& m.joltage.len() == rec.2.len()
    &&& forall|t: int| 0 <= t < rec.2.len() ==> m.joltage@[t] as int == #[trigger] rec.2[t]
}

/// The numbers as naturals.
pub open spec fn nat_seq(v: Seq<u64>) -> Seq<nat> {
    Seq::new(v.len(), |k: int| v[k] as nat)
}

/// First position at or after `pos` that holds a newline, or the length.
pub open spec fn line_end(b: Seq<u8>, pos: int) -> int
    decreases b.len() - pos,
{
    if pos < b.len() && b[pos] != 10u8 { line_end(b, pos + 1) } else { pos }
}

/// The records on the non-blank lines from `start` on; `None` when one of
/// them is malformed or does not fit.
pub open spec fn records_spec(b: Seq<u8>, start: int) -> Option<Seq<(Seq<bool>, Seq<Seq<nat>>, Seq<nat>)>>
    decreases b.len() - start,
{
    if start >= b.len() || start < 0 {
        Some(Seq::empty())
    } else {
        let stop = line_end(b, start);
        let rest = if stop < b.len() { stop + 1 } else { b.len() as int };
        if rest <= start {
            None
        } else if skip_spec(b, start, stop) == stop {
            records_spec(b, rest)
        } else {
            match record_spec(b, start, stop) {
                Some(rec) => if record_fits(rec.1, rec.2) {
                    match records_spec(b, rest) {
                        Some(rs) => Some(seq![rec] + rs),
                        None => None,
                    }
                } else {
                    None
                },
                None => None,
            }
        }
    }
}

spec fn list_of(o: Option<(Seq<nat>, int)>) -> Seq<nat> {
    match o {
        Some((vs, _)) => vs,
        None => Seq::empty(),
    }
}

spec fn buttons_of(o: Option<(Seq<Seq<nat>>, Seq<nat>)>) -> Seq<Seq<nat>> {
    match o {
        Some((bs, _)) => bs,
        None => Seq::empty(),
    }
}

spec fn targets_of(o: Option<(Seq<Seq<nat>>, Seq<nat>)>) -> Seq<nat> {
    match o {
        Some((_, js)) => js,
        None => Seq::empty(),
    }
}

/// The record, or an empty one.
pub open spec fn record_of(o: Option<(Seq<bool>, Seq<Seq<nat>>, Seq<nat>)>) -> (Seq<bool>, Seq<Seq<nat>>, Seq<nat>) {
    match o {
        Some(rec) => rec,
        None => (Seq::empty(), Seq::empty(), Seq::empty()),
    }
}

/// The records, or none.
pub open spec fn records_of(o: Option<Seq<(Seq<bool>, Seq<Seq<nat>>, Seq<nat>)>>) -> Seq<(Seq<bool>, Seq<Seq<nat>>, Seq<nat>)> {
    match o {
        Some(rs) => rs,
        None => Seq::empty(),
    }
}

/// First position at or after `pos` (and before `end`) that is not blank.
pub fn skip_blanks(b: &[u8], pos: usize, end: usize) -> (r: usize)
    requires
        pos <= end <= b@.len(),
    ensures
        r == skip_spec(b@, pos as int, end as int),
        pos <= r <= end,
{
    let mut p = pos;
    while p < end && (b[p] == 32 || b[p] == 9 || b[p] == 13)
        invariant
            pos <= p <= end <= b@.len(),
            skip_spec(b@, pos as int, end as int) == skip_spec(b@, p as int, end as int),
        decreases end - p,
    {
        p += 1;
    }
    p
}

/// Reads the run of digits that starts at `pos`: its value and the position
/// after it. `None` when `pos` holds no digit or the value exceeds `u64`.
pub fn parse_number(b: &[u8], pos: usize, end: usize) -> (r: Option<(u64, usize)>)
    requires
        pos <= end <= b@.len(),
    ensures
        r matches Some((v, e)) ==> e == digits_end(b@, pos as int, end as int) && e > pos
            && v as nat == digits_value(b@.subrange(pos as int, e as int)),
        r is None ==> digits_end(b@, pos as int, end as int) == pos
            || digits_value(b@.subrange(pos as int, digits_end(b@, pos as int, end as int))) > u64::MAX,
        pos <= digits_end(b@, pos as int, end as int) <= end,
{
    let mut v: u64 = 0;
    let mut p = pos;
    let mut overflow = false;
    while p < end && 48 <= b[p] && b[p] <= 57
        invariant
            pos <= p <= end <= b@.len(),
            digits_end(b@, pos as int, end as int) == digits_end(b@, p as int, end as int),
            !overflow ==> v as nat == digits_value(b@.subrange(pos as int, p as int)),
            overflow ==> digits_value(b@.subrange(pos as int, p as int)) > u64::MAX,
        decreases end - p,
    {
        let d = (b[p] - 48) as u64;
        let ghost prev = digits_value(b@.subrange(pos as int, p as int));
        assert(b@.subrange(pos as int, p + 1).drop_last() == b@.subrange(pos as int, p as int));
        assert(digits_value(b@.subrange(pos as int, p + 1)) == prev * 10 + d);
        if !overflow {
            match v.checked_mul(10) {
                Some(t) => match t.checked_add(d) {
                    Some(n) => {
                        v = n;
                    },
                    None => {
                        overflow = true;
                    },
                },
                None => {
                    overflow = true;
                },
            }
        } else {
            assert(prev * 10 + d > u64::MAX) by (nonlinear_arith)
                requires
                    prev > u64::MAX,
                    d >= 0,
            ;
        }
        p += 1;
    }
    proof {
        lemma_digits_end_bounds(b@, pos as int, end as int);
    }
    if overflow || p == pos {
        return None;
    }
    Some((v, p))
}

proof fn lemma_digits_end_bounds(b: Seq<u8>, pos: int, end: int)
    requires
        pos <= end,
    ensures
        pos <= digits_end(b, pos, end) <= end,
    decreases end - pos,
{
    if pos < end && is_digit(b[pos]) {
        lemma_digits_end_bounds(b, pos + 1, end);
    }
}

/// Reads the lights group whose pattern starts at `pos` (just after the
/// `[`): the pattern and the position of the closing `]`.
pub fn parse_lights(b: &[u8], pos: usize, end: usize) -> (r: Option<(Vec<bool>, usize)>)
    requires
        pos <= end <= b@.len(),
    ensures
        r matches Some((t, c)) ==> lights_close(b@, pos as int, end as int) == Some(c as int)
            && t@ == lights_of(b@.subrange(pos as int, c as int)) && pos <= c < end,
        r is None ==> lights_close(b@, pos as int, end as int) is None,
{
    let mut t: Vec<bool> = Vec::new();
    let mut p = pos;
    while p < end && b[p] != 93
        invariant
            pos <= p <= end <= b@.len(),
            t@ == lights_of(b@.subrange(pos as int, p as int)),
            lights_close(b@, pos as int, end as int) == lights_close(b@, p as int, end as int),
        decreases end - p,
    {
        if b[p] == 35 {
            t.push(true);
        } else if b[p] == 46 {
            t.push(false);
        } else {
            return None;
        }
        p += 1;
        assert(t@ == lights_of(b@.subrange(pos as int, p as int)));
    }
    if p == end {
        return None;
    }
    Some((t, p))
}

/// Reads a comma-separated list of numbers that starts at `pos` (just after
/// the opening bracket) and ends with `close`: the numbers and the position
/// after `close`. `None` when the bytes do not form such a list, or a
/// number exceeds `u64`.
pub fn parse_list(b: &[u8], pos: usize, end: usize, close: u8) -> (r: Option<(Vec<u64>, usize)>)
    requires
        pos <= end <= b@.len(),
    ensures
        r matches Some((v, e)) ==> list_spec(b@, pos as int, end as int, close) == Some((nat_seq(v@), e as int))
            && pos < e <= end,
        r is None ==> (list_spec(b@, pos as int, end as int, close) matches Some((vs, f))
            ==> exists|k: int| 0 <= k < vs.len() && vs[k] > u64::MAX),
    decreases end - pos,
{
    let q = skip_blanks(b, pos, end);
    let ghost e_spec = digits_end(b@, q as int, end as int);
    let (n, after) = match parse_number(b, q, end) {
        Some(x) => x,
        None => {
            proof {
                if list_spec(b@, pos as int, end as int, close) is Some {
                    assert(digits_value(b@.subrange(q as int, e_spec)) > u64::MAX);
                    let vs = list_of(list_spec(b@, pos as int, end as int, close));
                    assert(vs[0] > u64::MAX);
                }
            }
            return None;
        },
    };
    let s = skip_blanks(b, after, end);
    if s == end {
        return None;
    }
    if b[s] == close {
        let mut v: Vec<u64> = Vec::new();
        v.push(n);
        assert(nat_seq(v@) =~= seq![n as nat]);
        return Some((v, s + 1));
    }
    if b[s] != 44 {
        return None;
    }
    match parse_list(b, s + 1, end, close) {
        Some((rest, f)) => {
            let mut v: Vec<u64> = Vec::new();
            v.push(n);
            let mut k: usize = 0;
            while k < rest.len()
                invariant
                    k <= rest.len(),
                    v@ == seq![n] + rest@.take(k as int),
                decreases rest.len() - k,
            {
                v.push(rest[k]);
                k += 1;
                assert(v@ == seq![n] + rest@.take(k as int));
            }
            assert(rest@.take(rest.len() as int) == rest@);
            assert(nat_seq(v@) =~= seq![n as nat] + nat_seq(rest@));
            Some((v, f))
        },
        None => {
            proof {
                if list_spec(b@, pos as int, end as int, close) is Some {
                    let vs = list_of(list_spec(b@, pos as int, end as int, close));
                    let ws = list_of(list_spec(b@, s + 1, end as int, close));
                    let k = choose|k: int| 0 <= k < ws.len() && ws[k] > u64::MAX;
                    assert(vs[k + 1] == ws[k]);
                }
            }
            None
        },
    }
}

/// The numbers as button indices; `None` when one exceeds `usize`.
fn to_indices(nums: &Vec<u64>) -> (r: Option<Vec<usize>>)
    ensures
        r matches Some(v) ==> v.len() == nums.len() && forall|t: int| 0 <= t < nums.len() ==> v@[t] as nat == #[trigger] nums@[t] as nat,
        r is None ==> exists|t: int| 0 <= t < nums.len() && #[trigger] nums@[t] > usize::MAX,
{
    let mut v: Vec<usize> = Vec::new();
    let mut k: usize = 0;
    while k < nums.len()
        invariant
            k <= nums.len(),
            v.len() == k,
            forall|t: int| 0 <= t < k ==> v@[t] as nat == #[trigger] nums@[t] as nat,
        decreases nums.len() - k,
    {
        if nums[k] > usize::MAX as u64 {
            return None;
        }
        v.push(nums[k] as usize);
        k += 1;
    }
    Some(v)
}

/// The numbers as counter targets; `None` when one exceeds `i64`.
fn to_targets(nums: &Vec<u64>) -> (r: Option<Vec<i64>>)
    ensures
        r matches Some(v) ==> v.len() == nums.len() && forall|t: int| 0 <= t < nums.len() ==> v@[t] as int == #[trigger] nums@[t] as int,
        r is None ==> exists|t: int| 0 <= t < nums.len() && #[trigger] nums@[t] > i64::MAX,
{
    let mut v: Vec<i64> = Vec::new();
    let mut k: usize = 0;
    while k < nums.len()
        invariant
            k <= nums.len(),
            v.len() == k,
            forall|t: int| 0 <= t < k ==> v@[t] as int == #[trigger] nums@[t] as int,
        decreases nums.len() - k,
    {
        if nums[k] > i64::MAX as u64 {
            return None;
        }
        v.push(nums[k] as i64);
        k += 1;
    }
    Some(v)
}

/// Reads one record from `b[start..end]`: the lights group first, then any
/// number of button groups, then the counter group and nothing after it.
pub fn parse_machine(b: &[u8], start: usize, end: usize, line: usize) -> (r: Result<Machine, ParseError>)
    requires
        start <= end <= b@.len(),
    ensures
        r is Ok <==> (record_spec(b@, start as int, end as int) matches Some(rec) && record_fits(rec.1, rec.2)),
        r matches Ok(m) ==> describes(m, record_of(record_spec(b@, start as int, end as int))) && m.buttons.len() < usize::MAX,
        r matches Err(err) ==> err == (ParseError::MalformedRecord { line }),
{
    let bad = ParseError::MalformedRecord { line };
    let p0 = skip_blanks(b, start, end);
    if p0 == end || b[p0] != 91 {
        return Err(bad);
    }
    let (target, close) = match parse_lights(b, p0 + 1, end) {
        Some(x) => x,
        None => return Err(bad),
    };
    let ghost g0 = close as int + 1;
    let mut p = close + 1;
    let mut buttons: Vec<Vec<usize>> = Vec::new();
    let ghost mut bs: Seq<Seq<nat>> = Seq::empty();
    loop
        invariant
            start <= p0 < close < p <= end <= b@.len(),
            g0 <= p,
            record_spec(b@, start as int, end as int) == match groups_spec(b@, g0, end as int) {
                Some((bs2, js)) => Some((target@, bs2, js)),
                None => None::<(Seq<bool>, Seq<Seq<nat>>, Seq<nat>)>,
            },
            groups_spec(b@, g0, end as int) == match groups_spec(b@, p as int, end as int) {
                Some((rest, js)) => Some((bs + rest, js)),
                None => None::<(Seq<Seq<nat>>, Seq<nat>)>,
            },
            buttons.len() == bs.len(),
            buttons.len() < p,
            forall|k: int| 0 <= k < bs.len() ==> #[trigger] buttons@[k]@.len() == bs[k].len(),
            forall|k: int, t: int| 0 <= k < bs.len() && 0 <= t < bs[k].len() ==> buttons@[k]@[t] as nat == #[trigger] bs[k][t],
            bad == (ParseError::MalformedRecord { line }),
        decreases end - p,
    {
        let q = skip_blanks(b, p, end);
        if q == end {
            return Err(bad);
        }
        if b[q] == 40 {
            let (nums, after) = match parse_list(b, q + 1, end, 41) {
                Some(x) => x,
                None => {
                    proof {
                        if groups_spec(b@, p as int, end as int) is Some {
                            let vs = list_of(list_spec(b@, q + 1, end as int, 41u8));
                            let k = choose|k: int| 0 <= k < vs.len() && vs[k] > u64::MAX;
                            let whole = buttons_of(groups_spec(b@, g0, end as int));
                            assert(whole[bs.len() as int] == vs);
                            assert(!record_fits(whole, targets_of(groups_spec(b@, g0, end as int)))) by {
                                assert(whole[bs.len() as int][k] > usize::MAX);
                            }
                        }
                    }
                    return Err(bad);
                },
            };
            let button = match to_indices(&nums) {
                Some(v) => v,
                None => {
                    proof {
                        if groups_spec(b@, p as int, end as int) is Some {
                            let vs = nat_seq(nums@);
                            let k = choose|k: int| 0 <= k < nums.len() && nums@[k] > usize::MAX;
                            let whole = buttons_of(groups_spec(b@, g0, end as int));
                            assert(whole[bs.len() as int] == vs);
                            assert(!record_fits(whole, targets_of(groups_spec(b@, g0, end as int)))) by {
                                assert(whole[bs.len() as int][k] > usize::MAX);
                            }
                        }
                    }
                    return Err(bad);
                },
            };
            proof {
                let vs = nat_seq(nums@);
                assert(groups_spec(b@, p as int, end as int) == match groups_spec(b@, after as int, end as int) {
                    Some((rest, js)) => Some((seq![vs] + rest, js)),
                    None => None::<(Seq<Seq<nat>>, Seq<nat>)>,
                });
                assert forall|rest: Seq<Seq<nat>>| bs + (seq![vs] + rest) == bs.push(vs) + rest by {
                    assert(bs + (seq![vs] + rest) =~= bs.push(vs) + rest);
                }
                bs = bs.push(vs);
            }
            buttons.push(button);
            p = after;
        } else if b[q] == 123 {
            let (nums, after) = match parse_list(b, q + 1, end, 125) {
                Some(x) => x,
                None => {
                    proof {
                        if groups_spec(b@, p as int, end as int) is Some {
                            let vs = list_of(list_spec(b@, q + 1, end as int, 125u8));
                            let k = choose|k: int| 0 <= k < vs.len() && vs[k] > u64::MAX;
                            let js = targets_of(groups_spec(b@, g0, end as int));
                            assert(js == vs);
                            assert(js[k] > i64::MAX);
                        }
                    }
                    return Err(bad);
                },
            };
            let joltage = match to_targets(&nums) {
                Some(v) => v,
                None => {
                    proof {
                        if groups_spec(b@, p as int, end as int) is Some {
                            let k = choose|k: int| 0 <= k < nums.len() && nums@[k] > i64::MAX;
                            let js = targets_of(groups_spec(b@, g0, end as int));
                            assert(js == nat_seq(nums@));
                            assert(js[k] > i64::MAX);
                        }
                    }
                    return Err(bad);
                },
            };
            if skip_blanks(b, after, end) != end {
                return Err(bad);
            }
            let m = Machine { target, buttons, joltage };
            proof {
                assert(groups_spec(b@, p as int, end as int) == Some((Seq::<Seq<nat>>::empty(), nat_seq(nums@))));
                assert(bs + Seq::<Seq<nat>>::empty() =~= bs);
                let rec = record_of(record_spec(b@, start as int, end as int));
                assert(rec.1 =~= bs);
                assert(rec.2 == nat_seq(nums@));
                assert forall|k: int, t: int| 0 <= k < rec.1.len() && 0 <= t < rec.1[k].len() implies #[trigger] rec.1[k][t] <= usize::MAX by {
                    assert(m.buttons@[k]@[t] as nat == bs[k][t]);
                }
                assert forall|t: int| 0 <= t < rec.2.len() implies #[trigger] rec.2[t] <= i64::MAX by {
                    assert(m.joltage@[t] as int == nums@[t] as int);
                }
            }
            return Ok(m);
        } else {
            return Err(bad);
        }
    }
}

/// Reads one machine per non-blank line. Fails on the first malformed
/// record, naming its line.
pub fn parse_input(input: &str) -> (r: Result<Vec<Machine>, ParseError>)
    ensures
        r is Ok <==> records_spec(input.spec_bytes(), 0) is Some,
        r matches Err(err) ==> err == (ParseError::MalformedRecord { line: bad_line(input.spec_bytes(), 0, 0) as usize }),
        r matches Ok(ms) ==> sized(ms@) && ms.len() == records_of(records_spec(input.spec_bytes(), 0)).len()
            && forall|i: int| 0 <= i < ms.len() ==> describes(#[trigger] ms@[i], records_of(records_spec(input.spec_bytes(), 0))[i]),
{
    let b = input.as_bytes();
    let n = b.len();
    let mut machines: Vec<Machine> = Vec::new();
    let ghost mut recs: Seq<(Seq<bool>, Seq<Seq<nat>>, Seq<nat>)> = Seq::empty();
    let mut start: usize = 0;
    let mut line: usize = 0;
    while start < n
        invariant
            start <= n == b@.len(),
            b@ == input.spec_bytes(),
            sized(machines@),
            machines.len() == recs.len(),
            forall|i: int| 0 <= i < machines.len() ==> describes(#[trigger] machines@[i], recs[i]),
            records_spec(b@, 0) == match records_spec(b@, start as int) {
                Some(rest) => Some(recs + rest),
                None => None::<Seq<(Seq<bool>, Seq<Seq<nat>>, Seq<nat>)>>,
            },
            bad_line(b@, 0, 0) == bad_line(b@, start as int, line as int),
        decreases n - start,
    {
        let mut stop = start;
        while stop < n && b[stop] != 10
            invariant
                start <= stop <= n == b@.len(),
                line_end(b@, start as int) == line_end(b@, stop as int),
            decreases n - stop,
        {
            stop += 1;
        }
        let ghost rest = if stop < n { stop + 1 } else { n as int };
        if skip_blanks(b, start, stop) != stop {
            let m = match parse_machine(b, start, stop, line) {
                Ok(m) => m,
                Err(err) => return Err(err),
            };
            proof {
                let rec = record_of(record_spec(b@, start as int, stop as int));
                assert forall|tail: Seq<(Seq<bool>, Seq<Seq<nat>>, Seq<nat>)>| recs + (seq![rec] + tail) == recs.push(rec) + tail by {
                    assert(recs + (seq![rec] + tail) =~= recs.push(rec) + tail);
                }
                recs = recs.push(rec);
            }
            machines.push(m);
        }
        if stop < n {
            start = stop + 1;
        } else {
            start = n;
        }
        if line < usize::MAX {
            line += 1;
        }
    }
    proof {
        assert(recs + Seq::empty() =~= recs);
    }
    Ok(machines)
}

} // verus!
