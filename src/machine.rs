//! A machine: indicator lights, buttons, and counter targets, with the
//! equations a press vector has to satisfy.

use vstd::prelude::*;

verus! {

/// One machine: the light pattern to reach, the buttons (each the list of
/// light / counter indices it acts on) and the counter targets.
#[derive(Clone, Debug)]
pub struct Machine {
    pub target: Vec<bool>,
    pub buttons: Vec<Vec<usize>>,
    pub joltage: Vec<i64>,
}

/// Whether button `j` acts on index `i`.
pub open spec fn touches(buttons: Seq<Vec<usize>>, j: int, i: int) -> bool {
    buttons[j]@.contains(i as usize)
}

/// State of light `i` after pressing, for each of the first `n` buttons,
/// those with `x[j]` set (each press flips the lights its button touches).
pub open spec fn light_after(buttons: Seq<Vec<usize>>, x: Seq<bool>, i: int, n: int) -> bool
    decreases n,
{
    if n <= 0 {
        false
    } else {
        light_after(buttons, x, i, n - 1) != (x[n - 1] && touches(buttons, n - 1, i))
    }
}

/// `x` is a press pattern (one flag per button) that lights exactly `target`.
pub open spec fn solves_lights(target: Seq<bool>, buttons: Seq<Vec<usize>>, x: Seq<bool>) -> bool {
    &&& x.len() == buttons.len()
    &&& forall|i: int| 0 <= i < target.len() ==> light_after(buttons, x, i, buttons.len() as int) == target[i]
}

/// Number of set flags in `x`.
pub open spec fn popcount(x: Seq<bool>) -> nat
    decreases x.len(),
{
    if x.len() == 0 {
        0
    } else {
        popcount(x.drop_last()) + if x.last() { 1nat } else { 0nat }
    }
}

/// Value of counter `i` after pressing button `j` `x[j]` times, for `j < n`.
pub open spec fn counter_after(buttons: Seq<Vec<usize>>, x: Seq<i64>, i: int, n: int) -> int
    decreases n,
{
    if n <= 0 {
        0
    } else {
        counter_after(buttons, x, i, n - 1) + if touches(buttons, n - 1, i) { x[n - 1] as int } else { 0 }
    }
}

/// `x` is a press count per button that brings every counter to its target.
pub open spec fn solves_counters(joltage: Seq<i64>, buttons: Seq<Vec<usize>>, x: Seq<i64>) -> bool {
    &&& x.len() == buttons.len()
    &&& forall|i: int| 0 <= i < joltage.len() ==> counter_after(buttons, x, i, buttons.len() as int) == joltage[i] as int
}

/// Sum of the absolute values of `x`.
pub open spec fn abs_sum(x: Seq<i64>) -> int
    decreases x.len(),
{
    if x.len() == 0 {
        0
    } else {
        abs_sum(x.drop_last()) + if x.last() < 0 { -(x.last() as int) } else { x.last() as int }
    }
}

/// Whether every entry of `x` is non-negative.
pub open spec fn all_non_negative(x: Seq<i64>) -> bool {
    forall|j: int| 0 <= j < x.len() ==> x[j] >= 0
}

/// A machine without buttons cannot light a target that has a lit light:
/// every light stays off.
pub proof fn lemma_no_buttons_lights(target: Seq<bool>, buttons: Seq<Vec<usize>>, x: Seq<bool>, i: int)
    requires
        buttons.len() == 0,
        0 <= i < target.len(),
        target[i],
    ensures
        !solves_lights(target, buttons, x),
{
    assert(light_after(buttons, x, i, 0) == false);
}

/// A machine without buttons cannot reach a counter target other than zero:
/// every counter stays at zero.
pub proof fn lemma_no_buttons_counters(joltage: Seq<i64>, buttons: Seq<Vec<usize>>, x: Seq<i64>, i: int)
    requires
        buttons.len() == 0,
        0 <= i < joltage.len(),
        joltage[i] != 0,
    ensures
        !solves_counters(joltage, buttons, x),
{
    assert(counter_after(buttons, x, i, 0) == 0);
}

/// Whether `button` lists index `i`.
pub fn button_touches(button: &Vec<usize>, i: usize) -> (r: bool)
    ensures
        r == button@.contains(i),
{
    let mut k: usize = 0;
    while k < button.len()
        invariant
            k <= button.len(),
            forall|t: int| 0 <= t < k ==> button@[t] != i,
        decreases button.len() - k,
    {
        if button[k] == i {
            return true;
        }
        k += 1;
    }
    false
}

/// Number of set flags in `x`.
pub fn count_pressed(x: &Vec<bool>) -> (r: usize)
    ensures
        r == popcount(x@),
{
    let mut r: usize = 0;
    let mut k: usize = 0;
    while k < x.len()
        invariant
            k <= x.len(),
            r == popcount(x@.take(k as int)),
            r <= k,
        decreases x.len() - k,
    {
        assert(x@.take(k as int + 1).drop_last() == x@.take(k as int));
        if x[k] {
            r += 1;
        }
        k += 1;
    }
    assert(x@.take(x.len() as int) == x@);
    r
}

/// Whether pressing the buttons flagged in `x` lights exactly `target`.
pub fn lights_match(target: &Vec<bool>, buttons: &Vec<Vec<usize>>, x: &Vec<bool>) -> (r: bool)
    ensures
        r == solves_lights(target@, buttons@, x@),
{
    if x.len() != buttons.len() {
        return false;
    }
    let mut i: usize = 0;
    while i < target.len()
        invariant
            i <= target.len(),
            x.len() == buttons.len(),
            forall|t: int| 0 <= t < i ==> light_after(buttons@, x@, t, buttons.len() as int) == target@[t],
        decreases target.len() - i,
    {
        let mut state = false;
        let mut j: usize = 0;
        while j < buttons.len()
            invariant
                j <= buttons.len(),
                x.len() == buttons.len(),
                state == light_after(buttons@, x@, i as int, j as int),
            decreases buttons.len() - j,
        {
            if x[j] && button_touches(&buttons[j], i) {
                state = !state;
            }
            j += 1;
        }
        if state != target[i] {
            return false;
        }
        i += 1;
    }
    true
}

/// Whether pressing each button `j` exactly `x[j]` times brings every counter
/// to its target (sums are taken in `i128`, where they cannot overflow).
pub fn counters_match(joltage: &Vec<i64>, buttons: &Vec<Vec<usize>>, x: &Vec<i64>) -> (r: bool)
    ensures
        r == solves_counters(joltage@, buttons@, x@),
{
    if x.len() != buttons.len() {
        return false;
    }
    let mut i: usize = 0;
    while i < joltage.len()
        invariant
            i <= joltage.len(),
            x.len() == buttons.len(),
            forall|t: int| 0 <= t < i ==> counter_after(buttons@, x@, t, buttons.len() as int) == joltage@[t] as int,
        decreases joltage.len() - i,
    {
        let mut total: i128 = 0;
        let mut j: usize = 0;
        while j < buttons.len()
            invariant
                j <= buttons.len(),
                i < joltage.len(),
                x.len() == buttons.len(),
                total as int == counter_after(buttons@, x@, i as int, j as int),
                -(j as int) * 0x8000_0000_0000_0000 <= total <= (j as int) * 0x8000_0000_0000_0000,
            decreases buttons.len() - j,
        {
            if button_touches(&buttons[j], i) {
                total = total + x[j] as i128;
            }
            j += 1;
        }
        if total != joltage[i] as i128 {
            return false;
        }
        i += 1;
    }
    true
}

} // verus!
