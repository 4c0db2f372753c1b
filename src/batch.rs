//! Totals over a batch of machines.

use vstd::prelude::*;
use crate::machine::{Machine, solves_lights, solves_counters, abs_sum};
use crate::gf2::{solve_machine_reporting, lights_answer};
use crate::integer::{solve_machine_joltage, reachable_cost, free_columns_of, reduced_answer, joltage_outcome};
use crate::echelon::Echelon;

verus! {

/// Some press pattern lights exactly the machine's target.
pub open spec fn lights_solvable(m: Machine) -> bool {
    exists|x: Seq<bool>| solves_lights(m.target@, m.buttons@, x)
}

/// Some press-count vector brings every counter of the machine to its target.
pub open spec fn counters_solvable(m: Machine) -> bool {
    exists|x: Seq<i64>| solves_counters(m.joltage@, m.buttons@, x)
}

/// What `solve_machine_joltage` answers for `m` (`joltage_outcome`): a cost
/// that a press vector reaching every target has, and `None` when no vector
/// reaches the targets.
pub open spec fn counters_answer(m: Machine, r: Option<i64>) -> bool {
    &&& r matches Some(c) ==> reachable_cost(m, c) && c >= 0
    &&& !counters_solvable(m) ==> r is None
    &&& r is Some ==> exists|e: Echelon<i64>, free: Seq<usize>| #[trigger] free_columns_of(m, e, free)
        && r == reduced_answer(m, e, free)
    &&& joltage_outcome(m, r)
}

/// Every machine has fewer than `usize::MAX` buttons.
pub open spec fn sized(machines: Seq<Machine>) -> bool {
    forall|i: int| 0 <= i < machines.len() ==> #[trigger] machines[i].buttons.len() < usize::MAX
}

/// Every answer is present.
pub open spec fn all_present<T>(rs: Seq<Option<T>>) -> bool {
    forall|i: int| 0 <= i < rs.len() ==> #[trigger] rs[i] is Some
}

/// Sum of the present answers.
pub open spec fn total_usize(rs: Seq<Option<usize>>) -> int
    decreases rs.len(),
{
    if rs.len() == 0 {
        0
    } else {
        total_usize(rs.drop_last()) + match rs.last() { Some(k) => k as int, None => 0 }
    }
}

/// Sum of the present answers.
pub open spec fn total_i64(rs: Seq<Option<i64>>) -> int
    decreases rs.len(),
{
    if rs.len() == 0 {
        0
    } else {
        total_i64(rs.drop_last()) + match rs.last() { Some(k) => k as int, None => 0 }
    }
}

proof fn lemma_abs_sum_nonneg(x: Seq<i64>)
    ensures
        abs_sum(x) >= 0,
    decreases x.len(),
{
    if x.len() > 0 {
        lemma_abs_sum_nonneg(x.drop_last());
    }
}

/// Sum of the fewest light presses over all machines: the sum of the
/// machines' own answers (see `lights_answer`), or `None` when one of them
/// has none or the sum leaves `usize`.
pub fn part1(machines: &Vec<Machine>) -> (r: Option<usize>)
    requires
        sized(machines@),
    ensures
        exists|rs: Seq<Option<usize>>| rs.len() == machines.len()
            && (forall|i: int| 0 <= i < machines.len() ==> #[trigger] lights_answer(machines@[i], rs[i]))
            && r == (if all_present(rs) && total_usize(rs) <= usize::MAX { Some(total_usize(rs) as usize) } else { None }),
        r is Some ==> forall|i: int| 0 <= i < machines.len() ==> lights_solvable(#[trigger] machines@[i]),
        (exists|i: int| 0 <= i < machines.len() && !lights_solvable(#[trigger] machines@[i])) ==> r is None,
{
    part1_reporting(machines).0
}

/// Sum of the fewest light presses over all machines: the sum of the
/// machines' own answers (see `lights_answer`), or `None` when one of them
/// has none or the sum leaves `usize`; with it, the number of machines whose
/// answer came from the unsearched fallback (more than `MAX_SEARCHED_FREE`
/// free buttons) and so may not be the fewest presses.
pub fn part1_reporting(machines: &Vec<Machine>) -> (res: (Option<usize>, usize))
    requires
        sized(machines@),
    ensures
        res.1 <= machines.len(),
        exists|rs: Seq<Option<usize>>| rs.len() == machines.len()
            && (forall|i: int| 0 <= i < machines.len() ==> #[trigger] lights_answer(machines@[i], rs[i]))
            && res.0 == (if all_present(rs) && total_usize(rs) <= usize::MAX { Some(total_usize(rs) as usize) } else { None }),
        res.0 is Some ==> forall|i: int| 0 <= i < machines.len() ==> lights_solvable(#[trigger] machines@[i]),
        (exists|i: int| 0 <= i < machines.len() && !lights_solvable(#[trigger] machines@[i])) ==> res.0 is None,
{
    let mut total: usize = 0;
    let mut fits = true;
    let mut present = true;
    let mut unsearched: usize = 0;
    let ghost mut rs: Seq<Option<usize>> = Seq::empty();
    let mut i: usize = 0;
    while i < machines.len()
        invariant
            i <= machines.len(),
            sized(machines@),
            rs.len() == i,
            forall|k: int| 0 <= k < i ==> #[trigger] lights_answer(machines@[k], rs[k]),
            present == all_present(rs),
            fits ==> total == total_usize(rs),
            unsearched <= i,
            !fits ==> total_usize(rs) > usize::MAX,
        decreases machines.len() - i,
    {
        let (a, exhaustive) = solve_machine_reporting(&machines[i]);
        if !exhaustive {
            unsearched += 1;
        }
        proof {
            assert(rs.push(a).drop_last() == rs);
        }
        match a {
            Some(k) => {
                if fits {
                    match total.checked_add(k) {
                        Some(t) => {
                            total = t;
                        },
                        None => {
                            fits = false;
                        },
                    }
                }
            },
            None => {
                present = false;
            },
        }
        proof {
            rs = rs.push(a);
            assert(present == all_present(rs)) by {
                if present {
                    assert forall|q: int| 0 <= q < rs.len() implies #[trigger] rs[q] is Some by {
                        if q < rs.len() - 1 {
                            assert(rs.drop_last()[q] == rs[q]);
                        }
                    }
                } else {
                    if a is Some {
                        let q = choose|q: int| 0 <= q < rs.len() - 1 && !(#[trigger] rs.drop_last()[q] is Some);
                        assert(rs[q] == rs.drop_last()[q]);
                    } else {
                        assert(!(rs[rs.len() - 1] is Some));
                    }
                }
            }
        }
        i += 1;
    }
    proof {
        assert forall|k: int| 0 <= k < machines.len() && !lights_solvable(#[trigger] machines@[k]) implies !all_present(rs) by {
            assert(lights_answer(machines@[k], rs[k]));
        }
        if present {
            assert forall|k: int| 0 <= k < machines.len() implies lights_solvable(#[trigger] machines@[k]) by {
                assert(lights_answer(machines@[k], rs[k]));
                assert(rs[k] is Some);
            }
        }
    }
    if present && fits {
        (Some(total), unsearched)
    } else {
        (None, unsearched)
    }
}

/// Sum of the fewest counter presses over all machines: the sum of the
/// machines' own answers (see `counters_answer`), or `None` when one of them
/// has none or the sum leaves `i64`.
pub fn part2(machines: &Vec<Machine>) -> (r: Option<i64>)
    requires
        sized(machines@),
    ensures
        exists|rs: Seq<Option<i64>>| rs.len() == machines.len()
            && (forall|i: int| 0 <= i < machines.len() ==> #[trigger] counters_answer(machines@[i], rs[i]))
            && r == (if all_present(rs) && total_i64(rs) <= i64::MAX { Some(total_i64(rs) as i64) } else { None }),
        r is Some ==> forall|i: int| 0 <= i < machines.len() ==> counters_solvable(#[trigger] machines@[i]),
        (exists|i: int| 0 <= i < machines.len() && !counters_solvable(#[trigger] machines@[i])) ==> r is None,
{
    let mut total: i64 = 0;
    let mut fits = true;
    let mut present = true;
    let ghost mut rs: Seq<Option<i64>> = Seq::empty();
    let mut i: usize = 0;
    while i < machines.len()
        invariant
            i <= machines.len(),
            sized(machines@),
            rs.len() == i,
            forall|k: int| 0 <= k < i ==> #[trigger] counters_answer(machines@[k], rs[k]),
            present == all_present(rs),
            total_i64(rs) >= 0,
            fits ==> total == total_i64(rs),
            !fits ==> total_i64(rs) > i64::MAX,
        decreases machines.len() - i,
    {
        let a = solve_machine_joltage(&machines[i]);
        proof {
            assert(rs.push(a).drop_last() == rs);
            if a is Some {
                let x = choose|x: Seq<i64>| solves_counters(machines@[i as int].joltage@, machines@[i as int].buttons@, x)
                    && abs_sum(x) == a->0 as int;
                lemma_abs_sum_nonneg(x);
            }
            assert(counters_answer(machines@[i as int], a));
        }
        match a {
            Some(k) => {
                if fits {
                    match total.checked_add(k) {
                        Some(t) => {
                            total = t;
                        },
                        None => {
                            fits = false;
                        },
                    }
                }
            },
            None => {
                present = false;
            },
        }
        proof {
            rs = rs.push(a);
            assert(present == all_present(rs)) by {
                if present {
                    assert forall|q: int| 0 <= q < rs.len() implies #[trigger] rs[q] is Some by {
                        if q < rs.len() - 1 {
                            assert(rs.drop_last()[q] == rs[q]);
                        }
                    }
                } else {
                    if a is Some {
                        let q = choose|q: int| 0 <= q < rs.len() - 1 && !(#[trigger] rs.drop_last()[q] is Some);
                        assert(rs[q] == rs.drop_last()[q]);
                    } else {
                        assert(!(rs[rs.len() - 1] is Some));
                    }
                }
            }
        }
        i += 1;
    }
    proof {
        assert forall|k: int| 0 <= k < machines.len() && !counters_solvable(#[trigger] machines@[k]) implies !all_present(rs) by {
            assert(counters_answer(machines@[k], rs[k]));
        }
        if present {
            assert forall|k: int| 0 <= k < machines.len() implies counters_solvable(#[trigger] machines@[k]) by {
                assert(counters_answer(machines@[k], rs[k]));
                assert(rs[k] is Some);
                let x = choose|x: Seq<i64>| solves_counters(machines@[k].joltage@, machines@[k].buttons@, x)
                    && abs_sum(x) == rs[k]->0 as int;
            }
        }
    }
    if present && fits {
        Some(total)
    } else {
        None
    }
}

} // verus!
