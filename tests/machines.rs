use presses::batch::{part1, part1_reporting, part2};
use presses::gf2::{solve_machine, solve_machine_reporting};
use presses::integer::{gcd, solve_machine_joltage};
use presses::machine::{count_pressed, counters_match, lights_match, Machine};
use presses::parse::{parse_input, ParseError};

const EXAMPLE: &str = "[.##.] (3) (1,3) (2) (2,3) (0,2) (0,1) {3,5,4,7}
[...#.] (0,2,3,4) (2,3) (0,4) (0,1,2) (1,2,3,4) {7,5,12,7,2}
[.###.#] (0,1,2,3,4) (0,3,4) (0,1,2,4,5) (1,2) {10,11,11,5,10,5}
";

fn machine(target: &str, buttons: &[&[usize]], joltage: &[i64]) -> Machine {
    Machine {
        target: target.chars().map(|c| c == '#').collect(),
        buttons: buttons.iter().map(|b| b.to_vec()).collect(),
        joltage: joltage.to_vec(),
    }
}

/// Fewest presses over every press pattern, by enumeration.
fn brute_force_lights(m: &Machine) -> Option<usize> {
    let n = m.buttons.len();
    let mut best: Option<usize> = None;
    for mask in 0u64..(1u64 << n) {
        let x: Vec<bool> = (0..n).map(|j| (mask >> j) & 1 == 1).collect();
        if lights_match(&m.target, &m.buttons, &x) {
            let k = count_pressed(&x);
            if best.map_or(true, |b| k < b) {
                best = Some(k);
            }
        }
    }
    best
}

#[test]
fn parses_example_record() {
    let ms = parse_input("[.##.](0,1)(1,2,3){3,5,4,7}").unwrap();
    assert_eq!(ms.len(), 1);
    assert_eq!(ms[0].target, vec![false, true, true, false]);
    assert_eq!(ms[0].buttons, vec![vec![0, 1], vec![1, 2, 3]]);
    assert_eq!(ms[0].joltage, vec![3, 5, 4, 7]);
}

#[test]
fn parses_spaced_records_and_skips_blank_lines() {
    let ms = parse_input(EXAMPLE).unwrap();
    assert_eq!(ms.len(), 3);
    assert_eq!(ms[1].buttons.len(), 5);
    assert_eq!(ms[2].joltage, vec![10, 11, 11, 5, 10, 5]);
    let ms = parse_input("\n  \n[#] (0) {1}\r\n\n").unwrap();
    assert_eq!(ms.len(), 1);
    assert_eq!(ms[0].buttons, vec![vec![0]]);
}

#[test]
fn rejects_malformed_records() {
    assert_eq!(parse_input("[.#] (0,1)").unwrap_err(), ParseError::MalformedRecord { line: 0 });
    assert_eq!(parse_input("[#] (0) {1}\n.#] (0) {1}").unwrap_err(), ParseError::MalformedRecord { line: 1 });
    assert_eq!(parse_input("[#x] (0) {1}").unwrap_err(), ParseError::MalformedRecord { line: 0 });
    assert_eq!(parse_input("[#] (a) {1}").unwrap_err(), ParseError::MalformedRecord { line: 0 });
    assert_eq!(parse_input("[#] (0) {1,}").unwrap_err(), ParseError::MalformedRecord { line: 0 });
    assert_eq!(parse_input("[#] (0) {1} (0)").unwrap_err(), ParseError::MalformedRecord { line: 0 });
    assert_eq!(parse_input("[#] () {1}").unwrap_err(), ParseError::MalformedRecord { line: 0 });
}

#[test]
fn two_button_lights_example_is_infeasible() {
    let m = &parse_input("[.##.](0,1)(1,2,3){3,5,4,7}").unwrap()[0];
    assert_eq!(m.buttons.len(), 2);
    assert_eq!(m.target.len(), 4);
    assert_eq!(solve_machine(m), None);
    assert_eq!(brute_force_lights(m), None);
}

#[test]
fn two_button_joltage_example_is_infeasible() {
    let m = &parse_input("[.##.](0,1)(1,2,3){3,5,4,7}").unwrap()[0];
    assert_eq!(solve_machine_joltage(m), None);
}

#[test]
fn example_lights_minimum_per_machine() {
    let ms = parse_input(EXAMPLE).unwrap();
    let got: Vec<Option<usize>> = ms.iter().map(solve_machine).collect();
    assert_eq!(got, vec![Some(2), Some(3), Some(2)]);
    for m in &ms {
        assert_eq!(solve_machine(m), brute_force_lights(m));
    }
    assert_eq!(part1(&ms), Some(7));
}

#[test]
fn example_joltage_minimum_per_machine() {
    let ms = parse_input(EXAMPLE).unwrap();
    let got: Vec<Option<i64>> = ms.iter().map(solve_machine_joltage).collect();
    assert_eq!(got, vec![Some(10), Some(12), Some(11)]);
    assert_eq!(part2(&ms), Some(33));
}

#[test]
fn no_buttons_with_lit_target_is_infeasible() {
    let m = machine("#.", &[], &[0, 2]);
    assert_eq!(solve_machine(&m), None);
    assert_eq!(solve_machine_joltage(&m), None);
    assert_eq!(part1(&[m.clone()].to_vec()), None);
    assert_eq!(part2(&vec![m]), None);
}

#[test]
fn no_buttons_with_dark_target_needs_nothing() {
    let m = machine("..", &[], &[0, 0]);
    assert_eq!(solve_machine(&m), Some(0));
    assert_eq!(solve_machine_joltage(&m), Some(0));
}

#[test]
fn sixteen_free_buttons_use_the_fallback() {
    let mut buttons: Vec<&[usize]> = vec![&[0], &[1]];
    for _ in 0..16 {
        buttons.push(&[0, 1]);
    }
    let m = machine("##", &buttons, &[]);
    // every free button unpressed forces both single-light buttons on
    assert_eq!(solve_machine(&m), Some(2));
    assert_eq!(solve_machine_reporting(&m), (Some(2), false));
    assert_eq!(brute_force_lights(&m), Some(1));
}

#[test]
fn fifteen_free_buttons_are_searched() {
    let mut buttons: Vec<&[usize]> = vec![&[0], &[1]];
    for _ in 0..15 {
        buttons.push(&[0, 1]);
    }
    let m = machine("##", &buttons, &[]);
    assert_eq!(solve_machine(&m), Some(1));
    assert_eq!(solve_machine_reporting(&m), (Some(1), true));
    assert_eq!(brute_force_lights(&m), Some(1));
}

#[test]
fn out_of_range_indices_are_ignored() {
    let m = machine("#", &[&[0, 7]], &[3]);
    assert_eq!(solve_machine(&m), Some(1));
    assert_eq!(solve_machine_joltage(&m), Some(3));
}

#[test]
fn joltage_solution_reproduces_targets() {
    let m = machine("..", &[&[0], &[0, 1], &[1]], &[4, 6]);
    // x0 + x1 = 4, x1 + x2 = 6: fewest presses put everything on x1 = 4, x2 = 2
    assert_eq!(solve_machine_joltage(&m), Some(6));
    assert!(counters_match(&m.joltage, &m.buttons, &vec![0, 4, 2]));
    assert!(!counters_match(&m.joltage, &m.buttons, &vec![1, 4, 2]));
}

#[test]
fn unique_joltage_solution_with_negative_entry_costs_its_magnitude() {
    // x0 + x1 = 1, x1 = 3: the only solution is x0 = -2, x1 = 3
    let m = machine("", &[&[0], &[0, 1]], &[1, 3]);
    assert_eq!(solve_machine_joltage(&m), Some(5));
}

#[test]
fn lights_solution_is_checked() {
    let m = machine("##.", &[&[0, 1], &[1, 2]], &[]);
    assert!(lights_match(&m.target, &m.buttons, &vec![true, false]));
    assert!(!lights_match(&m.target, &m.buttons, &vec![true, true]));
    assert_eq!(solve_machine(&m), Some(1));
}

#[test]
fn gcd_values() {
    assert_eq!(gcd(12, 18), 6);
    assert_eq!(gcd(0, 5), 5);
    assert_eq!(gcd(7, 0), 7);
    assert_eq!(gcd(17, 5), 1);
}

#[test]
fn solving_twice_gives_the_same_answer() {
    let ms = parse_input(EXAMPLE).unwrap();
    for m in &ms {
        assert_eq!(solve_machine(m), solve_machine(m));
        assert_eq!(solve_machine_joltage(m), solve_machine_joltage(m));
    }
}

#[test]
fn lights_minimum_matches_enumeration_on_generated_machines() {
    let mut seed: u64 = 0x2545_f491_4f6c_dd1d;
    let mut next = move |bound: u64| {
        seed = seed.wrapping_mul(6364136223846793005).wrapping_add(1442695040888963407);
        (seed >> 33) % bound
    };
    for _ in 0..400 {
        let lights = 1 + next(5) as usize;
        let n_buttons = next(8) as usize;
        let target: Vec<bool> = (0..lights).map(|_| next(2) == 1).collect();
        let buttons: Vec<Vec<usize>> = (0..n_buttons)
            .map(|_| {
                let mut b: Vec<usize> = (0..lights + 1).filter(|_| next(2) == 1).collect();
                if b.is_empty() {
                    b.push(next(lights as u64) as usize);
                }
                b
            })
            .collect();
        let m = Machine { target, buttons, joltage: vec![] };
        assert_eq!(solve_machine(&m), brute_force_lights(&m), "{:?}", m);
    }
}

/// Fewest total presses with each button pressed at most `cap` times.
fn brute_force_counters(m: &Machine, cap: i64) -> Option<i64> {
    let n = m.buttons.len();
    let mut x = vec![0i64; n];
    let mut best: Option<i64> = None;
    loop {
        if counters_match(&m.joltage, &m.buttons, &x) {
            let s: i64 = x.iter().sum();
            if best.map_or(true, |b| s < b) {
                best = Some(s);
            }
        }
        let mut k = 0;
        while k < n && x[k] == cap {
            x[k] = 0;
            k += 1;
        }
        if k == n {
            return best;
        }
        x[k] += 1;
    }
}

#[test]
fn counter_answers_reach_the_targets_on_generated_machines() {
    let mut seed: u64 = 0x9e37_79b9_7f4a_7c15;
    let mut next = move |bound: u64| {
        seed = seed.wrapping_mul(6364136223846793005).wrapping_add(1442695040888963407);
        (seed >> 33) % bound
    };
    for _ in 0..200 {
        let counters = 1 + next(4) as usize;
        let n_buttons = 1 + next(4) as usize;
        let buttons: Vec<Vec<usize>> = (0..n_buttons)
            .map(|_| {
                let mut b: Vec<usize> = (0..counters).filter(|_| next(2) == 1).collect();
                if b.is_empty() {
                    b.push(next(counters as u64) as usize);
                }
                b
            })
            .collect();
        let presses: Vec<i64> = (0..n_buttons).map(|_| next(4) as i64).collect();
        let joltage: Vec<i64> = (0..counters)
            .map(|i| (0..n_buttons).filter(|&j| buttons[j].contains(&i)).map(|j| presses[j]).sum())
            .collect();
        let m = Machine { target: vec![], buttons, joltage };
        let got = solve_machine_joltage(&m);
        let best = brute_force_counters(&m, 12);
        assert!(got.is_some(), "{:?}", m);
        assert!(best.is_some());
        assert!(got.unwrap() >= best.unwrap(), "{:?}", m);
    }
}

#[test]
fn totals_report_unsearched_machines() {
    let mut buttons: Vec<&[usize]> = vec![&[0], &[1]];
    for _ in 0..16 {
        buttons.push(&[0, 1]);
    }
    let wide = machine("##", &buttons, &[]);
    let small = machine("#", &[&[0]], &[1]);
    assert_eq!(part1_reporting(&vec![wide.clone(), small.clone()]), (Some(3), 1));
    assert_eq!(part1_reporting(&vec![small.clone()]), (Some(1), 0));
    assert_eq!(part1(&vec![]), Some(0));
    assert_eq!(part2(&vec![]), Some(0));
}

#[test]
fn out_of_range_counter_indices_do_not_change_the_answer() {
    let a = machine("", &[&[0, 5], &[0, 1, 9]], &[3, 1]);
    let b = machine("", &[&[0], &[0, 1]], &[3, 1]);
    assert_eq!(solve_machine_joltage(&a), solve_machine_joltage(&b));
    assert_eq!(solve_machine_joltage(&a), Some(3));
}
