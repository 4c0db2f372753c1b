use presses::batteries::{self, best_pair};
use presses::dial::{follow, parse_direction_value, rotate};
use presses::fresh_ranges::{coalesce_ranges, contains_id};
use presses::ids;
use presses::junctions::{self, compute_all_pairs, find_components, is_connected, sq_dst};
use presses::paper_grid::{self, count_adjacent};
use presses::tiles::{self, is_on_segment, is_point_inside_polygon, is_rectangle_valid, segments_intersect};
use presses::worksheet::{solve, transpose, Worksheet};

const TILES: [(i32, i32); 8] = [(7, 1), (11, 1), (11, 7), (9, 7), (9, 5), (2, 5), (2, 3), (7, 3)];

fn grid() -> Vec<Vec<char>> {
    "..@@.@@@@.
@@@.@.@.@@
@@@@@.@.@@
@.@@@@..@.
@@.@@@@.@@
.@@@@@@@.@
.@.@.@.@@@
@.@@@.@@@@
.@@@@@@@@.
@.@.@@@.@."
        .lines()
        .map(|l| l.chars().collect())
        .collect()
}

#[test]
fn largest_rectangle_between_tiles() {
    assert_eq!(tiles::part1(&TILES.to_vec()), 50);
    assert_eq!(tiles::part1(&vec![(1, 1)]), 0);
    assert_eq!(tiles::part1(&vec![(i32::MIN, i32::MIN), (i32::MAX, i32::MAX)]), 1u128 << 64);
}

#[test]
fn largest_rectangle_inside_polygon() {
    assert_eq!(tiles::part2(&TILES.to_vec()), 24);
}

#[test]
fn points_on_segments() {
    assert!(is_on_segment((0, 0), (4, 4), 2, 2));
    assert!(is_on_segment((0, 0), (4, 0), 4, 0));
    assert!(!is_on_segment((0, 0), (4, 4), 2, 3));
    assert!(!is_on_segment((0, 0), (4, 4), 5, 5));
}

#[test]
fn crossing_segments() {
    assert!(segments_intersect((0, 0), (4, 4), (0, 4), (4, 0)));
    assert!(!segments_intersect((0, 0), (4, 0), (0, 1), (4, 1)));
    // touching at an end point is not a crossing
    assert!(!segments_intersect((0, 0), (4, 0), (4, 0), (4, 4)));
    assert!(!segments_intersect((0, 0), (2, 2), (3, 0), (3, 4)));
}

#[test]
fn points_inside_polygon() {
    let poly = TILES.to_vec();
    assert!(is_point_inside_polygon(&poly, 8, 2));
    assert!(is_point_inside_polygon(&poly, 7, 1));
    assert!(is_point_inside_polygon(&poly, 3, 4));
    assert!(!is_point_inside_polygon(&poly, 3, 2));
    assert!(!is_point_inside_polygon(&poly, 12, 4));
}

#[test]
fn rectangles_inside_polygon() {
    let poly = TILES.to_vec();
    assert!(is_rectangle_valid(&poly, 2, 3, 9, 5));
    assert!(!is_rectangle_valid(&poly, 2, 1, 11, 5));
}

#[test]
fn adjacent_rolls() {
    let g = grid();
    assert_eq!(count_adjacent(&g, 0, 0, 10, 10), 2);
    assert_eq!(count_adjacent(&g, 0, 2, 10, 10), 3);
    assert_eq!(count_adjacent(&g, 4, 4, 10, 10), 8);
}

#[test]
fn reachable_rolls() {
    assert_eq!(paper_grid::part1(&grid()), 13);
}

#[test]
fn transposes_rows_into_columns() {
    let t = transpose(vec![vec![1, 2, 3], vec![4, 5, 6]]);
    assert_eq!(t, vec![vec![1, 4], vec![2, 5], vec![3, 6]]);
    assert_eq!(transpose(vec![]), Vec::<Vec<u64>>::new());
}

#[test]
fn worksheet_grand_total() {
    let w = Worksheet {
        numbers: transpose(vec![vec![123, 328, 51, 64], vec![45, 64, 387, 23], vec![6, 98, 215, 314]]),
        operators: vec!['*', '+', '*', '+'],
    };
    assert_eq!(solve(&w), Some(33210 + 490 + 4243455 + 401));
    let overflow = Worksheet { numbers: vec![vec![u64::MAX, 2]], operators: vec!['*'] };
    assert_eq!(solve(&overflow), None);
}

#[test]
fn merges_overlapping_and_touching_ranges() {
    let mut r = vec![(3, 5), (10, 14), (16, 20), (12, 18)];
    coalesce_ranges(&mut r);
    assert_eq!(r, vec![(3, 5), (10, 20)]);
    let mut r = vec![(6, 8), (1, 2), (3, 4)];
    coalesce_ranges(&mut r);
    assert_eq!(r, vec![(1, 4), (6, 8)]);
    let mut r: Vec<(u64, u64)> = vec![];
    coalesce_ranges(&mut r);
    assert!(r.is_empty());
}

#[test]
fn fresh_ids() {
    let mut r = vec![(3, 5), (10, 14), (16, 20), (12, 18)];
    coalesce_ranges(&mut r);
    assert!(contains_id(&r, 5));
    assert!(!contains_id(&r, 8));
    assert_eq!(presses::fresh_ranges::part1(&r, &vec![1, 5, 8, 11, 17, 32]), 3);
    assert_eq!(presses::fresh_ranges::part2(&r), Some(14));
    assert_eq!(presses::fresh_ranges::part2(&vec![(0, u64::MAX)]), None);
}

#[test]
fn doubled_ids() {
    assert_eq!(ids::part1(11), 11);
    assert_eq!(ids::part1(1010), 1010);
    assert_eq!(ids::part1(123123), 123123);
    assert_eq!(ids::part1(101), 0);
    assert_eq!(ids::part1(1011), 0);
    assert_eq!(ids::part1(0), 0);
}

#[test]
fn repeated_ids() {
    assert_eq!(ids::part2(111), 111);
    assert_eq!(ids::part2(12341234), 12341234);
    assert_eq!(ids::part2(1212121212), 1212121212);
    assert_eq!(ids::part2(1213), 0);
    assert_eq!(ids::part2(7), 0);
}

#[test]
fn squared_distances() {
    assert_eq!(sq_dst((162, 817, 812), (57, 618, 57)), 620651);
    assert_eq!(sq_dst((0, 0, 0), (u32::MAX, u32::MAX, u32::MAX)), 3 * (u32::MAX as u128) * (u32::MAX as u128));
}

#[test]
fn pairs_in_distance_order() {
    let pairs = compute_all_pairs(&vec![(0, 0, 0), (10, 0, 0), (1, 0, 0)]);
    assert_eq!(pairs, vec![(0, 2, 1), (1, 2, 81), (0, 1, 100)]);
}

#[test]
fn sweep_clears_reachable_rolls_in_reading_order() {
    let mut g = grid();
    let before = g.clone();
    let cleared = paper_grid::part2(&mut g);
    let changed = (0..10).flat_map(|i| (0..10).map(move |j| (i, j))).filter(|&(i, j)| g[i][j] != before[i][j]).count();
    assert_eq!(cleared as usize, changed);
    assert_eq!(cleared, 30);
    let mut total = cleared;
    loop {
        let more = paper_grid::part2(&mut g);
        if more == 0 {
            break;
        }
        total += more;
    }
    assert_eq!(total, 43);
}

#[test]
fn best_battery_pairs() {
    assert_eq!(best_pair(&vec![9, 8, 7]), 98);
    assert_eq!(best_pair(&vec![1, 9]), 19);
    assert_eq!(best_pair(&vec![8, 1, 9]), 89);
    assert_eq!(best_pair(&vec![5]), 0);
    assert_eq!(batteries::part1("987654321111111\n811111111111119\n234234234234278\n818181911112111"), 357);
    assert_eq!(batteries::part1("12\n\n34\n"), 12 + 34);
}

#[test]
fn best_twelve_battery_banks() {
    assert_eq!(batteries::best_twelve(&"987654321111111".chars().map(|c| c.to_digit(10).unwrap()).collect()), 987654321111);
    assert_eq!(batteries::best_twelve(&vec![1, 2, 3]), 0);
    assert_eq!(batteries::part2("987654321111111\n811111111111119\n234234234234278\n818181911112111"), 3121910778619);
    assert_eq!(batteries::part2("12345678901\n"), 0);
}

#[test]
fn reads_rotations() {
    assert_eq!(parse_direction_value("R48"), Some(('R', 48)));
    assert_eq!(parse_direction_value("L-5"), Some(('L', -5)));
    assert_eq!(parse_direction_value("R+7"), Some(('R', 7)));
    assert_eq!(parse_direction_value("L2147483647"), Some(('L', 2147483647)));
    assert_eq!(parse_direction_value("L2147483648"), None);
    assert_eq!(parse_direction_value("R4x"), None);
    assert_eq!(parse_direction_value("R"), None);
    assert_eq!(parse_direction_value("R-"), None);
    assert_eq!(parse_direction_value(""), None);
}

#[test]
fn rotations_and_zero_clicks() {
    assert_eq!(rotate(50, 'L', 68), (82, 1));
    assert_eq!(rotate(0, 'L', 0), (0, 1));
    assert_eq!(rotate(0, 'L', 100), (0, 1));
    assert_eq!(rotate(5, 'L', 205), (0, 3));
    assert_eq!(rotate(99, 'R', 1), (0, 1));
    assert_eq!(rotate(50, 'R', 1000), (50, 10));
}

#[test]
fn follows_the_rotation_list() {
    let moves: Vec<(char, i32)> = "L68 L30 R48 L5 R60 L55 L1 L99 R14 L82"
        .split(' ')
        .map(|m| parse_direction_value(m).unwrap())
        .collect();
    assert_eq!(follow(&moves), (3, 6));
}

#[test]
fn reads_id_ranges() {
    assert_eq!(ids::parse_direction_value("11-22"), Some((11, 22)));
    assert_eq!(ids::parse_direction_value("1-2-3"), Some((1, 2)));
    assert_eq!(ids::parse_direction_value("+5-7"), Some((5, 7)));
    assert_eq!(ids::parse_direction_value("18446744073709551615-0"), Some((u64::MAX, 0)));
    assert_eq!(ids::parse_direction_value("18446744073709551616-0"), None);
    assert_eq!(ids::parse_direction_value("5"), None);
    assert_eq!(ids::parse_direction_value("a-1"), None);
    assert_eq!(ids::parse_direction_value("1-"), None);
    assert_eq!(ids::parse_direction_value("1- 2"), None);
}

#[test]
fn component_sizes() {
    let graph = vec![vec![1], vec![0, 2], vec![1], vec![4], vec![3], vec![]];
    let mut sizes = find_components(&graph);
    sizes.sort();
    assert_eq!(sizes, vec![1, 2, 3]);
    assert_eq!(find_components(&vec![]), Vec::<usize>::new());
}

#[test]
fn connectivity_from_the_first_node() {
    let mut visited = vec![true; 4];
    let mut stack = vec![9, 9];
    assert!(is_connected(&vec![vec![1], vec![2], vec![3], vec![]], &mut visited, &mut stack));
    let mut visited = vec![false; 3];
    let mut stack = Vec::new();
    assert!(!is_connected(&vec![vec![1], vec![0], vec![]], &mut visited, &mut stack));
    // edges point one way: node 0 cannot be left
    let mut visited = vec![false; 2];
    assert!(!is_connected(&vec![vec![], vec![0]], &mut visited, &mut stack));
    let mut visited: Vec<bool> = vec![];
    assert!(is_connected(&vec![], &mut visited, &mut stack));
}

#[test]
fn reads_tiles() {
    assert_eq!(tiles::parse_input("7,1\n11,1\r\n-2,3\n"), Some(vec![(7, 1), (11, 1), (-2, 3)]));
    assert_eq!(tiles::parse_input(""), Some(vec![]));
    assert_eq!(tiles::parse_input("7,1\n\n2,3"), None);
    assert_eq!(tiles::parse_input("7;1"), None);
    assert_eq!(tiles::parse_input("7,1,2"), None);
    assert_eq!(tiles::parse_input(" 7,1"), None);
}

#[test]
fn reads_junction_boxes_skipping_bad_lines() {
    assert_eq!(
        junctions::parse_input("162,817,812\n57,618,57\nbad\n1,2\n1,2,3,4\r\n-1,2,3\n4294967296,0,0\n"),
        vec![(162, 817, 812), (57, 618, 57), (1, 2, 3)]
    );
}

const BOXES: &str = "162,817,812\n57,618,57\n906,360,560\n592,479,940\n352,342,300\n466,668,158\n542,29,236\n431,825,988\n739,650,466\n52,470,668\n216,146,977\n819,987,18\n117,168,530\n805,96,715\n346,949,466\n970,615,88\n941,993,340\n862,61,35\n984,92,344\n425,690,689\n";

#[test]
fn first_edge_that_connects_all_boxes() {
    let coords = junctions::parse_input(BOXES);
    assert_eq!(coords.len(), 20);
    let pairs = compute_all_pairs(&coords);
    assert_eq!(pairs.len(), 190);
    assert_eq!(junctions::part2(&pairs, &coords, coords.len()), 25272);
    // too few edges to connect three points
    let few = vec![(0, 1, 1)];
    assert_eq!(junctions::part2(&few, &vec![(2, 0, 0), (3, 0, 0), (4, 0, 0)], 3), 0);
}
