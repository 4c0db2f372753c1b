//! Button-press puzzles: the fewest presses that bring a machine's lights to
//! a target pattern (elimination over GF(2)) and its counters to their
//! targets (fraction-free integer elimination), with a record parser and
//! batch totals; and a handful of small, unrelated puzzle helpers.
//!
//! - `machine`: the machine type and the equations a press vector must meet
//! - `echelon`: row echelon systems shared by the two solvers
//! - `gf2`: the light solver, with its optimality proofs
//! - `integer`: the counter solver
//! - `parse`, `batch`: reading records, summing answers
//! - `dial`, `ids`, `batteries`, `paper_grid`, `fresh_ranges`, `worksheet`,
//!   `junctions`, `tiles`: the smaller puzzles

pub mod machine;
pub mod echelon;
pub mod gf2;
pub mod integer;
pub mod batch;
pub mod parse;
pub mod tiles;
pub mod paper_grid;
pub mod worksheet;
pub mod fresh_ranges;
pub mod ids;
pub mod junctions;
pub mod batteries;
pub mod dial;
