//! Verified solutions to a set of small daily text puzzles.
//!
//! Each module owns one puzzle: it models the puzzle's data as plain values,
//! states what every operation computes in `requires`/`ensures` contracts,
//! and proves the implementation against them.

pub mod calories;
pub mod chamber;
pub mod cleaning;
pub mod cpu;
pub mod crates;
pub mod directories;
pub mod forest;
pub mod mixing;
pub mod monkeys;
pub mod parsing;
pub mod rope;
pub mod rucksack;
pub mod sensors;
pub mod snafu;
pub mod text;
