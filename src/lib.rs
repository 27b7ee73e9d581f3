use vstd::prelude::*;

/// Dense two-dimensional grids, their neighbour enumeration and parsing.
pub mod grid;
/// Reading numbers and splitting text by separators and white space.
pub mod text;
/// Counting rises in depth readings.
pub mod depth;
/// Submarine commands and the two ways of following them.
pub mod dive;
/// The lanternfish population, counted by timer.
pub mod lanternfish;
/// Crab alignment fuel.
pub mod crabs;
/// Bracket matching and its scores.
pub mod syntax;
/// Bingo boards and games.
pub mod bingo;
/// Counting paths through a cave system with a revisit quota.
pub mod caves;
/// The octopus grid and its chain of flashes.
pub mod octopus;
/// Height maps: low points and the basins around them.
pub mod basin;
/// Lines of hydrothermal vents and the points they cover.
pub mod vents;
/// Folding transparent paper with dots.
pub mod origami;
/// Polymer growth by pair insertion.
pub mod polymer;
/// Ascending order of numbers.
pub mod order;
/// Deducing the wiring of seven-segment displays.
pub mod segments;
/// Power and life support rates from a diagnostic report.
pub mod diagnostic;

verus! {
} // verus!
