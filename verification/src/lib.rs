//! Multi-objective timetabling: a weekly grid of slots, events that must each
//! be placed once in a room of the right kind, and the hard constraints that
//! every placement has to satisfy.
//!
//! `project` holds the problem, `grid` the model of a timetable and its hard
//! constraints, `solution` and `validity` the timetable itself, `initial`
//! the search for a first feasible timetable, `neighborhoods` the moves that
//! make feasible timetables from a feasible one, `pareto` the skyline of
//! scored candidates, and `optimize`, `criteria` and `tsp` what the
//! optimizer loop counts, sums and reorders.

pub mod criteria;
pub mod grid;
pub mod initial;
pub mod laws;
pub mod neighborhoods;
pub mod optimize;
pub mod pareto;
pub mod project;
pub mod random;
pub mod solution;
pub mod tsp;
pub mod validity;
pub mod utils;
