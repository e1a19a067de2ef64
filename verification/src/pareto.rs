//! The Pareto skyline: the items of a set that no other item dominates.

pub mod bounds;
pub mod dominance;
pub mod frontline;
pub mod order;
pub mod skyline;
pub mod thermal;

pub use dominance::{less_by_first, CanDominate};
pub use frontline::{naive, random_frontline, random_mosa};
pub use skyline::kung_recursive;
pub use thermal::kung_recursive_mosa;
