//! Exact probabilities for pools of dice whose faces carry named symbols.
//!
//! A pool of [`dice`] is rolled; a policy says which of the rolled sides
//! count and which of their symbols; every joint roll is enumerated and the
//! outcomes are counted in a table ([`rolls`]). The table answers how many
//! joint rolls meet a set of targets and how one pool fares against another.
//! All counts are exact integers: dividing them is left to the caller.

pub mod dice;
pub mod item_counter;
pub mod multi_cart;
pub mod rolls;
