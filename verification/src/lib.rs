use vstd::prelude::*;

pub mod card;
pub mod group;
pub mod path_dependent_collective_constraint;
pub mod path_dependent_prob;

verus! {
} // verus!
