use vstd::prelude::*;

verus! {

/// Always the action of the fittest classifiers of the match set.
#[derive(Clone, Copy, PartialEq, Eq, Debug, Structural)]
pub struct BestAction {
    pub number_of_possible_actions: usize,
}

/// Any action, drawn uniformly.
#[derive(Clone, Copy, PartialEq, Eq, Debug, Structural)]
pub struct RandomAction {
    pub number_of_possible_actions: usize,
}

} // verus!
