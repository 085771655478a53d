use vstd::prelude::*;

verus! {

/// The bootstrap estimate of the reinforcement update: the maximum fitness
/// over the match set.
#[derive(Clone, Copy, PartialEq, Eq, Debug, Structural)]
pub struct MaxFitnessBootstrap;

} // verus!
