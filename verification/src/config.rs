use vstd::prelude::*;

verus! {

/// Which of the two published variants of the ALP generalization the agent
/// follows.
#[derive(Clone, Copy, PartialEq, Eq, Debug, Structural)]
pub enum AlpGenVariant {
    Pyalcs,
    Butz,
}

} // verus!
