use vstd::prelude::*;

use crate::symbol::Symbol;

verus! {

/// What the environment shows the agent: one symbol per attribute.
#[derive(Clone, Copy, PartialEq, Eq, Hash, Debug)]
pub struct Perception<const N: usize> {
    pub symbols: [Symbol; N],
}

impl<const N: usize> Perception<N> {
    pub fn new(symbols: [Symbol; N]) -> (result: Self)
        ensures
            result.symbols == symbols,
    {
        Self { symbols }
    }

    pub fn get(&self, index: usize) -> (result: Symbol)
        requires
            index < N,
        ensures
            result == self.symbols@[index as int],
    {
        self.symbols[index]
    }
}

} // verus!
