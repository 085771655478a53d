use vstd::prelude::*;

use crate::perception::Perception;
use crate::symbol::Symbol;

verus! {

broadcast use vstd::array::group_array_axioms;

/// The "then" part of a classifier: the change it anticipates. A wildcard
/// anticipates that the attribute stays as it was; a token, that it changes
/// to that token.
#[derive(Clone, Copy, PartialEq, Eq, Hash, Debug)]
pub struct Effect<const N: usize> {
    pub symbols: [Symbol; N],
}

/// One position of an effect anticipates the move from `before` to `after`.
pub open spec fn anticipates_item(item: Symbol, before: Symbol, after: Symbol) -> bool {
    if item is Wildcard {
        before == after
    } else {
        before != after && item == after
    }
}

/// Every position anticipates its part of the transition.
pub open spec fn anticipates_all(effect: Seq<Symbol>, p0: Seq<Symbol>, p1: Seq<Symbol>) -> bool {
    forall|i: int| 0 <= i < effect.len() ==> #[trigger] anticipates_item(effect[i], p0[i], p1[i])
}

/// Every token of the effect names a change that did happen.
pub open spec fn specializable_all(effect: Seq<Symbol>, p0: Seq<Symbol>, p1: Seq<Symbol>) -> bool {
    forall|i: int|
        0 <= i < effect.len() ==> #[trigger] effect[i] is Wildcard || (effect[i] == p1[i] && p0[i]
            != p1[i])
}

/// The effect holds at least one token.
pub open spec fn has_token(effect: Seq<Symbol>) -> bool {
    exists|i: int| 0 <= i < effect.len() && !(#[trigger] effect[i] is Wildcard)
}

fn item_anticipates_change(item: Symbol, before: Symbol, after: Symbol) -> (result: bool)
    ensures
        result == anticipates_item(item, before, after),
{
    if item.is_wildcard() {
        before == after
    } else {
        before != after && item == after
    }
}

impl<const N: usize> Effect<N> {
    pub fn all_wildcard() -> (result: Self)
        ensures
            forall|i: int| 0 <= i < N ==> #[trigger] result.symbols@[i] == Symbol::Wildcard,
    {
        Self { symbols: [Symbol::Wildcard;N] }
    }

    pub fn anticipates_correctly(&self, p0: &Perception<N>, p1: &Perception<N>) -> (result: bool)
        ensures
            result == anticipates_all(self.symbols@, p0.symbols@, p1.symbols@),
    {
        let mut index: usize = 0;
        while index < N
            invariant
                index <= N,
                forall|i: int| 0 <= i < index ==> #[trigger] anticipates_item(self.symbols@[i], p0.symbols@[i], p1.symbols@[i]),
            decreases N - index,
        {
            if !item_anticipates_change(self.symbols[index], p0.symbols[index], p1.symbols[index]) {
                return false;
            }
            index += 1;
        }
        true
    }

    pub fn is_specializable(&self, p0: &Perception<N>, p1: &Perception<N>) -> (result: bool)
        ensures
            result == specializable_all(self.symbols@, p0.symbols@, p1.symbols@),
    {
        let mut index: usize = 0;
        while index < N
            invariant
                index <= N,
                forall|i: int|
                    0 <= i < index ==> #[trigger] self.symbols@[i] is Wildcard || (self.symbols@[i] == p1.symbols@[i]
                        && p0.symbols@[i] != p1.symbols@[i]),
            decreases N - index,
        {
            let item = self.symbols[index];
            if !(item.is_wildcard() || (item == p1.symbols[index] && p0.symbols[index] != p1.symbols[index])) {
                return false;
            }
            index += 1;
        }
        true
    }

    /// The effect anticipates some change.
    pub fn specify_change(&self) -> (result: bool)
        ensures
            result == has_token(self.symbols@),
    {
        let mut index: usize = 0;
        while index < N
            invariant
                index <= N,
                forall|i: int| 0 <= i < index ==> #[trigger] self.symbols@[i] is Wildcard,
            decreases N - index,
        {
            if !self.symbols[index].is_wildcard() {
                return true;
            }
            index += 1;
        }
        false
    }

    /// Effects subsume each other only when they are equal.
    pub fn subsumes(&self, other: &Effect<N>) -> (result: bool)
        ensures
            result == (self.symbols@ == other.symbols@),
    {
        let mut index: usize = 0;
        while index < N
            invariant
                index <= N,
                forall|i: int| 0 <= i < index ==> #[trigger] self.symbols@[i] == other.symbols@[i],
            decreases N - index,
        {
            if self.symbols[index] != other.symbols[index] {
                return false;
            }
            index += 1;
        }
        proof {
            assert(self.symbols@ =~= other.symbols@);
        }
        true
    }

    pub fn get(&self, index: usize) -> (result: Symbol)
        requires
            index < N,
        ensures
            result == self.symbols@[index as int],
    {
        self.symbols[index]
    }

    pub fn set(&mut self, index: usize, symbol: Symbol)
        requires
            index < N,
        ensures
            final(self).symbols@ == old(self).symbols@.update(index as int, symbol),
    {
        self.symbols[index] = symbol;
    }
}

/// An all-wildcard effect anticipates exactly the transitions that change
/// nothing.
pub proof fn lemma_wildcard_effect_anticipates_no_change(
    effect: Seq<Symbol>,
    p0: Seq<Symbol>,
    p1: Seq<Symbol>,
)
    requires
        effect.len() == p0.len(),
        effect.len() == p1.len(),
        forall|i: int| 0 <= i < effect.len() ==> #[trigger] effect[i] == Symbol::Wildcard,
    ensures
        anticipates_all(effect, p0, p1) <==> p0 == p1,
{
    if anticipates_all(effect, p0, p1) {
        assert forall|i: int| 0 <= i < p0.len() implies p0[i] == p1[i] by {
            assert(anticipates_item(effect[i], p0[i], p1[i]));
        }
        assert(p0 =~= p1);
    }
    if p0 == p1 {
        assert forall|i: int| 0 <= i < effect.len() implies #[trigger] anticipates_item(effect[i], p0[i], p1[i]) by {
            assert(effect[i] == Symbol::Wildcard);
        }
    }
}

/// An effect that anticipates a transition correctly can be specialized on
/// it.
pub proof fn lemma_anticipation_implies_specializable(
    effect: Seq<Symbol>,
    p0: Seq<Symbol>,
    p1: Seq<Symbol>,
)
    requires
        anticipates_all(effect, p0, p1),
    ensures
        specializable_all(effect, p0, p1),
{
    assert forall|i: int| 0 <= i < effect.len() implies #[trigger] effect[i] is Wildcard || (effect[i] == p1[i]
        && p0[i] != p1[i]) by {
        assert(anticipates_item(effect[i], p0[i], p1[i]));
    }
}

} // verus!
