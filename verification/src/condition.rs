use vstd::prelude::*;

use crate::perception::Perception;
use crate::rng::RandomSource;
use crate::symbol::Symbol;

verus! {

broadcast use vstd::array::group_array_axioms;

/// The "if" part of a classifier: the perceptions it applies to.
#[derive(Clone, Copy, PartialEq, Eq, Hash, Debug)]
pub struct Condition<const N: usize> {
    pub symbols: [Symbol; N],
}

/// A wildcard on either side is compatible with anything; two tokens only
/// with themselves.
pub open spec fn compatible(left: Symbol, right: Symbol) -> bool {
    left is Wildcard || right is Wildcard || left == right
}

/// Every position of `left` is compatible with the same position of `right`.
pub open spec fn all_compatible(left: Seq<Symbol>, right: Seq<Symbol>) -> bool {
    forall|i: int| 0 <= i < left.len() ==> #[trigger] compatible(left[i], right[i])
}

/// A sequence made of wildcards only.
pub open spec fn all_wildcards(symbols: Seq<Symbol>) -> bool {
    forall|i: int| 0 <= i < symbols.len() ==> #[trigger] symbols[i] == Symbol::Wildcard
}

/// The number of positions that hold a token.
/// The positions below `count` that hold a token, in increasing order.
pub open spec fn token_positions(symbols: Seq<Symbol>, count: nat) -> Seq<usize>
    decreases count,
{
    if count == 0 {
        Seq::empty()
    } else {
        let before = token_positions(symbols, (count - 1) as nat);
        if symbols[count - 1] is Wildcard {
            before
        } else {
            before.push((count - 1) as usize)
        }
    }
}

pub open spec fn count_specific(symbols: Seq<Symbol>) -> nat
    decreases symbols.len(),
{
    if symbols.len() == 0 {
        0
    } else {
        count_specific(symbols.drop_last()) + if symbols.last() is Wildcard {
            0nat
        } else {
            1nat
        }
    }
}

/// `base` with every token of `over` written over it.
pub open spec fn overlay(base: Seq<Symbol>, over: Seq<Symbol>) -> Seq<Symbol> {
    Seq::new(base.len(), |i: int| if over[i] is Wildcard { base[i] } else { over[i] })
}

/// A count of tokens never exceeds the length.
pub proof fn lemma_count_specific_bounded(symbols: Seq<Symbol>)
    ensures
        count_specific(symbols) <= symbols.len(),
    decreases symbols.len(),
{
    if symbols.len() > 0 {
        lemma_count_specific_bounded(symbols.drop_last());
    }
}

/// The count is zero exactly on an all-wildcard sequence.
pub proof fn lemma_count_specific_zero(symbols: Seq<Symbol>)
    ensures
        count_specific(symbols) == 0 <==> all_wildcards(symbols),
    decreases symbols.len(),
{
    if symbols.len() > 0 {
        let init = symbols.drop_last();
        lemma_count_specific_zero(init);
        if all_wildcards(symbols) {
            assert forall|i: int| 0 <= i < init.len() implies #[trigger] init[i] == Symbol::Wildcard by {
                assert(symbols[i] == Symbol::Wildcard);
            }
        }
        if count_specific(symbols) == 0 {
            assert forall|i: int| 0 <= i < symbols.len() implies #[trigger] symbols[i] == Symbol::Wildcard by {
                if i < init.len() {
                    assert(init[i] == Symbol::Wildcard);
                }
            }
        }
    }
}

/// Writing a wildcard over a token lowers the count by one.
pub proof fn lemma_count_specific_generalize(symbols: Seq<Symbol>, position: int)
    requires
        0 <= position < symbols.len(),
        !(symbols[position] is Wildcard),
    ensures
        count_specific(symbols.update(position, Symbol::Wildcard)) + 1 == count_specific(symbols),
    decreases symbols.len(),
{
    let updated = symbols.update(position, Symbol::Wildcard);
    if position == symbols.len() - 1 {
        assert(updated.drop_last() =~= symbols.drop_last());
    } else {
        lemma_count_specific_generalize(symbols.drop_last(), position);
        assert(updated.drop_last() =~= symbols.drop_last().update(position, Symbol::Wildcard));
    }
}

/// Compatibility of two symbols.
pub fn symbols_compatible(left: Symbol, right: Symbol) -> (result: bool)
    ensures
        result == compatible(left, right),
{
    left.is_wildcard() || right.is_wildcard() || left == right
}

impl<const N: usize> Condition<N> {
    pub fn all_wildcard() -> (result: Self)
        ensures
            all_wildcards(result.symbols@),
    {
        Self { symbols: [Symbol::Wildcard;N] }
    }

    /// The condition accepts the perception: each position is a wildcard on
    /// one side or equal on both.
    pub fn does_match(&self, perception: &Perception<N>) -> (result: bool)
        ensures
            result == all_compatible(self.symbols@, perception.symbols@),
    {
        let mut index: usize = 0;
        while index < N
            invariant
                index <= N,
                forall|i: int| 0 <= i < index ==> #[trigger] compatible(self.symbols@[i], perception.symbols@[i]),
            decreases N - index,
        {
            if !symbols_compatible(self.symbols[index], perception.symbols[index]) {
                return false;
            }
            index += 1;
        }
        true
    }

    /// The same positionwise compatibility, against another condition.
    pub fn subsumes(&self, other: &Condition<N>) -> (result: bool)
        ensures
            result == all_compatible(self.symbols@, other.symbols@),
    {
        let mut index: usize = 0;
        while index < N
            invariant
                index <= N,
                forall|i: int| 0 <= i < index ==> #[trigger] compatible(self.symbols@[i], other.symbols@[i]),
            decreases N - index,
        {
            if !symbols_compatible(self.symbols[index], other.symbols[index]) {
                return false;
            }
            index += 1;
        }
        true
    }

    /// The number of positions that hold a token.
    pub fn specificity(&self) -> (result: usize)
        ensures
            result == count_specific(self.symbols@),
    {
        let mut count: usize = 0;
        let mut index: usize = 0;
        while index < N
            invariant
                index <= N,
                count == count_specific(self.symbols@.take(index as int)),
                count <= index,
            decreases N - index,
        {
            proof {
                assert(self.symbols@.take(index as int + 1).drop_last() =~= self.symbols@.take(index as int));
            }
            if !self.symbols[index].is_wildcard() {
                count += 1;
            }
            index += 1;
        }
        proof {
            assert(self.symbols@.take(N as int) =~= self.symbols@);
        }
        count
    }

    /// Copies every token of `other` into this condition.
    pub fn specialize_with(&mut self, other: &Condition<N>)
        ensures
            final(self).symbols@ == overlay(old(self).symbols@, other.symbols@),
    {
        let ghost initial = self.symbols@;
        let mut index: usize = 0;
        while index < N
            invariant
                index <= N,
                self.symbols@.len() == N,
                initial.len() == N,
                initial == old(self).symbols@,
                forall|i: int| 0 <= i < index ==> #[trigger] self.symbols@[i] == overlay(initial, other.symbols@)[i],
                forall|i: int| index <= i < N ==> #[trigger] self.symbols@[i] == initial[i],
            decreases N - index,
        {
            if !other.symbols[index].is_wildcard() {
                self.symbols[index] = other.symbols[index];
            }
            index += 1;
        }
        proof {
            assert(self.symbols@ =~= overlay(initial, other.symbols@));
        }
    }

    /// Writes a wildcard at `position`.
    pub fn generalize(&mut self, position: usize)
        requires
            position < N,
        ensures
            final(self).symbols@ == old(self).symbols@.update(position as int, Symbol::Wildcard),
    {
        self.symbols[position] = Symbol::Wildcard;
    }

    /// Writes a wildcard over one token, drawn uniformly among the tokens
    /// (one draw below their number picks it, counting from the left); a
    /// condition without tokens is left as it is, and nothing is drawn.
    pub fn generalize_specific_attribute_randomly<R: RandomSource>(&mut self, rng: &mut R)
        ensures
            count_specific(old(self).symbols@) == 0 ==> final(self).symbols@ == old(self).symbols@,
            count_specific(old(self).symbols@) == 0 ==> final(rng).drawn() == old(rng).drawn(),
            count_specific(old(self).symbols@) > 0 ==> ({
                let tokens = token_positions(old(self).symbols@, N as nat);
                let draw = final(rng).drawn().last();
                &&& final(rng).drawn() == old(rng).drawn().push(draw)
                &&& draw.0 == tokens.len()
                &&& final(self).symbols@ == old(self).symbols@.update(tokens[draw.1 as int] as int, Symbol::Wildcard)
            }),
            count_specific(old(self).symbols@) > 0 ==> exists|position: int|
                0 <= position < N && !(#[trigger] old(self).symbols@[position] is Wildcard)
                    && final(self).symbols@ == old(self).symbols@.update(position, Symbol::Wildcard),
    {
        let mut specific: Vec<usize> = Vec::new();
        let mut index: usize = 0;
        while index < N
            invariant
                index <= N,
                specific@.len() <= index,
                forall|k: int| 0 <= k < specific@.len() ==> #[trigger] specific@[k] < N
                    && !(self.symbols@[specific@[k] as int] is Wildcard),
                forall|i: int| 0 <= i < index && !(self.symbols@[i] is Wildcard) ==> specific@.contains(i as usize),
                specific@ == token_positions(self.symbols@, index as nat),
            decreases N - index,
        {
            let ghost before = specific@;
            if !self.symbols[index].is_wildcard() {
                specific.push(index);
                proof {
                    assert(specific@[specific@.len() - 1] == index);
                    assert forall|i: int| 0 <= i <= index && !(self.symbols@[i] is Wildcard) implies specific@.contains(i as usize) by {
                        if i < index {
                            let k = choose|k: int| 0 <= k < before.len() && before[k] == i as usize;
                            assert(specific@[k] == i as usize);
                        } else {
                            assert(specific@[specific@.len() - 1] == i as usize);
                        }
                    }
                }
            }
            index += 1;
        }
        if specific.len() > 0 {
            proof {
                lemma_count_specific_zero(self.symbols@);
                assert(!(self.symbols@[specific@[0] as int] is Wildcard));
            }
            let chosen = specific[rng.gen_range(specific.len())];
            self.generalize(chosen);
        } else {
            proof {
                if count_specific(self.symbols@) > 0 {
                    lemma_count_specific_zero(self.symbols@);
                    let i = choose|i: int| 0 <= i < N && !(self.symbols@[i] is Wildcard);
                    assert(specific@.contains(i as usize));
                }
            }
        }
    }

    pub fn get(&self, index: usize) -> (result: Symbol)
        requires
            index < N,
        ensures
            result == self.symbols@[index as int],
    {
        self.symbols[index]
    }

    pub fn set(&mut self, index: usize, symbol: Symbol)
        requires
            index < N,
        ensures
            final(self).symbols@ == old(self).symbols@.update(index as int, symbol),
    {
        self.symbols[index] = symbol;
    }
}

/// Compatibility is reflexive and symmetric, so `subsumes` is too.
pub proof fn lemma_compatibility_reflexive_symmetric(left: Seq<Symbol>, right: Seq<Symbol>)
    requires
        left.len() == right.len(),
    ensures
        all_compatible(left, left),
        all_compatible(left, right) == all_compatible(right, left),
{
    if all_compatible(left, right) {
        assert forall|i: int| 0 <= i < right.len() implies #[trigger] compatible(right[i], left[i]) by {
            assert(compatible(left[i], right[i]));
        }
    }
    if all_compatible(right, left) {
        assert forall|i: int| 0 <= i < left.len() implies #[trigger] compatible(left[i], right[i]) by {
            assert(compatible(right[i], left[i]));
        }
    }
}

/// An all-wildcard condition matches every perception.
pub proof fn lemma_all_wildcard_matches_everything(condition: Seq<Symbol>, perception: Seq<Symbol>)
    requires
        all_wildcards(condition),
    ensures
        all_compatible(condition, perception),
{
    assert forall|i: int| 0 <= i < condition.len() implies #[trigger] compatible(condition[i], perception[i]) by {
        assert(condition[i] == Symbol::Wildcard);
    }
}

/// Specializing a condition with the tokens of a perception it matches
/// leaves it matching that perception.
pub proof fn lemma_specialize_with_matching_keeps_match(
    condition: Seq<Symbol>,
    difference: Seq<Symbol>,
    perception: Seq<Symbol>,
)
    requires
        condition.len() == difference.len(),
        condition.len() == perception.len(),
        all_compatible(condition, perception),
        forall|i: int| 0 <= i < difference.len() && !(difference[i] is Wildcard) ==> #[trigger] difference[i] == perception[i],
    ensures
        all_compatible(overlay(condition, difference), perception),
{
    let result = overlay(condition, difference);
    assert forall|i: int| 0 <= i < result.len() implies #[trigger] compatible(result[i], perception[i]) by {
        assert(compatible(condition[i], perception[i]));
    }
}

} // verus!
