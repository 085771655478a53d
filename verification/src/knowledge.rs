use vstd::prelude::*;

use crate::classifier::Classifier;
use crate::condition::all_compatible;
use crate::effect::anticipates_all;
use crate::perception::Perception;
use crate::population::{ClassifierRef, Population};

verus! {

/// One step of an environment: from `p0`, `action` led to `p1`.
#[derive(Clone, Copy, PartialEq, Eq, Debug)]
pub struct Transition<const N: usize> {
    pub p0: Perception<N>,
    pub action: usize,
    pub p1: Perception<N>,
}

impl<const N: usize> Transition<N> {
    pub fn new(p0: Perception<N>, action: usize, p1: Perception<N>) -> (result: Self)
        ensures
            result.p0 == p0,
            result.action == action,
            result.p1 == p1,
    {
        Self { p0, action, p1 }
    }
}

/// The classifier applies to the transition and anticipates it: it
/// advocates the action, matches `p0` and foresees `p1`.
pub open spec fn predicts<const N: usize, Q>(classifier: Classifier<N, Q>, transition: Transition<N>) -> bool {
    &&& classifier.action == Some(transition.action)
    &&& all_compatible(classifier.condition.symbols@, transition.p0.symbols@)
    &&& anticipates_all(classifier.effect.symbols@, transition.p0.symbols@, transition.p1.symbols@)
}

/// Some classifier among `chosen` predicts the transition.
pub open spec fn covered<const N: usize, Q>(
    items: Seq<Classifier<N, Q>>,
    chosen: Seq<ClassifierRef>,
    transition: Transition<N>,
) -> bool {
    exists|k: int| 0 <= k < chosen.len() && predicts(items[#[trigger] chosen[k] as int], transition)
}

/// How many of the transitions are covered.
pub open spec fn count_covered<const N: usize, Q>(
    items: Seq<Classifier<N, Q>>,
    chosen: Seq<ClassifierRef>,
    transitions: Seq<Transition<N>>,
) -> nat
    decreases transitions.len(),
{
    if transitions.len() == 0 {
        0
    } else {
        count_covered(items, chosen, transitions.drop_last()) + if covered(items, chosen, transitions.last()) {
            1nat
        } else {
            0nat
        }
    }
}

pub fn predicts_successfully<const N: usize, Q>(classifier: &Classifier<N, Q>, transition: &Transition<N>) -> (result: bool)
    ensures
        result == predicts(*classifier, *transition),
{
    let same_action = match classifier.action {
        Some(action) => action == transition.action,
        None => false,
    };
    same_action && classifier.does_match(&transition.p0) && classifier.does_anticipate_correctly(
        &transition.p0,
        &transition.p1,
    )
}

/// How many transitions some classifier among `reliable` predicts. The
/// share of knowledge is this count over the number of transitions.
pub fn anticipated_count<const N: usize, Q>(
    population: &Population<N, Q>,
    reliable: &[ClassifierRef],
    transitions: &[Transition<N>],
) -> (result: usize)
    requires
        forall|k: int| 0 <= k < reliable@.len() ==> #[trigger] reliable@[k] < population.items().len(),
    ensures
        result == count_covered(population.items(), reliable@, transitions@),
        result <= transitions@.len(),
{
    let mut count: usize = 0;
    let mut index: usize = 0;
    while index < transitions.len()
        invariant
            index <= transitions@.len(),
            forall|k: int| 0 <= k < reliable@.len() ==> #[trigger] reliable@[k] < population.items().len(),
            count == count_covered(population.items(), reliable@, transitions@.take(index as int)),
            count <= index,
        decreases transitions@.len() - index,
    {
        let transition = &transitions[index];
        let mut found = false;
        let mut k: usize = 0;
        while k < reliable.len() && !found
            invariant
                k <= reliable@.len(),
                forall|j: int| 0 <= j < reliable@.len() ==> #[trigger] reliable@[j] < population.items().len(),
                found ==> covered(population.items(), reliable@, *transition),
                !found ==> forall|j: int| 0 <= j < k ==> !predicts(population.items()[#[trigger] reliable@[j] as int], *transition),
            decreases reliable@.len() - k,
        {
            if predicts_successfully(population.get(reliable[k]), transition) {
                found = true;
            }
            k += 1;
        }
        proof {
            let part = transitions@.take(index as int + 1);
            assert(part.drop_last() =~= transitions@.take(index as int));
            assert(part.last() == *transition);
            if !found {
                assert(!covered(population.items(), reliable@, *transition));
            }
        }
        if found {
            count += 1;
        }
        index += 1;
    }
    proof {
        assert(transitions@.take(transitions@.len() as int) =~= transitions@);
    }
    count
}

} // verus!
