use vstd::prelude::*;

use crate::classifier::Classifier;
use crate::condition::all_compatible;
use crate::knowledge::{count_covered, covered, predicts, predicts_successfully, Transition};
use crate::multiplexer::{transition_is_correct, DIGIT_ZERO};
use crate::population::{ClassifierRef, Population};
use crate::symbol::Symbol;

verus! {

/// Whether a multiplexer transition's answer was right: the validation
/// bit is set after it.
pub open spec fn answered_right<const N: usize>(transition: Transition<N>) -> bool {
    transition.p1.symbols@[N - 1] == Symbol::Token((DIGIT_ZERO + 1) as u8)
}

/// The quadrant of a multiplexer transition: twice its answer, plus one
/// when the answer was right. Answer 0 wrong is 0, answer 0 right is 1,
/// answer 1 wrong is 2, answer 1 right is 3.
pub open spec fn quadrant<const N: usize>(transition: Transition<N>) -> int {
    2 * transition.action + if answered_right(transition) {
        1int
    } else {
        0int
    }
}

/// The classifier advocates the transition's action and matches where it
/// starts, whatever it anticipates.
pub open spec fn applies<const N: usize, Q>(classifier: Classifier<N, Q>, transition: Transition<N>) -> bool {
    &&& classifier.action == Some(transition.action)
    &&& all_compatible(classifier.condition.symbols@, transition.p0.symbols@)
}

/// Some classifier among `chosen` applies to the transition.
pub open spec fn matched<const N: usize, Q>(
    items: Seq<Classifier<N, Q>>,
    chosen: Seq<ClassifierRef>,
    transition: Transition<N>,
) -> bool {
    exists|k: int| 0 <= k < chosen.len() && applies(items[#[trigger] chosen[k] as int], transition)
}

/// How many of the transitions lie in quadrant `cell`.
pub open spec fn total_in<const N: usize>(transitions: Seq<Transition<N>>, cell: int) -> nat
    decreases transitions.len(),
{
    if transitions.len() == 0 {
        0
    } else {
        total_in(transitions.drop_last(), cell) + if quadrant(transitions.last()) == cell {
            1nat
        } else {
            0nat
        }
    }
}

/// How many of the transitions in quadrant `cell` a classifier among
/// `chosen` predicts.
pub open spec fn covered_in<const N: usize, Q>(
    items: Seq<Classifier<N, Q>>,
    chosen: Seq<ClassifierRef>,
    transitions: Seq<Transition<N>>,
    cell: int,
) -> nat
    decreases transitions.len(),
{
    if transitions.len() == 0 {
        0
    } else {
        covered_in(items, chosen, transitions.drop_last(), cell) + if quadrant(transitions.last()) == cell
            && covered(items, chosen, transitions.last()) {
            1nat
        } else {
            0nat
        }
    }
}

/// How many of the transitions a classifier among `chosen` applies to
/// while none of them predicts it.
pub open spec fn wrongly_matched<const N: usize, Q>(
    items: Seq<Classifier<N, Q>>,
    chosen: Seq<ClassifierRef>,
    transitions: Seq<Transition<N>>,
) -> nat
    decreases transitions.len(),
{
    if transitions.len() == 0 {
        0
    } else {
        wrongly_matched(items, chosen, transitions.drop_last()) + if !covered(items, chosen, transitions.last())
            && matched(items, chosen, transitions.last()) {
            1nat
        } else {
            0nat
        }
    }
}

/// Knowledge of a multiplexer split by quadrant: per quadrant, how many
/// transitions there are and how many the reliable classifiers predict,
/// and how many transitions a reliable classifier applies to without any
/// predicting them.
#[derive(Clone, Copy, PartialEq, Eq, Debug)]
pub struct KnowledgeBreakdown {
    pub covered: [usize; 4],
    pub total: [usize; 4],
    pub matched_but_wrong: usize,
}

pub fn applies_to<const N: usize, Q>(classifier: &Classifier<N, Q>, transition: &Transition<N>) -> (result: bool)
    ensures
        result == applies(*classifier, *transition),
{
    let same_action = match classifier.action {
        Some(action) => action == transition.action,
        None => false,
    };
    same_action && classifier.does_match(&transition.p0)
}

/// Which quadrants the `reliable` classifiers of `population` predict,
/// over the multiplexer's `transitions`, whose answers are 0 or 1.
pub fn knowledge_breakdown<const N: usize, Q>(
    population: &Population<N, Q>,
    reliable: &[ClassifierRef],
    transitions: &[Transition<N>],
) -> (result: KnowledgeBreakdown)
    requires
        N >= 1,
        forall|k: int| 0 <= k < reliable@.len() ==> #[trigger] reliable@[k] < population.items().len(),
        forall|i: int| 0 <= i < transitions@.len() ==> #[trigger] transitions@[i].action < 2,
    ensures
        forall|cell: int|
            0 <= cell < 4 ==> #[trigger] result.total@[cell] == total_in(transitions@, cell),
        forall|cell: int|
            0 <= cell < 4 ==> #[trigger] result.covered@[cell] == covered_in(
                population.items(),
                reliable@,
                transitions@,
                cell,
            ),
        result.matched_but_wrong == wrongly_matched(population.items(), reliable@, transitions@),
{
    let ghost items = population.items();
    let mut covered_counts: [usize; 4] = [0usize;4];
    let mut totals: [usize; 4] = [0usize;4];
    let mut matched_but_wrong: usize = 0;
    let mut index: usize = 0;
    while index < transitions.len()
        invariant
            N >= 1,
            items == population.items(),
            index <= transitions@.len(),
            forall|k: int| 0 <= k < reliable@.len() ==> #[trigger] reliable@[k] < items.len(),
            forall|i: int| 0 <= i < transitions@.len() ==> #[trigger] transitions@[i].action < 2,
            forall|cell: int|
                0 <= cell < 4 ==> #[trigger] totals@[cell] == total_in(transitions@.take(index as int), cell),
            forall|cell: int|
                0 <= cell < 4 ==> #[trigger] covered_counts@[cell] == covered_in(
                    items,
                    reliable@,
                    transitions@.take(index as int),
                    cell,
                ),
            matched_but_wrong == wrongly_matched(items, reliable@, transitions@.take(index as int)),
            forall|cell: int| 0 <= cell < 4 ==> #[trigger] totals@[cell] <= index,
            forall|cell: int| 0 <= cell < 4 ==> #[trigger] covered_counts@[cell] <= index,
            matched_but_wrong <= index,
        decreases transitions@.len() - index,
    {
        let transition = &transitions[index];
        let correct = transition_is_correct(transition);
        let cell: usize = transition.action * 2 + if correct {
            1
        } else {
            0
        };
        let mut found_match = false;
        let mut predicted = false;
        let mut k: usize = 0;
        while k < reliable.len() && !predicted
            invariant
                k <= reliable@.len(),
                items == population.items(),
                forall|j: int| 0 <= j < reliable@.len() ==> #[trigger] reliable@[j] < items.len(),
                predicted ==> covered(items, reliable@, *transition),
                !predicted ==> forall|j: int| 0 <= j < k ==> !predicts(items[#[trigger] reliable@[j] as int], *transition),
                !predicted ==> (found_match <==> exists|j: int|
                    0 <= j < k && applies(items[#[trigger] reliable@[j] as int], *transition)),
            decreases reliable@.len() - k,
        {
            let classifier = population.get(reliable[k]);
            if applies_to(classifier, transition) {
                found_match = true;
                if predicts_successfully(classifier, transition) {
                    predicted = true;
                }
            }
            k += 1;
        }
        proof {
            let part = transitions@.take(index as int + 1);
            assert(part.drop_last() =~= transitions@.take(index as int));
            assert(part.last() == *transition);
            assert(quadrant(*transition) == cell as int);
            if !predicted {
                assert(!covered(items, reliable@, *transition));
                if found_match {
                    assert(matched(items, reliable@, *transition));
                } else {
                    assert(!matched(items, reliable@, *transition));
                }
            }
        }
        totals[cell] = totals[cell] + 1;
        if predicted {
            covered_counts[cell] = covered_counts[cell] + 1;
        } else if found_match {
            matched_but_wrong = matched_but_wrong + 1;
        }
        index += 1;
    }
    proof {
        assert(transitions@.take(transitions@.len() as int) =~= transitions@);
    }
    KnowledgeBreakdown { covered: covered_counts, total: totals, matched_but_wrong }
}


/// The quadrants split knowledge without loss: over transitions whose
/// answers are 0 or 1, the four quadrants hold every transition once, and
/// their predicted counts add up to the number of predicted transitions.
pub proof fn lemma_quadrants_partition_knowledge<const N: usize, Q>(
    items: Seq<Classifier<N, Q>>,
    chosen: Seq<ClassifierRef>,
    transitions: Seq<Transition<N>>,
)
    requires
        forall|i: int| 0 <= i < transitions.len() ==> #[trigger] transitions[i].action < 2,
    ensures
        total_in(transitions, 0) + total_in(transitions, 1) + total_in(transitions, 2) + total_in(transitions, 3)
            == transitions.len(),
        covered_in(items, chosen, transitions, 0) + covered_in(items, chosen, transitions, 1) + covered_in(
            items,
            chosen,
            transitions,
            2,
        ) + covered_in(items, chosen, transitions, 3) == count_covered(items, chosen, transitions),
    decreases transitions.len(),
{
    if transitions.len() > 0 {
        let rest = transitions.drop_last();
        assert forall|i: int| 0 <= i < rest.len() implies #[trigger] rest[i].action < 2 by {
            assert(rest[i] == transitions[i]);
        }
        lemma_quadrants_partition_knowledge(items, chosen, rest);
        assert(transitions[transitions.len() - 1].action < 2);
    }
}

} // verus!
