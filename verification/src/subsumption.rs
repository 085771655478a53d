use vstd::prelude::*;

use crate::classifier::Classifier;
use crate::condition::{all_compatible, count_specific};
use crate::population::{ClassifierRef, Population};

verus! {

/// A classifier may subsume others when it is experienced, reliable and
/// unmarked. Reliability is judged on the quality the caller holds.
pub open spec fn can_subsume<const N: usize, Q>(classifier: Classifier<N, Q>, theta_exp: u32, reliable: bool) -> bool {
    classifier.exp > theta_exp && reliable && !classifier.mark.spec_is_marked()
}

/// `classifier` subsumes `other`: it may subsume, is strictly more general,
/// its condition is compatible with the other's, and action and effect are
/// the same.
pub open spec fn subsumes<const N: usize, Q>(
    classifier: Classifier<N, Q>,
    other: Classifier<N, Q>,
    theta_exp: u32,
    reliable: bool,
) -> bool {
    &&& can_subsume(classifier, theta_exp, reliable)
    &&& count_specific(classifier.condition.symbols@) < count_specific(other.condition.symbols@)
    &&& all_compatible(classifier.condition.symbols@, other.condition.symbols@)
    &&& classifier.action == other.action
    &&& classifier.effect.symbols@ == other.effect.symbols@
}

/// Whether the classifier may subsume others; `reliable` says whether its
/// quality exceeds the reliability threshold.
pub fn is_subsumer<const N: usize, Q>(classifier: &Classifier<N, Q>, theta_exp: u32, reliable: bool) -> (result: bool)
    ensures
        result == can_subsume(*classifier, theta_exp, reliable),
        classifier.mark.spec_is_marked() ==> !result,
        result ==> classifier.exp > theta_exp && reliable,
        !classifier.mark.spec_is_marked() && classifier.exp > theta_exp && reliable ==> result,
{
    classifier.exp > theta_exp && reliable && !classifier.is_marked()
}

/// Whether `classifier` subsumes `other`; `reliable` says whether the
/// quality of `classifier` exceeds the reliability threshold.
pub fn does_subsume<const N: usize, Q>(
    classifier: &Classifier<N, Q>,
    other: &Classifier<N, Q>,
    theta_exp: u32,
    reliable: bool,
) -> (result: bool)
    ensures
        result == subsumes(*classifier, *other, theta_exp, reliable),
        classifier.mark.spec_is_marked() ==> !result,
        result ==> classifier.exp > theta_exp && reliable,
        result ==> classifier.action == other.action && classifier.effect.symbols@ == other.effect.symbols@,
        result ==> count_specific(classifier.condition.symbols@) < count_specific(other.condition.symbols@),
        result ==> all_compatible(classifier.condition.symbols@, other.condition.symbols@),
        (!classifier.mark.spec_is_marked() && classifier.exp > theta_exp && reliable
            && count_specific(classifier.condition.symbols@) < count_specific(other.condition.symbols@)
            && all_compatible(classifier.condition.symbols@, other.condition.symbols@)
            && classifier.action == other.action && classifier.effect.symbols@ == other.effect.symbols@) ==> result,
{
    is_subsumer(classifier, theta_exp, reliable) && classifier.is_more_general(other)
        && classifier.condition.subsumes(&other.condition) && classifier.action == other.action
        && classifier.effect.subsumes(&other.effect)
}

/// Only an unmarked classifier subsumes: one whose mark is set is no
/// subsumer and subsumes nothing, however experienced and reliable it is;
/// an unmarked one that is experienced and reliable is a subsumer.
pub proof fn lemma_only_unmarked_classifiers_subsume<const N: usize, Q>(
    classifier: Classifier<N, Q>,
    other: Classifier<N, Q>,
    theta_exp: u32,
    reliable: bool,
)
    ensures
        classifier.mark.spec_is_marked() ==> !can_subsume(classifier, theta_exp, reliable),
        classifier.mark.spec_is_marked() ==> !subsumes(classifier, other, theta_exp, reliable),
        can_subsume(classifier, theta_exp, reliable) <==> (!classifier.mark.spec_is_marked()
            && classifier.exp > theta_exp && reliable),
        subsumes(classifier, other, theta_exp, reliable) ==> classifier.exp > theta_exp && reliable
            && !classifier.mark.spec_is_marked(),
{
}

/// Subsumption is strict: no classifier subsumes itself, and two
/// classifiers never subsume each other.
pub proof fn lemma_subsumption_is_strict<const N: usize, Q>(
    a: Classifier<N, Q>,
    b: Classifier<N, Q>,
    theta_exp: u32,
    reliable_a: bool,
    reliable_b: bool,
)
    ensures
        !subsumes(a, a, theta_exp, reliable_a),
        !(subsumes(a, b, theta_exp, reliable_a) && subsumes(b, a, theta_exp, reliable_b)),
{
}

/// The subsumer a scan over `search_set` settles on: among the classifiers
/// that subsume `child`, the first of the most general ones.
pub open spec fn is_chosen_subsumer<const N: usize, Q>(
    items: Seq<Classifier<N, Q>>,
    search_set: Seq<ClassifierRef>,
    reliable: Seq<bool>,
    child: Classifier<N, Q>,
    theta_exp: u32,
    k: int,
) -> bool {
    &&& 0 <= k < search_set.len()
    &&& subsumes(items[search_set[k] as int], child, theta_exp, reliable[k])
    &&& forall|j: int|
        0 <= j < search_set.len() && subsumes(items[#[trigger] search_set[j] as int], child, theta_exp, reliable[j])
            ==> count_specific(items[search_set[j] as int].condition.symbols@) >= count_specific(
            items[search_set[k] as int].condition.symbols@,
        )
    &&& forall|j: int|
        0 <= j < k && subsumes(items[#[trigger] search_set[j] as int], child, theta_exp, reliable[j])
            ==> count_specific(items[search_set[j] as int].condition.symbols@) > count_specific(
            items[search_set[k] as int].condition.symbols@,
        )
}

/// The classifier of `search_set` that subsumes `child`, the most general
/// one and the first of those; `reliable[k]` says whether the classifier
/// at `search_set[k]` is reliable.
pub fn find_subsumer<const N: usize, Q>(
    population: &Population<N, Q>,
    search_set: &[ClassifierRef],
    reliable: &[bool],
    child: &Classifier<N, Q>,
    theta_exp: u32,
) -> (result: Option<ClassifierRef>)
    requires
        reliable@.len() == search_set@.len(),
        forall|k: int| 0 <= k < search_set@.len() ==> #[trigger] search_set@[k] < population.items().len(),
    ensures
        result is None <==> forall|k: int|
            0 <= k < search_set@.len() ==> !subsumes(
                population.items()[#[trigger] search_set@[k] as int],
                *child,
                theta_exp,
                reliable@[k],
            ),
        result matches Some(r) ==> exists|k: int|
            is_chosen_subsumer(population.items(), search_set@, reliable@, *child, theta_exp, k)
                && #[trigger] search_set@[k] == r,
{
    let ghost items = population.items();
    let mut chosen: Option<usize> = None;
    let mut index: usize = 0;
    while index < search_set.len()
        invariant
            index <= search_set@.len(),
            items == population.items(),
            reliable@.len() == search_set@.len(),
            forall|k: int| 0 <= k < search_set@.len() ==> #[trigger] search_set@[k] < items.len(),
            chosen is None <==> forall|k: int|
                0 <= k < index ==> !subsumes(items[#[trigger] search_set@[k] as int], *child, theta_exp, reliable@[k]),
            chosen matches Some(c) ==> {
                &&& c < index
                &&& subsumes(items[search_set@[c as int] as int], *child, theta_exp, reliable@[c as int])
                &&& forall|j: int|
                    0 <= j < index && subsumes(items[#[trigger] search_set@[j] as int], *child, theta_exp, reliable@[j])
                        ==> count_specific(items[search_set@[j] as int].condition.symbols@) >= count_specific(
                        items[search_set@[c as int] as int].condition.symbols@,
                    )
                &&& forall|j: int|
                    0 <= j < c && subsumes(items[#[trigger] search_set@[j] as int], *child, theta_exp, reliable@[j])
                        ==> count_specific(items[search_set@[j] as int].condition.symbols@) > count_specific(
                        items[search_set@[c as int] as int].condition.symbols@,
                    )
            },
        decreases search_set@.len() - index,
    {
        let candidate = population.get(search_set[index]);
        if does_subsume(candidate, child, theta_exp, reliable[index]) {
            let replaces = match chosen {
                None => true,
                Some(current) => candidate.is_more_general(population.get(search_set[current])),
            };
            if replaces {
                chosen = Some(index);
            }
        }
        index += 1;
    }
    match chosen {
        Some(c) => {
            proof {
                assert(is_chosen_subsumer(items, search_set@, reliable@, *child, theta_exp, c as int));
            }
            Some(search_set[c])
        },
        None => None,
    }
}

} // verus!
