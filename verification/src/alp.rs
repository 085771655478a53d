use vstd::prelude::*;

use crate::classifier::{specialized_condition, specialized_effect, Classifier};
use crate::condition::all_compatible;
use crate::ga::same_rule;
use crate::perception::Perception;
use crate::population::{remap_after_removal, remapped, shifted, strictly_increasing, ClassifierRef, Population};
use crate::symbol::Symbol;

verus! {

/// The classifier covering creates for `p0 -> p1` under `action`: general,
/// then specialized on what changed.
pub fn cover<const N: usize, Q>(
    p0: &Perception<N>,
    action: usize,
    p1: &Perception<N>,
    time: u64,
    stats: Q,
) -> (result: Classifier<N, Q>)
    ensures
        result.action == Some(action),
        result.condition.symbols@ == specialized_condition(
            Seq::new(N as nat, |i: int| Symbol::Wildcard),
            Seq::new(N as nat, |i: int| Symbol::Wildcard),
            p0.symbols@,
            p1.symbols@,
            false,
        ),
        result.effect.symbols@ == specialized_effect(
            Seq::new(N as nat, |i: int| Symbol::Wildcard),
            p0.symbols@,
            p1.symbols@,
            false,
        ),
        result.num == 1,
        result.exp == 0,
        result.stats == stats,
{
    let mut classifier = Classifier::covering(action, time, stats);
    proof {
        assert(classifier.condition.symbols@ =~= Seq::new(N as nat, |i: int| Symbol::Wildcard));
        assert(classifier.effect.symbols@ =~= Seq::new(N as nat, |i: int| Symbol::Wildcard));
    }
    classifier.specialize(p0, p1, false);
    classifier
}

/// A covering classifier anticipates the transition it was made from.
pub proof fn lemma_cover_anticipates_its_transition(p0: Seq<Symbol>, p1: Seq<Symbol>)
    requires
        p0.len() == p1.len(),
        forall|i: int| 0 <= i < p1.len() ==> !(#[trigger] p1[i] is Wildcard),
    ensures
        ({
            let general = Seq::new(p0.len(), |i: int| Symbol::Wildcard);
            let condition = specialized_condition(general, general, p0, p1, false);
            let effect = specialized_effect(general, p0, p1, false);
            &&& all_compatible(condition, p0)
            &&& crate::effect::anticipates_all(effect, p0, p1)
        }),
{
    let general = Seq::new(p0.len(), |i: int| Symbol::Wildcard);
    let condition = specialized_condition(general, general, p0, p1, false);
    let effect = specialized_effect(general, p0, p1, false);
    assert forall|i: int| 0 <= i < condition.len() implies #[trigger] crate::condition::compatible(
        condition[i],
        p0[i],
    ) by {}
    assert forall|i: int| 0 <= i < effect.len() implies #[trigger] crate::effect::anticipates_item(
        effect[i],
        p0[i],
        p1[i],
    ) by {}
}

/// The first classifier of `list` with the same rule as `child`.
pub fn find_in_list<const N: usize, Q>(list: &Vec<Classifier<N, Q>>, child: &Classifier<N, Q>) -> (result: Option<usize>)
    ensures
        result is None <==> forall|k: int| 0 <= k < list@.len() ==> !same_rule(#[trigger] list@[k], *child),
        result matches Some(k) ==> k < list@.len() && same_rule(list@[k as int], *child) && forall|j: int|
            0 <= j < k ==> !same_rule(#[trigger] list@[j], *child),
{
    let mut index: usize = 0;
    while index < list.len()
        invariant
            index <= list@.len(),
            forall|j: int| 0 <= j < index ==> !same_rule(#[trigger] list@[j], *child),
        decreases list@.len() - index,
    {
        if list[index].same_rule(child) {
            return Some(index);
        }
        index += 1;
    }
    None
}

/// The references of the new classifiers among `list`, appended from
/// `base` on, that match `p`.
pub open spec fn matching_new<const N: usize, Q>(list: Seq<Classifier<N, Q>>, p: Seq<Symbol>, base: nat) -> Seq<
    usize,
>
    decreases list.len(),
{
    if list.len() == 0 {
        Seq::empty()
    } else {
        matching_new(list.drop_last(), p, base) + if all_compatible(list.last().condition.symbols@, p) {
            seq![(base + list.len() - 1) as usize]
        } else {
            Seq::empty()
        }
    }
}

/// Adds the classifiers the learning step created: each joins the
/// population and the action set, and the match set of the next
/// perception when it matches `p1`.
pub fn commit_new_classifiers<const N: usize, Q>(
    population: &mut Population<N, Q>,
    match_set: &mut Vec<ClassifierRef>,
    action_set: &mut Vec<ClassifierRef>,
    new_list: Vec<Classifier<N, Q>>,
    p1: &Perception<N>,
)
    requires
        old(population).items().len() + new_list@.len() < usize::MAX,
    ensures
        final(population).items() == old(population).items() + new_list@,
        final(action_set)@ == old(action_set)@ + Seq::new(
            new_list@.len(),
            |j: int| (old(population).items().len() + j) as usize,
        ),
        final(match_set)@ == old(match_set)@ + matching_new(new_list@, p1.symbols@, old(population).items().len()),
{
    let ghost base = population.items().len();
    let ghost all = new_list@;
    let mut remaining = new_list;
    let mut index: usize = 0;
    while remaining.len() > 0
        invariant
            index <= all.len(),
            remaining@ == all.skip(index as int),
            base == old(population).items().len(),
            base + all.len() < usize::MAX,
            population.items() == old(population).items() + all.take(index as int),
            action_set@ == old(action_set)@ + Seq::new(index as nat, |j: int| (base + j) as usize),
            match_set@ == old(match_set)@ + matching_new(all.take(index as int), p1.symbols@, base),
        decreases remaining@.len(),
    {
        let classifier = remaining.remove(0);
        proof {
            assert(classifier == all[index as int]);
        }
        let matches_next = classifier.does_match(p1);
        let reference = population.insert(classifier);
        action_set.push(reference);
        if matches_next {
            match_set.push(reference);
        }
        proof {
            let part = all.take(index as int + 1);
            assert(part.drop_last() =~= all.take(index as int));
            assert(part.last() == all[index as int]);
            assert(population.items() =~= old(population).items() + part);
            assert(action_set@ =~= old(action_set)@ + Seq::new((index + 1) as nat, |j: int| (base + j) as usize));
            assert(reference == base + index);
            assert(match_set@ =~= old(match_set)@ + matching_new(part, p1.symbols@, base));
            assert(remaining@ =~= all.skip(index as int + 1));
        }
        index += 1;
    }
    proof {
        assert(index == all.len());
        assert(all.take(all.len() as int) =~= all);
    }
}

/// The distinct entries of `items`, in increasing order.
pub fn sorted_distinct(items: &Vec<usize>) -> (result: Vec<usize>)
    ensures
        strictly_increasing(result@),
        forall|x: usize| result@.contains(x) <==> items@.contains(x),
{
    let mut result: Vec<usize> = Vec::new();
    let mut index: usize = 0;
    while index < items.len()
        invariant
            index <= items@.len(),
            strictly_increasing(result@),
            forall|x: usize| result@.contains(x) <==> items@.take(index as int).contains(x),
        decreases items@.len() - index,
    {
        let value = items[index];
        let mut position: usize = 0;
        while position < result.len() && result[position] < value
            invariant
                position <= result@.len(),
                strictly_increasing(result@),
                forall|k: int| 0 <= k < position ==> #[trigger] result@[k] < value,
            decreases result@.len() - position,
        {
            position += 1;
        }
        let ghost before = result@;
        if position == result.len() || result[position] != value {
            result.insert(position, value);
            proof {
                assert(result@ =~= before.insert(position as int, value));
                assert forall|i: int, j: int| 0 <= i < j < result@.len() implies #[trigger] result@[i] < #[trigger] result@[j] by {
                    if position < before.len() {
                        assert(value < before[position as int]);
                    }
                    if i < position && j > position {
                        assert(before[i] < value);
                    }
                    if i == position && j > position {
                        assert(before[position as int] <= before[j - 1]);
                    }
                }
            }
        }
        proof {
            let seen = items@.take(index as int);
            let grown = items@.take(index as int + 1);
            assert(grown =~= seen.push(value));
            assert forall|x: usize| result@.contains(x) <==> grown.contains(x) by {
                if grown.contains(x) {
                    let j = choose|j: int| 0 <= j < grown.len() && grown[j] == x;
                    if j < seen.len() {
                        assert(seen[j] == x);
                        assert(before.contains(x));
                        let k = choose|k: int| 0 <= k < before.len() && before[k] == x;
                        if result@.len() != before.len() {
                            if k < position {
                                assert(result@[k] == x);
                            } else {
                                assert(result@[k + 1] == x);
                            }
                        }
                    } else {
                        if result@.len() != before.len() {
                            assert(result@[position as int] == x);
                        } else {
                            assert(before[position as int] == x);
                        }
                    }
                }
                if result@.contains(x) {
                    let k = choose|k: int| 0 <= k < result@.len() && result@[k] == x;
                    if result@.len() != before.len() {
                        if k < position {
                            assert(before[k] == x);
                        } else if k == position {
                            assert(grown[index as int] == x);
                        } else {
                            assert(before[k - 1] == x);
                        }
                    } else {
                        assert(before[k] == x);
                    }
                    if before.contains(x) {
                        let j = choose|j: int| 0 <= j < seen.len() && seen[j] == x;
                        assert(grown[j] == x);
                    }
                }
            }
        }
        index += 1;
    }
    proof {
        assert(items@.take(items@.len() as int) =~= items@);
    }
    result
}

/// `after` is `before` without the classifiers at the increasing indices
/// `removed`, which are the distinct entries of `victims`, and the match
/// and action sets are shifted past them.
pub open spec fn removal_of<const N: usize, Q>(
    removed: Seq<usize>,
    victims: Seq<usize>,
    before: Seq<Classifier<N, Q>>,
    after: Seq<Classifier<N, Q>>,
    match_before: Seq<usize>,
    match_after: Seq<usize>,
    action_before: Seq<usize>,
    action_after: Seq<usize>,
) -> bool {
    &&& strictly_increasing(removed)
    &&& forall|x: usize| #[trigger] removed.contains(x) <==> victims.contains(x)
    &&& after.len() == before.len() - removed.len()
    &&& forall|i: int|
        0 <= i < before.len() && !removed.contains(i as usize) ==> 0 <= #[trigger] shifted(removed, i) < after.len()
            && after[shifted(removed, i)] == before[i]
    &&& match_after == remapped(match_before, removed)
    &&& action_after == remapped(action_before, removed)
}

/// Removes the inadequate classifiers the learning step found, each once
/// however often it was found, and shifts the references of the match and
/// action sets past them.
pub fn remove_victims<const N: usize, Q>(
    population: &mut Population<N, Q>,
    match_set: &mut Vec<ClassifierRef>,
    action_set: &mut Vec<ClassifierRef>,
    victims: &Vec<ClassifierRef>,
)
    requires
        forall|k: int| 0 <= k < victims@.len() ==> #[trigger] victims@[k] < old(population).items().len(),
    ensures
        exists|removed: Seq<usize>|
            #[trigger] removal_of(
                removed,
                victims@,
                old(population).items(),
                final(population).items(),
                old(match_set)@,
                final(match_set)@,
                old(action_set)@,
                final(action_set)@,
            ),
{
    if victims.len() == 0 {
        proof {
            let removed = Seq::<usize>::empty();
            assert(remapped(old(match_set)@, removed) =~= old(match_set)@) by {
                lemma_remap_nothing(old(match_set)@);
            }
            assert(remapped(old(action_set)@, removed) =~= old(action_set)@) by {
                lemma_remap_nothing(old(action_set)@);
            }
            assert forall|i: int| 0 <= i < old(population).items().len() implies #[trigger] shifted(removed, i) == i by {}
            assert(forall|x: usize| #[trigger] removed.contains(x) <==> victims@.contains(x));
            assert(removal_of(
                removed,
                victims@,
                old(population).items(),
                population.items(),
                old(match_set)@,
                match_set@,
                old(action_set)@,
                action_set@,
            ));
        }
        return ;
    }
    let sorted = sorted_distinct(victims);
    proof {
        assert forall|k: int| 0 <= k < sorted@.len() implies #[trigger] sorted@[k] < old(population).items().len() by {
            assert(sorted@.contains(sorted@[k]));
            let j = choose|j: int| 0 <= j < victims@.len() && victims@[j] == sorted@[k];
        }
    }
    remap_after_removal(match_set, sorted.as_slice());
    remap_after_removal(action_set, sorted.as_slice());
    population.remove_many(sorted.as_slice());
    proof {
        assert(removal_of(
            sorted@,
            victims@,
            old(population).items(),
            population.items(),
            old(match_set)@,
            match_set@,
            old(action_set)@,
            action_set@,
        ));
    }
}

/// Removing nothing leaves the references as they are.
proof fn lemma_remap_nothing(refs: Seq<usize>)
    ensures
        remapped(refs, Seq::empty()) == refs,
{
    let removed = Seq::<usize>::empty();
    let kept = refs.filter(crate::population::survives(removed));
    assert(kept =~= refs) by {
        lemma_filter_all(refs, crate::population::survives(removed));
    }
    assert(kept.map_values(crate::population::shift_past(removed)) =~= refs);
}

/// A filter that keeps everything keeps the sequence.
proof fn lemma_filter_all(s: Seq<usize>, keep: spec_fn(usize) -> bool)
    requires
        forall|x: usize| #[trigger] keep(x),
    ensures
        s.filter(keep) == s,
    decreases s.len(),
{
    reveal(Seq::filter);
    if s.len() > 0 {
        lemma_filter_all(s.drop_last(), keep);
        assert(s.drop_last().push(s.last()) =~= s);
    } else {
        assert(s.filter(keep) =~= s);
    }
}

} // verus!
