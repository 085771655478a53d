use vstd::prelude::*;

use crate::classifier::Classifier;
use crate::condition::all_compatible;
use crate::perception::Perception;

verus! {

/// A reference to a classifier: its index in the population.
pub type ClassifierRef = usize;

/// Strictly increasing.
pub open spec fn strictly_increasing(s: Seq<usize>) -> bool {
    forall|i: int, j: int| 0 <= i < j < s.len() ==> #[trigger] s[i] < #[trigger] s[j]
}

/// How many entries of `s` are below `bound`.
pub open spec fn count_below(s: Seq<usize>, bound: int) -> nat
    decreases s.len(),
{
    if s.len() == 0 {
        0
    } else {
        count_below(s.drop_last(), bound) + if (s.last() as int) < bound {
            1nat
        } else {
            0nat
        }
    }
}

/// Where index `index` moves once the indices in `removed` are gone.
pub open spec fn shifted(removed: Seq<usize>, index: int) -> int {
    index - count_below(removed, index)
}

/// The references that survive the removal, each shifted down by the number
/// of removed indices below it, in their old order.
pub open spec fn remapped(refs: Seq<usize>, removed: Seq<usize>) -> Seq<usize> {
    refs.filter(survives(removed)).map_values(shift_past(removed))
}

/// The references that do not name a removed index.
pub open spec fn survives(removed: Seq<usize>) -> spec_fn(usize) -> bool {
    |r: usize| !removed.contains(r)
}

/// A surviving reference after the shift.
pub open spec fn shift_past(removed: Seq<usize>) -> spec_fn(usize) -> usize {
    |r: usize| shifted(removed, r as int) as usize
}

proof fn lemma_count_below_bounded(s: Seq<usize>, bound: int)
    ensures
        count_below(s, bound) <= s.len(),
    decreases s.len(),
{
    if s.len() > 0 {
        lemma_count_below_bounded(s.drop_last(), bound);
    }
}

/// In a strictly increasing sequence whose entries all exceed `low`, at most
/// `bound - low - 1` entries lie below `bound`.
proof fn lemma_count_below_gap(s: Seq<usize>, low: int, bound: int)
    requires
        strictly_increasing(s),
        forall|i: int| 0 <= i < s.len() ==> low < #[trigger] s[i],
        low < bound,
    ensures
        count_below(s, bound) <= bound - low - 1,
    decreases s.len(),
{
    if s.len() > 0 {
        let init = s.drop_last();
        let last = s.last() as int;
        assert(strictly_increasing(init)) by {
            assert forall|i: int, j: int| 0 <= i < j < init.len() implies #[trigger] init[i] < #[trigger] init[j] by {
                assert(s[i] < s[j]);
            }
        }
        assert forall|i: int| 0 <= i < init.len() implies low < #[trigger] init[i] by {
            assert(low < s[i]);
        }
        if last < bound {
            assert forall|i: int| 0 <= i < init.len() implies (#[trigger] init[i] as int) < last by {
                assert(s[i] < s[init.len() as int]);
            }
            lemma_count_below_all(init, last);
            assert forall|i: int| 0 <= i < init.len() implies (#[trigger] init[i] as int) < bound by {
                assert(init[i] < last);
            }
            lemma_count_below_all(init, bound);
            assert(low < last) by {
                assert(low < s[init.len() as int]);
            }
            lemma_count_below_gap(init, low, last);
        } else {
            lemma_count_below_gap(init, low, bound);
        }
    }
}

/// Every entry of a strictly increasing sequence is below a bound beyond
/// its last entry.
proof fn lemma_count_below_all(s: Seq<usize>, bound: int)
    requires
        strictly_increasing(s),
        forall|i: int| 0 <= i < s.len() ==> (#[trigger] s[i] as int) < bound,
    ensures
        count_below(s, bound) == s.len(),
    decreases s.len(),
{
    if s.len() > 0 {
        lemma_count_below_all(s.drop_last(), bound);
    }
}

/// Entries at or above `bound` do not count.
proof fn lemma_count_below_none(s: Seq<usize>, bound: int)
    requires
        forall|i: int| 0 <= i < s.len() ==> bound <= (#[trigger] s[i] as int),
    ensures
        count_below(s, bound) == 0,
    decreases s.len(),
{
    if s.len() > 0 {
        lemma_count_below_none(s.drop_last(), bound);
    }
}

/// Counting over `x` followed by `rest`.
proof fn lemma_count_below_cons(x: usize, rest: Seq<usize>, bound: int)
    ensures
        count_below(seq![x] + rest, bound) == count_below(rest, bound) + if (x as int) < bound {
            1nat
        } else {
            0nat
        },
    decreases rest.len(),
{
    reveal_with_fuel(count_below, 2);
    let whole = seq![x] + rest;
    if rest.len() > 0 {
        assert(whole.drop_last() =~= seq![x] + rest.drop_last());
        assert(whole.last() == rest.last());
        lemma_count_below_cons(x, rest.drop_last(), bound);
    } else {
        assert(whole.drop_last() =~= Seq::<usize>::empty());
        assert(whole.last() == x);
        assert(count_below(rest, bound) == 0);
    }
}

proof fn lemma_filter_push(s: Seq<usize>, x: usize, p: spec_fn(usize) -> bool)
    ensures
        s.push(x).filter(p) == if p(x) {
            s.filter(p).push(x)
        } else {
            s.filter(p)
        },
{
    reveal(Seq::filter);
    assert(s.push(x).drop_last() =~= s);
    assert(s.push(x).last() == x);
}

/// Drops the references that point at removed classifiers and shifts the
/// others down, so that each still names the same classifier once the
/// removed ones are gone.
pub fn remap_after_removal(refs: &mut Vec<ClassifierRef>, removed_sorted: &[ClassifierRef])
    requires
        strictly_increasing(removed_sorted@),
    ensures
        final(refs)@ == remapped(old(refs)@, removed_sorted@),
{
    let mut result: Vec<ClassifierRef> = Vec::new();
    let mut index: usize = 0;
    while index < refs.len()
        invariant
            index <= refs@.len(),
            refs@ == old(refs)@,
            strictly_increasing(removed_sorted@),
            result@ == old(refs)@.take(index as int).filter(survives(removed_sorted@)).map_values(shift_past(removed_sorted@)),
        decreases refs@.len() - index,
    {
        let reference = refs[index];
        proof {
            reveal(Seq::filter);
            assert(old(refs)@.take(index as int + 1).drop_last() =~= old(refs)@.take(index as int));
        }
        let mut present = false;
        let mut below: usize = 0;
        let mut k: usize = 0;
        while k < removed_sorted.len()
            invariant
                k <= removed_sorted@.len(),
                present == removed_sorted@.take(k as int).contains(reference),
                below == count_below(removed_sorted@.take(k as int), reference as int),
                below <= k,
            decreases removed_sorted@.len() - k,
        {
            proof {
                let shorter = removed_sorted@.take(k as int);
                let longer = removed_sorted@.take(k as int + 1);
                assert(longer =~= shorter.push(removed_sorted@[k as int]));
                assert(longer.drop_last() =~= shorter);
                assert(longer.contains(reference) == (shorter.contains(reference) || removed_sorted@[k as int] == reference)) by {
                    if longer.contains(reference) && !shorter.contains(reference) {
                        let j = choose|j: int| 0 <= j < longer.len() && #[trigger] longer[j] == reference;
                        if j < k {
                            assert(shorter[j] == reference);
                        }
                    }
                    if shorter.contains(reference) {
                        let j = choose|j: int| 0 <= j < shorter.len() && #[trigger] shorter[j] == reference;
                        assert(longer[j] == reference);
                    }
                    if removed_sorted@[k as int] == reference {
                        assert(longer[k as int] == reference);
                    }
                }
            }
            if removed_sorted[k] == reference {
                present = true;
            }
            if removed_sorted[k] < reference {
                below += 1;
            }
            k += 1;
        }
        proof {
            assert(removed_sorted@.take(removed_sorted@.len() as int) =~= removed_sorted@);
        }
        proof {
            lemma_count_below_gap(removed_sorted@, -1, reference as int);
        }
        if !present {
            result.push(reference - below);
        }
        proof {
            let before = old(refs)@.take(index as int);
            let after = old(refs)@.take(index as int + 1);
            assert(after =~= before.push(reference));
            lemma_filter_push(before, reference, survives(removed_sorted@));
            assert(result@ =~= after.filter(survives(removed_sorted@)).map_values(shift_past(removed_sorted@)));
        }
        index += 1;
    }
    proof {
        assert(old(refs)@.take(old(refs)@.len() as int) =~= old(refs)@);
    }
    *refs = result;
}

/// Removes the items at the indices in `removed_sorted`, keeping the others
/// in order: the item that was at `i` ends up at `shifted(removed, i)`.
pub fn remove_indices<T>(items: &mut Vec<T>, removed_sorted: &[usize])
    requires
        strictly_increasing(removed_sorted@),
        forall|k: int| 0 <= k < removed_sorted@.len() ==> #[trigger] removed_sorted@[k] < old(items)@.len(),
    ensures
        final(items)@.len() == old(items)@.len() - removed_sorted@.len(),
        forall|i: int|
            0 <= i < old(items)@.len() && !removed_sorted@.contains(i as usize) ==> 0 <= #[trigger] shifted(removed_sorted@, i)
                < final(items)@.len() && final(items)@[shifted(removed_sorted@, i)] == old(items)@[i],
{
    let ghost initial = items@;
    let mut j: usize = removed_sorted.len();
    while j > 0
        invariant
            j <= removed_sorted@.len(),
            strictly_increasing(removed_sorted@),
            initial == old(items)@,
            forall|k: int| 0 <= k < removed_sorted@.len() ==> #[trigger] removed_sorted@[k] < initial.len(),
            items@.len() == initial.len() - (removed_sorted@.len() - j),
            forall|i: int|
                0 <= i < initial.len() && !removed_sorted@.skip(j as int).contains(i as usize) ==> 0 <= #[trigger] shifted(
                    removed_sorted@.skip(j as int),
                    i,
                ) < items@.len() && items@[shifted(removed_sorted@.skip(j as int), i)] == initial[i],
        decreases j,
    {
        let ghost tail = removed_sorted@.skip(j as int);
        let ghost before = items@;
        j -= 1;
        let x = removed_sorted[j];
        let ghost longer = removed_sorted@.skip(j as int);
        proof {
            assert(longer =~= seq![x] + tail);
            assert forall|k: int| 0 <= k < tail.len() implies (x as int) < #[trigger] tail[k] by {
                assert(tail[k] == removed_sorted@[j + 1 + k]);
            }
            lemma_count_below_bounded(tail, x as int);
            lemma_count_below_none(tail, x as int);
            assert(!tail.contains(x)) by {
                if tail.contains(x) {
                    let k = choose|k: int| 0 <= k < tail.len() && tail[k] == x;
                    assert((x as int) < tail[k]);
                }
            }
            assert(shifted(tail, x as int) == x);
            assert(shifted(tail, x as int) < before.len());
        }
        items.remove(x);
        proof {
            assert forall|i: int|
                0 <= i < initial.len() && !longer.contains(i as usize) implies 0 <= #[trigger] shifted(longer, i) < items@.len()
                && items@[shifted(longer, i)] == initial[i] by {
                lemma_count_below_cons(x, tail, i);
                assert(!tail.contains(i as usize)) by {
                    if tail.contains(i as usize) {
                        let k = choose|k: int| 0 <= k < tail.len() && tail[k] == i as usize;
                        assert(longer[k + 1] == i as usize);
                    }
                }
                assert(i != x) by {
                    assert(longer[0] == x);
                }
                let old_position = shifted(tail, i);
                if i < x {
                    lemma_count_below_none(tail, i);
                    assert(old_position == i);
                } else {
                    assert forall|k: int| 0 <= k < tail.len() implies (x as int) < #[trigger] tail[k] by {
                        assert(tail[k] == removed_sorted@[j + 1 + k]);
                    }
                    lemma_count_below_gap(tail, x as int, i);
                    assert(old_position > x);
                }
            }
        }
    }
    proof {
        assert(removed_sorted@.skip(0) =~= removed_sorted@);
    }
}

/// Removing a set of indices and remapping references to the survivors
/// agree: every surviving reference still names the item it named before.
pub proof fn lemma_remap_follows_removal<T>(
    items_before: Seq<T>,
    items_after: Seq<T>,
    refs: Seq<usize>,
    removed: Seq<usize>,
)
    requires
        strictly_increasing(removed),
        forall|i: int|
            0 <= i < items_before.len() && !removed.contains(i as usize) ==> 0 <= #[trigger] shifted(removed, i)
                < items_after.len() && items_after[shifted(removed, i)] == items_before[i],
        forall|k: int| 0 <= k < refs.len() ==> #[trigger] refs[k] < items_before.len(),
    ensures
        forall|k: int|
            0 <= k < remapped(refs, removed).len() ==> #[trigger] items_after[remapped(refs, removed)[k] as int]
                == items_before[refs.filter(survives(removed))[k] as int],
{
    let kept = refs.filter(survives(removed));
    assert forall|k: int| 0 <= k < remapped(refs, removed).len() implies #[trigger] items_after[remapped(refs, removed)[k] as int]
        == items_before[kept[k] as int] by {
        let r = kept[k];
        assert(kept.contains(r));
        refs.lemma_filter_contains_rev(survives(removed), r);
        refs.lemma_filter_pred(survives(removed), k);
        lemma_count_below_bounded(removed, r as int);
        assert(items_after[shifted(removed, r as int)] == items_before[r as int]);
    }
}


/// The sum of the numerosities of the classifiers.
pub open spec fn total_numerosity<const N: usize, Q>(classifiers: Seq<Classifier<N, Q>>) -> nat
    decreases classifiers.len(),
{
    if classifiers.len() == 0 {
        0
    } else {
        total_numerosity(classifiers.drop_last()) + classifiers.last().num as nat
    }
}

/// The population of classifiers; a classifier is referred to by its index.
pub struct Population<const N: usize, Q> {
    classifiers: Vec<Classifier<N, Q>>,
}

impl<const N: usize, Q> Population<N, Q> {
    /// The classifiers, in order.
    pub closed spec fn items(self) -> Seq<Classifier<N, Q>> {
        self.classifiers@
    }

    pub fn new() -> (result: Self)
        ensures
            result.items().len() == 0,
    {
        Self { classifiers: Vec::new() }
    }

    pub fn from_classifiers(classifiers: Vec<Classifier<N, Q>>) -> (result: Self)
        ensures
            result.items() == classifiers@,
    {
        Self { classifiers }
    }

    pub fn len(&self) -> (result: usize)
        ensures
            result == self.items().len(),
    {
        self.classifiers.len()
    }

    pub fn is_empty(&self) -> (result: bool)
        ensures
            result == (self.items().len() == 0),
    {
        self.classifiers.len() == 0
    }

    /// The classifiers, in order.
    pub fn classifiers(&self) -> (result: &Vec<Classifier<N, Q>>)
        ensures
            result@ == self.items(),
    {
        &self.classifiers
    }

    /// The number of micro-classifiers: the sum of the numerosities.
    pub fn numerosity(&self) -> (result: u32)
        requires
            total_numerosity(self.items()) <= u32::MAX,
        ensures
            result == total_numerosity(self.items()),
    {
        let mut total: u32 = 0;
        let mut index: usize = 0;
        while index < self.classifiers.len()
            invariant
                index <= self.items().len(),
                total_numerosity(self.items()) <= u32::MAX,
                total == total_numerosity(self.items().take(index as int)),
            decreases self.items().len() - index,
        {
            proof {
                let part = self.items().take(index as int + 1);
                assert(part.drop_last() =~= self.items().take(index as int));
                lemma_total_numerosity_prefix(self.items(), index as int + 1);
            }
            total = total + self.classifiers[index].num;
            index += 1;
        }
        proof {
            assert(self.items().take(self.items().len() as int) =~= self.items());
        }
        total
    }

    pub fn get(&self, reference: ClassifierRef) -> (result: &Classifier<N, Q>)
        requires
            reference < self.items().len(),
        ensures
            *result == self.items()[reference as int],
    {
        &self.classifiers[reference]
    }

    /// The classifiers at `references`, in that order.
    pub fn view(&self, references: &[ClassifierRef]) -> (result: Vec<&Classifier<N, Q>>)
        requires
            forall|k: int| 0 <= k < references@.len() ==> #[trigger] references@[k] < self.items().len(),
        ensures
            result@.len() == references@.len(),
            forall|k: int| 0 <= k < references@.len() ==> *#[trigger] result@[k] == self.items()[references@[k] as int],
    {
        let mut selected: Vec<&Classifier<N, Q>> = Vec::new();
        let mut k: usize = 0;
        while k < references.len()
            invariant
                k <= references@.len(),
                forall|i: int| 0 <= i < references@.len() ==> #[trigger] references@[i] < self.items().len(),
                selected@.len() == k,
                forall|i: int| 0 <= i < k ==> *#[trigger] selected@[i] == self.items()[references@[i] as int],
            decreases references@.len() - k,
        {
            selected.push(self.get(references[k]));
            k += 1;
        }
        selected
    }

    /// The classifier at `reference`, to change in place.
    pub fn get_mut(&mut self, reference: ClassifierRef) -> (result: &mut Classifier<N, Q>)
        requires
            reference < old(self).items().len(),
        ensures
            *result == old(self).items()[reference as int],
            final(self).items() == old(self).items().update(reference as int, *final(result)),
    {
        &mut self.classifiers[reference]
    }

    /// Replaces the classifier at `reference`.
    pub fn set(&mut self, reference: ClassifierRef, classifier: Classifier<N, Q>)
        requires
            reference < old(self).items().len(),
        ensures
            final(self).items() == old(self).items().update(reference as int, classifier),
    {
        self.classifiers.set(reference, classifier);
    }

    /// The indices of the classifiers whose condition matches `state`, in
    /// increasing order.
    pub fn form_match_set(&self, state: &Perception<N>) -> (result: Vec<ClassifierRef>)
        ensures
            strictly_increasing(result@),
            forall|k: int| 0 <= k < result@.len() ==> #[trigger] result@[k] < self.items().len(),
            forall|r: usize|
                result@.contains(r) <==> r < self.items().len() && all_compatible(
                    self.items()[r as int].condition.symbols@,
                    state.symbols@,
                ),
    {
        let mut result: Vec<ClassifierRef> = Vec::new();
        let mut index: usize = 0;
        while index < self.classifiers.len()
            invariant
                index <= self.items().len(),
                strictly_increasing(result@),
                forall|k: int| 0 <= k < result@.len() ==> #[trigger] result@[k] < index,
                forall|r: usize|
                    result@.contains(r) <==> r < index && all_compatible(
                        self.items()[r as int].condition.symbols@,
                        state.symbols@,
                    ),
            decreases self.items().len() - index,
        {
            let ghost before = result@;
            if self.classifiers[index].does_match(state) {
                result.push(index);
            }
            proof {
                assert forall|r: usize|
                    result@.contains(r) <==> r < index + 1 && all_compatible(
                        self.items()[r as int].condition.symbols@,
                        state.symbols@,
                    ) by {
                    if result@.contains(r) {
                        let k = choose|k: int| 0 <= k < result@.len() && result@[k] == r;
                        if k < before.len() {
                            assert(before[k] == r);
                        }
                    }
                    if r < index && before.contains(r) {
                        let k = choose|k: int| 0 <= k < before.len() && before[k] == r;
                        assert(result@[k] == r);
                    }
                    if r == index && all_compatible(self.items()[r as int].condition.symbols@, state.symbols@) {
                        assert(result@[result@.len() - 1] == r);
                    }
                }
            }
            index += 1;
        }
        result
    }

    /// The references of `match_set` whose classifier advocates `action`,
    /// in their order.
    pub fn form_action_set(&self, match_set: &[ClassifierRef], action: usize) -> (result: Vec<ClassifierRef>)
        requires
            forall|k: int| 0 <= k < match_set@.len() ==> #[trigger] match_set@[k] < self.items().len(),
        ensures
            result@ == match_set@.filter(advocates(self.items(), action)),
    {
        let mut result: Vec<ClassifierRef> = Vec::new();
        let mut index: usize = 0;
        while index < match_set.len()
            invariant
                index <= match_set@.len(),
                forall|k: int| 0 <= k < match_set@.len() ==> #[trigger] match_set@[k] < self.items().len(),
                result@ == match_set@.take(index as int).filter(advocates(self.items(), action)),
            decreases match_set@.len() - index,
        {
            let reference = match_set[index];
            proof {
                assert(match_set@.take(index as int + 1) =~= match_set@.take(index as int).push(reference));
                lemma_filter_push(match_set@.take(index as int), reference, advocates(self.items(), action));
            }
            let advocated = match self.classifiers[reference].action {
                Some(value) => value == action,
                None => false,
            };
            if advocated {
                result.push(reference);
            }
            index += 1;
        }
        proof {
            assert(match_set@.take(match_set@.len() as int) =~= match_set@);
        }
        result
    }

    /// Appends a classifier; the result is its reference.
    pub fn insert(&mut self, classifier: Classifier<N, Q>) -> (result: ClassifierRef)
        requires
            old(self).items().len() < usize::MAX,
        ensures
            final(self).items() == old(self).items().push(classifier),
            result == old(self).items().len(),
    {
        self.classifiers.push(classifier);
        self.classifiers.len() - 1
    }

    /// Removes the classifier at `reference`; the later ones move down.
    pub fn remove(&mut self, reference: ClassifierRef)
        requires
            reference < old(self).items().len(),
        ensures
            final(self).items() == old(self).items().remove(reference as int),
    {
        self.classifiers.remove(reference);
    }

    /// Removes the classifiers at the given increasing references.
    pub fn remove_many(&mut self, removed_sorted: &[ClassifierRef])
        requires
            strictly_increasing(removed_sorted@),
            forall|k: int| 0 <= k < removed_sorted@.len() ==> #[trigger] removed_sorted@[k] < old(self).items().len(),
        ensures
            final(self).items().len() == old(self).items().len() - removed_sorted@.len(),
            forall|i: int|
                0 <= i < old(self).items().len() && !removed_sorted@.contains(i as usize) ==> 0 <= #[trigger] shifted(
                    removed_sorted@,
                    i,
                ) < final(self).items().len() && final(self).items()[shifted(removed_sorted@, i)] == old(
                    self,
                ).items()[i],
    {
        remove_indices(&mut self.classifiers, removed_sorted);
    }
}

/// The references whose classifier advocates `action`.
pub open spec fn advocates<const N: usize, Q>(items: Seq<Classifier<N, Q>>, action: usize) -> spec_fn(usize) -> bool {
    |r: usize| items[r as int].action == Some(action)
}

proof fn lemma_total_numerosity_prefix<const N: usize, Q>(classifiers: Seq<Classifier<N, Q>>, length: int)
    requires
        0 <= length <= classifiers.len(),
    ensures
        total_numerosity(classifiers.take(length)) <= total_numerosity(classifiers),
    decreases classifiers.len(),
{
    if length < classifiers.len() {
        assert(classifiers.drop_last().take(length) =~= classifiers.take(length));
        lemma_total_numerosity_prefix(classifiers.drop_last(), length);
    } else {
        assert(classifiers.take(length) =~= classifiers);
    }
}

} // verus!
