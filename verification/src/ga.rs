use vstd::prelude::*;

use crate::classifier::Classifier;
use crate::condition::{all_compatible, count_specific};
use crate::population::{remap_after_removal, remapped, strictly_increasing, ClassifierRef, Population};
use crate::rng::RandomSource;
use crate::symbol::Symbol;

verus! {

broadcast use vstd::array::group_array_axioms;

/// The sum of the numerosities of the referenced classifiers.
pub open spec fn numerosity_of<const N: usize, Q>(items: Seq<Classifier<N, Q>>, refs: Seq<ClassifierRef>) -> nat
    decreases refs.len(),
{
    if refs.len() == 0 {
        0
    } else {
        numerosity_of(items, refs.drop_last()) + items[refs.last() as int].num as nat
    }
}

/// The sum of the GA time stamps of the referenced classifiers, each
/// counted once per micro-classifier.
pub open spec fn stamp_total<const N: usize, Q>(items: Seq<Classifier<N, Q>>, refs: Seq<ClassifierRef>) -> nat
    decreases refs.len(),
{
    if refs.len() == 0 {
        0
    } else {
        stamp_total(items, refs.drop_last()) + items[refs.last() as int].tga as nat * items[refs.last() as int].num as nat
    }
}

/// The numerosity of the action set.
pub fn action_set_numerosity<const N: usize, Q>(population: &Population<N, Q>, action_set: &[ClassifierRef]) -> (result: u32)
    requires
        forall|k: int| 0 <= k < action_set@.len() ==> #[trigger] action_set@[k] < population.items().len(),
        numerosity_of(population.items(), action_set@) <= u32::MAX,
    ensures
        result == numerosity_of(population.items(), action_set@),
{
    let mut total: u32 = 0;
    let mut index: usize = 0;
    while index < action_set.len()
        invariant
            index <= action_set@.len(),
            forall|k: int| 0 <= k < action_set@.len() ==> #[trigger] action_set@[k] < population.items().len(),
            numerosity_of(population.items(), action_set@) <= u32::MAX,
            total == numerosity_of(population.items(), action_set@.take(index as int)),
        decreases action_set@.len() - index,
    {
        proof {
            let part = action_set@.take(index as int + 1);
            assert(part.drop_last() =~= action_set@.take(index as int));
            lemma_numerosity_prefix(population.items(), action_set@, index as int + 1);
        }
        total = total + population.get(action_set[index]).num;
        index += 1;
    }
    proof {
        assert(action_set@.take(action_set@.len() as int) =~= action_set@);
    }
    total
}

/// A prefix never holds more micro-classifiers than the whole.
proof fn lemma_numerosity_prefix<const N: usize, Q>(items: Seq<Classifier<N, Q>>, refs: Seq<ClassifierRef>, n: int)
    requires
        0 <= n <= refs.len(),
    ensures
        numerosity_of(items, refs.take(n)) <= numerosity_of(items, refs),
    decreases refs.len() - n,
{
    if n < refs.len() {
        lemma_numerosity_prefix(items, refs, n + 1);
        assert(refs.take(n + 1).drop_last() =~= refs.take(n));
    } else {
        assert(refs.take(n) =~= refs);
    }
}

/// A prefix never holds more time stamps than the whole.
proof fn lemma_stamp_prefix<const N: usize, Q>(items: Seq<Classifier<N, Q>>, refs: Seq<ClassifierRef>, n: int)
    requires
        0 <= n <= refs.len(),
    ensures
        stamp_total(items, refs.take(n)) <= stamp_total(items, refs),
    decreases refs.len() - n,
{
    if n < refs.len() {
        lemma_stamp_prefix(items, refs, n + 1);
        assert(refs.take(n + 1).drop_last() =~= refs.take(n));
    } else {
        assert(refs.take(n) =~= refs);
    }
}

/// The sums the GA compares with its threshold: the time stamps weighted
/// by numerosity, and the numerosity. The GA runs when the current time
/// exceeds their quotient by more than the threshold.
pub fn stamp_totals<const N: usize, Q>(population: &Population<N, Q>, action_set: &[ClassifierRef]) -> (result: (
    u64,
    u32,
))
    requires
        forall|k: int| 0 <= k < action_set@.len() ==> #[trigger] action_set@[k] < population.items().len(),
        numerosity_of(population.items(), action_set@) <= u32::MAX,
        stamp_total(population.items(), action_set@) <= u64::MAX,
    ensures
        result.0 == stamp_total(population.items(), action_set@),
        result.1 == numerosity_of(population.items(), action_set@),
{
    let mut overall_time: u64 = 0;
    let mut overall_num: u32 = 0;
    let mut index: usize = 0;
    while index < action_set.len()
        invariant
            index <= action_set@.len(),
            forall|k: int| 0 <= k < action_set@.len() ==> #[trigger] action_set@[k] < population.items().len(),
            numerosity_of(population.items(), action_set@) <= u32::MAX,
            stamp_total(population.items(), action_set@) <= u64::MAX,
            overall_time == stamp_total(population.items(), action_set@.take(index as int)),
            overall_num == numerosity_of(population.items(), action_set@.take(index as int)),
        decreases action_set@.len() - index,
    {
        proof {
            let part = action_set@.take(index as int + 1);
            assert(part.drop_last() =~= action_set@.take(index as int));
            lemma_numerosity_prefix(population.items(), action_set@, index as int + 1);
            lemma_stamp_prefix(population.items(), action_set@, index as int + 1);
        }
        let classifier = population.get(action_set[index]);
        proof {
            let t = classifier.tga as nat;
            let m = classifier.num as nat;
            assert(t * m <= stamp_total(population.items(), action_set@.take(index as int + 1)));
            assert(classifier.tga as u64 * classifier.num as u64 == t * m) by (nonlinear_arith)
                requires
                    t * m <= u64::MAX,
                    t == classifier.tga,
                    m == classifier.num,
            ;
        }
        overall_time = overall_time + classifier.tga * classifier.num as u64;
        overall_num = overall_num + classifier.num;
        index += 1;
    }
    proof {
        assert(action_set@.take(action_set@.len() as int) =~= action_set@);
    }
    (overall_time, overall_num)
}

/// Stamps every classifier of the action set with `time`.
pub fn set_timestamps<const N: usize, Q>(population: &mut Population<N, Q>, action_set: &[ClassifierRef], time: u64)
    requires
        forall|k: int| 0 <= k < action_set@.len() ==> #[trigger] action_set@[k] < old(population).items().len(),
    ensures
        final(population).items().len() == old(population).items().len(),
        forall|i: usize|
            i < old(population).items().len() ==> #[trigger] final(population).items()[i as int] == if action_set@.contains(
                i,
            ) {
                Classifier { tga: time, ..old(population).items()[i as int] }
            } else {
                old(population).items()[i as int]
            },
{
    let mut index: usize = 0;
    while index < action_set.len()
        invariant
            index <= action_set@.len(),
            forall|k: int| 0 <= k < action_set@.len() ==> #[trigger] action_set@[k] < old(population).items().len(),
            population.items().len() == old(population).items().len(),
            forall|i: usize|
                i < old(population).items().len() ==> #[trigger] population.items()[i as int] == if action_set@.take(
                    index as int,
                ).contains(i) {
                    Classifier { tga: time, ..old(population).items()[i as int] }
                } else {
                    old(population).items()[i as int]
                },
        decreases action_set@.len() - index,
    {
        let reference = action_set[index];
        let classifier = population.get_mut(reference);
        classifier.tga = time;
        proof {
            let before = action_set@.take(index as int);
            let after = action_set@.take(index as int + 1);
            assert(after =~= before.push(reference));
            assert forall|u: usize| u < old(population).items().len() implies #[trigger] after.contains(u) == (
            before.contains(u) || u == reference) by {
                if u == reference {
                    assert(after[index as int] == u);
                }
                if before.contains(u) {
                    let j = choose|j: int| 0 <= j < before.len() && before[j] == u;
                    assert(after[j] == u);
                }
                if after.contains(u) && !before.contains(u) {
                    let j = choose|j: int| 0 <= j < after.len() && after[j] == u;
                    if j < before.len() {
                        assert(before[j] == u);
                    }
                }
            }
        }
        index += 1;
    }
    proof {
        assert(action_set@.take(action_set@.len() as int) =~= action_set@);
    }
}

/// The conditions after a two-point crossover of `first` and `second`
/// between `left` (included) and `right` (excluded).
pub open spec fn crossed(first: Seq<Symbol>, second: Seq<Symbol>, left: int, right: int) -> Seq<Symbol> {
    Seq::new(first.len(), |i: int| if left <= i < right { second[i] } else { first[i] })
}

/// The cut points of a crossover from its two draws: `first` among
/// `0..=N`, `second` among the `N` points other than `first` (counted with
/// `first` left out); the smaller point comes first.
pub open spec fn cut_points(first: int, second: int) -> (int, int) {
    let other = if second >= first {
        second + 1
    } else {
        second
    };
    if first < other {
        (first, other)
    } else {
        (other, first)
    }
}

/// Swaps the conditions of the two classifiers between two cut points
/// drawn at random, two different points among `0..=N`: the first draw has
/// bound `N + 1`, the second bound `N`, and the cut points are
/// `cut_points` of the two. Every other field stays as it was.
pub fn two_point_crossover<const N: usize, Q, R: RandomSource>(
    first: &mut Classifier<N, Q>,
    second: &mut Classifier<N, Q>,
    rng: &mut R,
)
    requires
        1 <= N < usize::MAX,
    ensures
        ({
            let before = old(rng).drawn().len();
            let drawn = final(rng).drawn();
            let (left, right) = cut_points(drawn[before as int].1 as int, drawn[before + 1int].1 as int);
            &&& drawn.len() == before + 2
            &&& drawn.take(before as int) == old(rng).drawn()
            &&& drawn[before as int].0 == N + 1
            &&& drawn[before + 1int].0 == N
            &&& 0 <= left < right <= N
            &&& final(first).condition.symbols@ == crossed(
                old(first).condition.symbols@,
                old(second).condition.symbols@,
                left,
                right,
            )
            &&& final(second).condition.symbols@ == crossed(
                old(second).condition.symbols@,
                old(first).condition.symbols@,
                left,
                right,
            )
        }),
        final(first).action == old(first).action && final(first).effect == old(first).effect,
        final(second).action == old(second).action && final(second).effect == old(second).effect,
        final(first).mark == old(first).mark && final(second).mark == old(second).mark,
        final(first).num == old(first).num && final(second).num == old(second).num,
        final(first).exp == old(first).exp && final(second).exp == old(second).exp,
        final(first).talp == old(first).talp && final(second).talp == old(second).talp,
        final(first).tga == old(first).tga && final(second).tga == old(second).tga,
        final(first).ee == old(first).ee && final(second).ee == old(second).ee,
        final(first).stats == old(first).stats && final(second).stats == old(second).stats,
{
    let ghost drawn_before = rng.drawn();
    let left_pick = rng.gen_range(N + 1);
    let mut right_pick = rng.gen_range(N);
    let ghost drawn_pick = right_pick;
    if right_pick >= left_pick {
        right_pick += 1;
    }
    let left = if left_pick < right_pick {
        left_pick
    } else {
        right_pick
    };
    let right = if left_pick < right_pick {
        right_pick
    } else {
        left_pick
    };
    let ghost first_before = first.condition.symbols@;
    let ghost second_before = second.condition.symbols@;
    let mut index = left;
    while index < right
        invariant
            left <= index <= right <= N,
            first_before == old(first).condition.symbols@,
            second_before == old(second).condition.symbols@,
            first.action == old(first).action && first.effect == old(first).effect,
            second.action == old(second).action && second.effect == old(second).effect,
            first.mark == old(first).mark && second.mark == old(second).mark,
            first.num == old(first).num && second.num == old(second).num,
            first.exp == old(first).exp && second.exp == old(second).exp,
            first.talp == old(first).talp && second.talp == old(second).talp,
            first.tga == old(first).tga && second.tga == old(second).tga,
            first.ee == old(first).ee && second.ee == old(second).ee,
            first.stats == old(first).stats && second.stats == old(second).stats,
            first.condition.symbols@ == crossed(first_before, second_before, left as int, index as int),
            second.condition.symbols@ == crossed(second_before, first_before, left as int, index as int),
        decreases right - index,
    {
        let from_first = first.condition.get(index);
        let from_second = second.condition.get(index);
        first.condition.set(index, from_second);
        second.condition.set(index, from_first);
        proof {
            assert(first.condition.symbols@ =~= crossed(first_before, second_before, left as int, index + 1));
            assert(second.condition.symbols@ =~= crossed(second_before, first_before, left as int, index + 1));
        }
        index += 1;
    }
    proof {
        assert(crossed(first_before, second_before, left as int, right as int) == first.condition.symbols@);
        let drawn = rng.drawn();
        let before = drawn_before.len();
        assert(drawn[before as int].0 == N + 1 && drawn[before as int].1 == left_pick);
        assert(drawn[before + 1int].1 == drawn_pick);
        assert(drawn.take(before as int) =~= drawn_before);
    }
}

/// The first classifier of `refs` with the same condition, action and
/// effect as `child`.
pub fn find_identical<const N: usize, Q>(
    population: &Population<N, Q>,
    refs: &[ClassifierRef],
    child: &Classifier<N, Q>,
) -> (result: Option<ClassifierRef>)
    requires
        forall|k: int| 0 <= k < refs@.len() ==> #[trigger] refs@[k] < population.items().len(),
    ensures
        result is None <==> forall|k: int|
            0 <= k < refs@.len() ==> !same_rule(population.items()[#[trigger] refs@[k] as int], *child),
        result matches Some(r) ==> exists|k: int|
            0 <= k < refs@.len() && #[trigger] refs@[k] == r && same_rule(population.items()[r as int], *child)
                && forall|j: int| 0 <= j < k ==> !same_rule(population.items()[#[trigger] refs@[j] as int], *child),
{
    let mut index: usize = 0;
    while index < refs.len()
        invariant
            index <= refs@.len(),
            forall|k: int| 0 <= k < refs@.len() ==> #[trigger] refs@[k] < population.items().len(),
            forall|j: int| 0 <= j < index ==> !same_rule(population.items()[#[trigger] refs@[j] as int], *child),
        decreases refs@.len() - index,
    {
        if population.get(refs[index]).same_rule(child) {
            return Some(refs[index]);
        }
        index += 1;
    }
    None
}

/// Two classifiers state the same rule: same condition, action and effect.
pub open spec fn same_rule<const N: usize, Q>(a: Classifier<N, Q>, b: Classifier<N, Q>) -> bool {
    a.condition.symbols@ == b.condition.symbols@ && a.action == b.action && a.effect.symbols@ == b.effect.symbols@
}

/// Puts a GA child into the population: a new classifier joins the action
/// set, and the match set when it matches `state`; where `existing` stands for
/// it already, that classifier gains a micro-classifier unless it is
/// marked.
pub fn add_ga_child<const N: usize, Q>(
    child: Classifier<N, Q>,
    state: &crate::perception::Perception<N>,
    population: &mut Population<N, Q>,
    match_set: &mut Vec<ClassifierRef>,
    action_set: &mut Vec<ClassifierRef>,
    existing: Option<ClassifierRef>,
)
    requires
        old(population).items().len() < usize::MAX,
        existing matches Some(r) ==> r < old(population).items().len() && old(population).items()[r as int].num
            < u32::MAX,
    ensures
        existing is None ==> {
            &&& final(population).items() == old(population).items().push(child)
            &&& final(action_set)@ == old(action_set)@.push(old(population).items().len() as usize)
            &&& final(match_set)@ == if all_compatible(child.condition.symbols@, state.symbols@) {
                old(match_set)@.push(old(population).items().len() as usize)
            } else {
                old(match_set)@
            }
        },
        existing matches Some(r) ==> {
            &&& final(population).items() == if old(population).items()[r as int].mark.spec_is_marked() {
                old(population).items()
            } else {
                old(population).items().update(
                    r as int,
                    Classifier { num: (old(population).items()[r as int].num + 1) as u32, ..old(population).items()[r as int] },
                )
            }
            &&& final(action_set)@ == old(action_set)@
            &&& final(match_set)@ == old(match_set)@
        },
{
    match existing {
        None => {
            let matches_state = child.does_match(state);
            let reference = population.insert(child);
            action_set.push(reference);
            if matches_state {
                match_set.push(reference);
            }
        },
        Some(reference) => {
            if !population.get(reference).is_marked() {
                let classifier = population.get_mut(reference);
                classifier.num = classifier.num + 1;
            }
        },
    }
}

/// Takes one micro-classifier out of the population: the chosen classifier
/// loses one unit of numerosity, or leaves with the references to it when
/// it has only one.
pub fn delete_micro_classifier<const N: usize, Q>(
    population: &mut Population<N, Q>,
    match_set: &mut Vec<ClassifierRef>,
    action_set: &mut Vec<ClassifierRef>,
    chosen: ClassifierRef,
)
    requires
        chosen < old(population).items().len(),
    ensures
        old(population).items()[chosen as int].num > 1 ==> {
            &&& final(population).items() == old(population).items().update(
                chosen as int,
                Classifier { num: (old(population).items()[chosen as int].num - 1) as u32, ..old(population).items()[chosen as int] },
            )
            &&& final(match_set)@ == old(match_set)@
            &&& final(action_set)@ == old(action_set)@
        },
        old(population).items()[chosen as int].num <= 1 ==> {
            &&& final(population).items() == old(population).items().remove(chosen as int)
            &&& final(match_set)@ == remapped(old(match_set)@, seq![chosen])
            &&& final(action_set)@ == remapped(old(action_set)@, seq![chosen])
        },
{
    if population.get(chosen).num > 1 {
        let classifier = population.get_mut(chosen);
        classifier.num = classifier.num - 1;
    } else {
        let removed = [chosen];
        proof {
            assert(removed@ =~= seq![chosen]);
            assert(strictly_increasing(removed@));
        }
        remap_after_removal(match_set, &removed);
        remap_after_removal(action_set, &removed);
        population.remove(chosen);
    }
}

/// The children the GA keeps: those with a specified condition, the second
/// only when it does not repeat the first.
pub fn offspring<const N: usize, Q>(first: Classifier<N, Q>, second: Classifier<N, Q>) -> (result: Vec<Classifier<N, Q>>)
    ensures
        ({
            let keep_first = count_specific(first.condition.symbols@) > 0;
            let keep_second = count_specific(second.condition.symbols@) > 0 && !(keep_first && same_rule(first, second));
            &&& result@ == if keep_first {
                if keep_second {
                    seq![first, second]
                } else {
                    seq![first]
                }
            } else {
                if keep_second {
                    seq![second]
                } else {
                    Seq::empty()
                }
            }
        }),
{
    let mut children: Vec<Classifier<N, Q>> = Vec::new();
    let keep_first = first.condition.specificity() > 0;
    let repeats = keep_first && first.same_rule(&second);
    let keep_second = second.condition.specificity() > 0 && !repeats;
    if keep_first {
        children.push(first);
    }
    if keep_second {
        children.push(second);
    }
    children
}

} // verus!
