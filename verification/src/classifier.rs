use vstd::prelude::*;

use crate::condition::{all_compatible, all_wildcards, count_specific, Condition};
use crate::effect::{anticipates_all, has_token, Effect};
use crate::mark::Mark;
use crate::perception::Perception;
use crate::rng::RandomSource;
use crate::symbol::Symbol;

verus! {

broadcast use vstd::array::group_array_axioms;

/// A classifier: the rule "in situations matching `condition`, `action`
/// leads to `effect`", with its mark and its bookkeeping. The statistics the
/// learning components keep about the rule (quality, reward and the like)
/// travel in `stats`, which this library carries and never reads.
#[derive(Clone, Debug)]
pub struct Classifier<const N: usize, Q> {
    pub condition: Condition<N>,
    pub action: Option<usize>,
    pub effect: Effect<N>,
    pub mark: Mark<N>,
    pub num: u32,
    pub exp: u32,
    pub talp: Option<u64>,
    pub tga: u64,
    pub ee: bool,
    pub stats: Q,
}

/// The effect after a specialization on `p0 -> p1`: every attribute that
/// changed gets its new value, unless `leave_specialized` protects a token
/// already there.
pub open spec fn specialized_effect(
    effect: Seq<Symbol>,
    p0: Seq<Symbol>,
    p1: Seq<Symbol>,
    leave_specialized: bool,
) -> Seq<Symbol> {
    Seq::new(
        effect.len(),
        |i: int|
            if (leave_specialized && !(effect[i] is Wildcard)) || p0[i] == p1[i] {
                effect[i]
            } else if effect[i] is Wildcard {
                p1[i]
            } else {
                effect[i]
            },
    )
}

/// The condition after the same specialization: every attribute that
/// changed is specified with its old value.
pub open spec fn specialized_condition(
    condition: Seq<Symbol>,
    effect: Seq<Symbol>,
    p0: Seq<Symbol>,
    p1: Seq<Symbol>,
    leave_specialized: bool,
) -> Seq<Symbol> {
    Seq::new(
        condition.len(),
        |i: int|
            if (leave_specialized && !(effect[i] is Wildcard)) || p0[i] == p1[i] {
                condition[i]
            } else {
                p0[i]
            },
    )
}

/// What a specialization on `p0 -> p1` does, position by position, whatever
/// `leave_specialized` is: an attribute that changed where the effect had a
/// wildcard is specified with its old value in the condition and its new
/// value in the effect; without `leave_specialized` every changed attribute
/// is specified with its old value; an attribute that did not change keeps
/// both; an effect token is never replaced. So a condition that matched
/// `p0` (a wildcard or `p0`'s symbol at every position) still matches it,
/// and at every changed attribute with a wildcard effect the classifier
/// now foresees `p1`.
pub proof fn lemma_specialization_fixes_the_change(
    condition: Seq<Symbol>,
    effect: Seq<Symbol>,
    p0: Seq<Symbol>,
    p1: Seq<Symbol>,
    leave_specialized: bool,
)
    requires
        condition.len() == effect.len(),
        effect.len() == p0.len(),
        p0.len() == p1.len(),
    ensures
        ({
            let c = specialized_condition(condition, effect, p0, p1, leave_specialized);
            let e = specialized_effect(effect, p0, p1, leave_specialized);
            &&& c.len() == condition.len() && e.len() == effect.len()
            &&& forall|i: int|
                0 <= i < p0.len() && p0[i] != p1[i] && effect[i] is Wildcard ==> #[trigger] c[i] == p0[i] && e[i]
                    == p1[i]
            &&& forall|i: int| 0 <= i < p0.len() && p0[i] != p1[i] && !leave_specialized ==> #[trigger] c[i] == p0[i]
            &&& forall|i: int|
                0 <= i < p0.len() && p0[i] == p1[i] ==> #[trigger] c[i] == condition[i] && e[i] == effect[i]
            &&& forall|i: int| 0 <= i < p0.len() && !(effect[i] is Wildcard) ==> #[trigger] e[i] == effect[i]
            &&& (forall|i: int| 0 <= i < p0.len() ==> (#[trigger] condition[i] is Wildcard || condition[i] == p0[i]))
                ==> forall|i: int| 0 <= i < p0.len() ==> (#[trigger] c[i] is Wildcard || c[i] == p0[i])
        }),
{
}

/// Position `i` is specified in the condition while the effect foresees no
/// change there.
pub open spec fn unchanging_specified<const N: usize, Q>(classifier: Classifier<N, Q>, i: int) -> bool {
    !(classifier.condition.symbols@[i] is Wildcard) && classifier.effect.symbols@[i] is Wildcard
}

/// The positions below `count` that are `unchanging_specified`, in
/// increasing order.
pub open spec fn unchanging_below<const N: usize, Q>(classifier: Classifier<N, Q>, count: nat) -> Seq<usize>
    decreases count,
{
    if count == 0 {
        Seq::empty()
    } else {
        let before = unchanging_below(classifier, (count - 1) as nat);
        if unchanging_specified(classifier, count - 1) {
            before.push((count - 1) as usize)
        } else {
            before
        }
    }
}

impl<const N: usize, Q> Classifier<N, Q> {
    /// The most general classifier for `action`: wildcards everywhere,
    /// unmarked, numerosity one, never applied.
    pub fn general(action: Option<usize>, stats: Q) -> (result: Self)
        ensures
            all_wildcards(result.condition.symbols@),
            all_wildcards(result.effect.symbols@),
            result.action == action,
            !result.mark.spec_is_marked(),
            result.num == 1,
            result.exp == 0,
            result.talp is None,
            result.tga == 0,
            !result.ee,
            result.stats == stats,
    {
        let mark = Mark::new();
        Classifier {
            condition: Condition::all_wildcard(),
            action,
            effect: Effect::all_wildcard(),
            mark,
            num: 1,
            exp: 0,
            talp: None,
            tga: 0,
            ee: false,
            stats,
        }
    }

    /// A general classifier created by covering at `time`.
    pub fn covering(action: usize, time: u64, stats: Q) -> (result: Self)
        ensures
            all_wildcards(result.condition.symbols@),
            all_wildcards(result.effect.symbols@),
            result.action == Some(action),
            !result.mark.spec_is_marked(),
            result.num == 1,
            result.exp == 0,
            result.talp == Some(time),
            result.tga == time,
            !result.ee,
            result.stats == stats,
    {
        let mut classifier = Self::general(Some(action), stats);
        classifier.talp = Some(time);
        classifier.tga = time;
        classifier
    }

    /// A fresh copy of `other`'s rule at `time`: same condition, action and
    /// effect, an empty mark, numerosity one and no experience.
    pub fn copy_from(other: &Classifier<N, Q>, time: u64, stats: Q) -> (result: Self)
        ensures
            result.condition == other.condition,
            result.action == other.action,
            result.effect == other.effect,
            !result.mark.spec_is_marked(),
            result.num == 1,
            result.exp == 0,
            result.talp == Some(time),
            result.tga == time,
            !result.ee,
            result.stats == stats,
    {
        Classifier {
            condition: other.condition,
            action: other.action,
            effect: other.effect,
            mark: Mark::new(),
            num: 1,
            exp: 0,
            talp: Some(time),
            tga: time,
            ee: false,
            stats,
        }
    }

    pub fn increase_experience(&mut self)
        requires
            old(self).exp < u32::MAX,
        ensures
            final(self).exp == old(self).exp + 1,
            final(self).condition == old(self).condition,
            final(self).effect == old(self).effect,
            final(self).action == old(self).action,
            final(self).num == old(self).num,
    {
        self.exp = self.exp + 1;
    }

    /// Fewer specified attributes in the condition than `other`'s.
    pub fn is_more_general(&self, other: &Classifier<N, Q>) -> (result: bool)
        ensures
            result == (count_specific(self.condition.symbols@) < count_specific(other.condition.symbols@)),
    {
        self.condition.specificity() < other.condition.specificity()
    }

    pub fn does_anticipate_correctly(&self, p0: &Perception<N>, p1: &Perception<N>) -> (result: bool)
        ensures
            result == anticipates_all(self.effect.symbols@, p0.symbols@, p1.symbols@),
    {
        self.effect.anticipates_correctly(p0, p1)
    }

    pub fn does_anticipate_change(&self) -> (result: bool)
        ensures
            result == has_token(self.effect.symbols@),
    {
        self.effect.specify_change()
    }

    pub fn does_match(&self, perception: &Perception<N>) -> (result: bool)
        ensures
            result == all_compatible(self.condition.symbols@, perception.symbols@),
    {
        self.condition.does_match(perception)
    }

    /// Marks the classifier with a perception it failed in; a mark that
    /// changes clears the `ee` flag.
    pub fn set_mark(&mut self, perception: &Perception<N>)
        ensures
            final(self).condition == old(self).condition,
            final(self).effect == old(self).effect,
            final(self).action == old(self).action,
            final(self).num == old(self).num,
            final(self).exp == old(self).exp,
            final(self).stats == old(self).stats,
            final(self).ee == (old(self).ee && !old(self).mark.spec_is_marked() && !exists|i: int|
                0 <= i < N && #[trigger] old(self).condition.symbols@[i] is Wildcard),
            forall|i: int|
                0 <= i < N && old(self).mark.spec_is_marked() ==> (#[trigger] final(self).mark.marked(i)).to_set()
                    == if old(self).mark.marked(i).len() > 0 {
                    old(self).mark.marked(i).to_set().insert(perception.symbols@[i])
                } else {
                    old(self).mark.marked(i).to_set()
                },
            forall|i: int|
                0 <= i < N && !old(self).mark.spec_is_marked() ==> (#[trigger] final(self).mark.marked(i)).to_set()
                    == if old(self).condition.symbols@[i] is Wildcard {
                    set![perception.symbols@[i]]
                } else {
                    Set::empty()
                },
    {
        if self.mark.set_using_condition(&self.condition, perception) {
            self.ee = false;
        }
    }

    /// The positions specified in the condition at which the effect
    /// foresees no change, in increasing order.
    pub fn specified_unchanging_attributes(&self) -> (result: Vec<usize>)
        ensures
            forall|k: int, j: int| 0 <= k < j < result@.len() ==> #[trigger] result@[k] < #[trigger] result@[j],
            forall|k: int| 0 <= k < result@.len() ==> #[trigger] result@[k] < N,
            forall|i: usize| i < N ==> (#[trigger] result@.contains(i) <==> unchanging_specified(*self, i as int)),
            result@ == unchanging_below(*self, N as nat),
    {
        let mut result: Vec<usize> = Vec::new();
        let mut index: usize = 0;
        while index < N
            invariant
                index <= N,
                forall|k: int, j: int| 0 <= k < j < result@.len() ==> #[trigger] result@[k] < #[trigger] result@[j],
                forall|k: int| 0 <= k < result@.len() ==> #[trigger] result@[k] < index,
                forall|i: usize| i < N ==> (#[trigger] result@.contains(i) <==> (i < index && unchanging_specified(*self, i as int))),
                result@ == unchanging_below(*self, index as nat),
            decreases N - index,
        {
            let ghost before = result@;
            if !self.condition.symbols[index].is_wildcard() && self.effect.symbols[index].is_wildcard() {
                result.push(index);
                proof {
                    assert forall|i: usize| i < N implies (#[trigger] result@.contains(i) <==> (i < index + 1
                        && unchanging_specified(*self, i as int))) by {
                        if i == index {
                            assert(result@[before.len() as int] == i);
                        }
                        if before.contains(i) {
                            let k = choose|k: int| 0 <= k < before.len() && before[k] == i;
                            assert(result@[k] == i);
                        }
                        if result@.contains(i) && i != index {
                            let k = choose|k: int| 0 <= k < result@.len() && result@[k] == i;
                            assert(before[k] == i);
                        }
                    }
                }
            } else {
                proof {
                    assert forall|i: usize| i < N implies (#[trigger] result@.contains(i) <==> (i < index + 1
                        && unchanging_specified(*self, i as int))) by {
                        if result@.contains(i) {
                            let k = choose|k: int| 0 <= k < result@.len() && result@[k] == i;
                            assert(result@[k] < index);
                        }
                    }
                }
            }
            index += 1;
        }
        result
    }

    /// Generalizes one position specified in the condition at which the
    /// effect foresees no change, drawn uniformly; `false` when there is
    /// none.
    pub fn generalize_unchanging_condition_attribute<R: RandomSource>(&mut self, rng: &mut R) -> (result: bool)
        ensures
            result == exists|i: int| 0 <= i < N && #[trigger] unchanging_specified(*old(self), i),
            result ==> exists|position: int|
                0 <= position < N && #[trigger] unchanging_specified(*old(self), position)
                    && final(self).condition.symbols@ == old(self).condition.symbols@.update(position, Symbol::Wildcard),
            !result ==> final(self).condition == old(self).condition,
            !result ==> final(rng).drawn() == old(rng).drawn(),
            result ==> ({
                let candidates = unchanging_below(*old(self), N as nat);
                let draw = final(rng).drawn().last();
                &&& final(rng).drawn() == old(rng).drawn().push(draw)
                &&& draw.0 == candidates.len()
                &&& final(self).condition.symbols@ == old(self).condition.symbols@.update(
                    candidates[draw.1 as int] as int,
                    Symbol::Wildcard,
                )
            }),
            final(self).effect == old(self).effect,
            final(self).action == old(self).action,
            final(self).num == old(self).num,
            final(self).exp == old(self).exp,
            final(self).stats == old(self).stats,
    {
        let candidates = self.specified_unchanging_attributes();
        if candidates.len() == 0 {
            proof {
                assert forall|i: int| 0 <= i < N implies !#[trigger] unchanging_specified(*self, i) by {
                    assert(!candidates@.contains(i as usize));
                }
            }
            return false;
        }
        let chosen = candidates[rng.gen_range(candidates.len())];
        proof {
            assert(candidates@.contains(chosen));
            assert(unchanging_specified(*self, chosen as int));
        }
        self.condition.generalize(chosen);
        true
    }

    pub fn is_marked(&self) -> (result: bool)
        ensures
            result == self.mark.spec_is_marked(),
    {
        self.mark.is_marked()
    }

    /// Specializes the classifier on the transition `p0 -> p1`: at every
    /// attribute that changed, the effect takes the new value where it had a
    /// wildcard and the condition takes the old value. With
    /// `leave_specialized`, attributes whose effect is already specified
    /// are left alone.
    pub fn specialize(&mut self, p0: &Perception<N>, p1: &Perception<N>, leave_specialized: bool)
        ensures
            final(self).effect.symbols@ == specialized_effect(
                old(self).effect.symbols@,
                p0.symbols@,
                p1.symbols@,
                leave_specialized,
            ),
            final(self).condition.symbols@ == specialized_condition(
                old(self).condition.symbols@,
                old(self).effect.symbols@,
                p0.symbols@,
                p1.symbols@,
                leave_specialized,
            ),
            forall|i: int|
                0 <= i < N && p0.symbols@[i] != p1.symbols@[i] && old(self).effect.symbols@[i] is Wildcard
                    ==> #[trigger] final(self).condition.symbols@[i] == p0.symbols@[i]
                    && final(self).effect.symbols@[i] == p1.symbols@[i],
            forall|i: int|
                0 <= i < N && p0.symbols@[i] != p1.symbols@[i] && !leave_specialized
                    ==> #[trigger] final(self).condition.symbols@[i] == p0.symbols@[i],
            forall|i: int|
                0 <= i < N && (p0.symbols@[i] == p1.symbols@[i] || (leave_specialized
                    && !(old(self).effect.symbols@[i] is Wildcard)))
                    ==> #[trigger] final(self).condition.symbols@[i] == old(self).condition.symbols@[i]
                    && final(self).effect.symbols@[i] == old(self).effect.symbols@[i],
            forall|i: int|
                0 <= i < N && !(old(self).effect.symbols@[i] is Wildcard)
                    ==> #[trigger] final(self).effect.symbols@[i] == old(self).effect.symbols@[i],
            final(self).action == old(self).action,
            final(self).num == old(self).num,
            final(self).exp == old(self).exp,
            final(self).stats == old(self).stats,
    {
        let ghost condition0 = self.condition.symbols@;
        let ghost effect0 = self.effect.symbols@;
        let mut index: usize = 0;
        while index < N
            invariant
                index <= N,
                condition0 == old(self).condition.symbols@,
                effect0 == old(self).effect.symbols@,
                self.action == old(self).action,
                self.num == old(self).num,
                self.exp == old(self).exp,
                self.stats == old(self).stats,
                forall|i: int| 0 <= i < index ==> #[trigger] self.effect.symbols@[i] == specialized_effect(effect0, p0.symbols@, p1.symbols@, leave_specialized)[i],
                forall|i: int| 0 <= i < index ==> #[trigger] self.condition.symbols@[i] == specialized_condition(condition0, effect0, p0.symbols@, p1.symbols@, leave_specialized)[i],
                forall|i: int| index <= i < N ==> #[trigger] self.effect.symbols@[i] == effect0[i],
                forall|i: int| index <= i < N ==> #[trigger] self.condition.symbols@[i] == condition0[i],
            decreases N - index,
        {
            let protected = leave_specialized && !self.effect.symbols[index].is_wildcard();
            if !protected && p0.symbols[index] != p1.symbols[index] {
                if self.effect.symbols[index].is_wildcard() {
                    self.effect.symbols[index] = p1.symbols[index];
                }
                self.condition.symbols[index] = p0.symbols[index];
            }
            index += 1;
        }
        proof {
            assert(self.effect.symbols@ =~= specialized_effect(effect0, p0.symbols@, p1.symbols@, leave_specialized));
            assert(self.condition.symbols@ =~= specialized_condition(condition0, effect0, p0.symbols@, p1.symbols@, leave_specialized));
        }
    }

    /// Two classifiers hold the same rule: equal condition, action and
    /// effect.
    pub fn same_rule(&self, other: &Classifier<N, Q>) -> (result: bool)
        ensures
            result == (self.condition.symbols@ == other.condition.symbols@ && self.action == other.action
                && self.effect.symbols@ == other.effect.symbols@),
    {
        let mut index: usize = 0;
        while index < N
            invariant
                index <= N,
                forall|i: int| 0 <= i < index ==> #[trigger] self.condition.symbols@[i] == other.condition.symbols@[i],
            decreases N - index,
        {
            if self.condition.symbols[index] != other.condition.symbols[index] {
                return false;
            }
            index += 1;
        }
        proof {
            assert(self.condition.symbols@ =~= other.condition.symbols@);
        }
        let same_action = match (self.action, other.action) {
            (Some(left), Some(right)) => left == right,
            (None, None) => true,
            _ => false,
        };
        same_action && self.effect.subsumes(&other.effect)
    }
}

} // verus!
