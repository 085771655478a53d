use vstd::prelude::*;

use std::collections::VecDeque;

use crate::perception::Perception;

verus! {

/// One remembered step: the situation, the action taken, the reward it
/// earned, the situation it led to, and whether the episode ended there.
/// The reward is held as `F`, which this library carries and never reads.
#[derive(Clone, Copy, PartialEq, Debug)]
pub struct ReplaySample<const N: usize, F> {
    pub state: Perception<N>,
    pub action: usize,
    pub reward: F,
    pub next_state: Perception<N>,
    pub done: bool,
}

/// The parameters of experience replay: how many samples the memory keeps,
/// how many it must hold before replay starts, and how many are replayed
/// after each step.
#[derive(Clone, Copy, PartialEq, Eq, Debug, Structural)]
pub struct ReplayConfiguration {
    pub buffer_size: usize,
    pub min_samples: usize,
    pub samples_number: usize,
}

impl ReplayConfiguration {
    /// The settings of the reference protocol.
    pub fn default_protocol() -> (result: Self)
        ensures
            result.buffer_size == 10_000,
            result.min_samples == 1_000,
            result.samples_number == 3,
    {
        Self { buffer_size: 10_000, min_samples: 1_000, samples_number: 3 }
    }
}

impl Default for ReplayConfiguration {
    fn default() -> (result: Self)
        ensures
            result == Self::default_protocol_spec(),
    {
        Self::default_protocol()
    }
}

impl ReplayConfiguration {
    /// The settings `default_protocol` returns.
    pub open spec fn default_protocol_spec() -> Self {
        Self { buffer_size: 10_000, min_samples: 1_000, samples_number: 3 }
    }
}

/// The most recent samples, oldest first, never more than `max_size` of
/// them (a memory of size 0 keeps none).
pub struct ReplayMemory<S> {
    samples: VecDeque<S>,
    max_size: usize,
}

/// The samples after `sample` arrives at a memory limited to `limit`: the
/// oldest leaves first when the memory is full; a memory limited to 0 keeps
/// nothing.
pub open spec fn updated<S>(contents: Seq<S>, limit: nat, sample: S) -> Seq<S> {
    if limit == 0 {
        contents
    } else {
        (if contents.len() >= limit && contents.len() > 0 {
            contents.drop_first()
        } else {
            contents
        }).push(sample)
    }
}

/// The number of samples `sample_indices` draws: `count`, or all of them
/// when fewer are held.
pub open spec fn wanted_samples(count: nat, len: nat) -> nat {
    if count < len {
        count
    } else {
        len
    }
}

impl<S> ReplayMemory<S> {
    /// The memory never holds more samples than its limit.
    #[verifier::type_invariant]
    spec fn within_limit(self) -> bool {
        self.samples@.len() <= self.max_size
    }
}

impl<S: Copy> ReplayMemory<S> {
    /// The samples held, oldest first.
    pub closed spec fn contents(self) -> Seq<S> {
        self.samples@
    }

    /// The limit the memory was made with.
    pub closed spec fn limit(self) -> nat {
        self.max_size as nat
    }

    pub fn new(max_size: usize) -> (result: Self)
        ensures
            result.contents() == Seq::<S>::empty(),
            result.limit() == max_size,
    {
        let capacity = if max_size < 1_024 {
            max_size
        } else {
            1_024
        };
        Self { samples: VecDeque::with_capacity(capacity), max_size }
    }

    pub fn max_size(&self) -> (result: usize)
        ensures
            result == self.limit(),
    {
        self.max_size
    }

    pub fn len(&self) -> (result: usize)
        ensures
            result == self.contents().len(),
            result <= self.limit(),
    {
        proof {
            use_type_invariant(self);
        }
        self.samples.len()
    }

    pub fn is_empty(&self) -> (result: bool)
        ensures
            result == (self.contents().len() == 0),
    {
        self.samples.len() == 0
    }

    pub fn get(&self, index: usize) -> (result: S)
        requires
            index < self.contents().len(),
        ensures
            result == self.contents()[index as int],
    {
        self.samples[index]
    }

    /// Appends `sample`, first dropping the oldest sample when the memory
    /// is full; a memory limited to 0 stays empty.
    pub fn update(&mut self, sample: S)
        ensures
            final(self).limit() == old(self).limit(),
            final(self).contents() == updated(old(self).contents(), old(self).limit(), sample),
            final(self).contents().len() <= final(self).limit(),
    {
        proof {
            use_type_invariant(&*self);
        }
        if self.max_size == 0 {
            return;
        }
        let mut samples = VecDeque::new();
        std::mem::swap(&mut samples, &mut self.samples);
        if samples.len() >= self.max_size {
            let _ = samples.pop_front();
        }
        samples.push_back(sample);
        proof {
            if old(self).contents().len() >= old(self).limit() && old(self).contents().len() > 0 {
                assert(old(self).contents().subrange(1, old(self).contents().len() as int)
                    =~= old(self).contents().drop_first());
            }
        }
        self.samples = samples;
    }

    /// How many indices `sample_indices` draws for `count`.
    pub fn sample_count(&self, count: usize) -> (result: usize)
        ensures
            result == wanted_samples(count as nat, self.contents().len()),
    {
        let len = self.samples.len();
        if count < len {
            count
        } else {
            len
        }
    }
}

/// A memory that holds no more than its limit keeps doing so, and never
/// loses a sample it has room for: an update of a memory that is not full
/// keeps every sample and adds the new one last; a memory limited to 0
/// stays as it was.
pub proof fn lemma_update_keeps_bound<S: Copy>(limit: nat, before: Seq<S>, sample: S)
    requires
        before.len() <= limit,
    ensures
        ({
            let after = updated(before, limit, sample);
            &&& after.len() <= limit
            &&& limit == 0 ==> after == before
            &&& limit > 0 ==> after.last() == sample
            &&& before.len() < limit ==> after.drop_last() == before
            &&& 0 < limit && before.len() == limit ==> after.drop_last() == before.drop_first()
        }),
{
    let kept = if before.len() >= limit && before.len() > 0 {
        before.drop_first()
    } else {
        before
    };
    assert(kept.push(sample).drop_last() =~= kept);
}

/// One draw of `sample_indices`: the drawn index joins the chosen ones
/// unless it is already among them, so the chosen indices stay distinct.
pub fn admit_candidate(chosen: &mut Vec<usize>, candidate: usize) -> (admitted: bool)
    ensures
        admitted == !old(chosen)@.contains(candidate),
        final(chosen)@ == (if admitted {
            old(chosen)@.push(candidate)
        } else {
            old(chosen)@
        }),
{
    let mut index: usize = 0;
    while index < chosen.len()
        invariant
            index <= chosen@.len(),
            forall|i: int| 0 <= i < index ==> #[trigger] chosen@[i] != candidate,
        decreases chosen@.len() - index,
    {
        if chosen[index] == candidate {
            proof {
                assert(chosen@[index as int] == candidate);
            }
            return false;
        }
        index += 1;
    }
    chosen.push(candidate);
    true
}

/// Distinct indices stay distinct after an admission.
pub proof fn lemma_admission_keeps_distinct(chosen: Seq<usize>, candidate: usize, bound: nat)
    requires
        chosen.no_duplicates(),
        forall|i: int| 0 <= i < chosen.len() ==> #[trigger] chosen[i] < bound,
        candidate < bound,
    ensures
        ({
            let after = if !chosen.contains(candidate) {
                chosen.push(candidate)
            } else {
                chosen
            };
            &&& after.no_duplicates()
            &&& forall|i: int| 0 <= i < after.len() ==> #[trigger] after[i] < bound
        }),
{
    if !chosen.contains(candidate) {
        let after = chosen.push(candidate);
        assert forall|i: int, j: int| 0 <= i < after.len() && 0 <= j < after.len() && i != j implies after[i]
            != after[j] by {
            if i == chosen.len() as int {
                assert(after[j] == chosen[j]);
            } else if j == chosen.len() as int {
                assert(after[i] == chosen[i]);
            }
        }
    }
}

} // verus!
