use vstd::prelude::*;

use rand::Rng;
use rand::SeedableRng;
use rand_chacha::ChaCha8Rng;

verus! {

broadcast use vstd::seq_lib::group_to_multiset_ensures;

/// The abstract position of a ChaCha stream: the key, the stream number and
/// the offset in 32-bit words.
#[derive(Clone, Copy, PartialEq, Eq, Debug)]
pub struct RngState {
    pub seed: [u8; 32],
    pub stream: u64,
    pub word_pos: u128,
}

/// A source of random choices. `gen_range(bound)` draws an index below
/// `bound`, and every draw is recorded, with its bound, in the source's
/// history of draws; a source that can be checkpointed reports and accepts
/// its state, and by default a source cannot be.
pub trait RandomSource {
    /// The draws made so far, oldest first: each bound with the index drawn
    /// below it.
    spec fn drawn(&self) -> Seq<(usize, usize)>;

    fn gen_range(&mut self, bound: usize) -> (result: usize)
        requires
            bound > 0,
        ensures
            result < bound,
            final(self).drawn() == old(self).drawn().push((bound, result)),
    ;

    fn capture_state(&self) -> (result: Option<RngState>)
        default_ensures
            result is None,
    {
        None
    }

    fn restore_state(&mut self, state: &RngState) -> (result: bool)
        default_ensures
            !result,
            final(self).drawn() == old(self).drawn(),
    {
        false
    }
}

/// `s` with the items at `i` and `j` exchanged.
pub open spec fn swapped<T>(s: Seq<T>, i: int, j: int) -> Seq<T> {
    s.update(i, s[j]).update(j, s[i])
}

/// The Fisher-Yates shuffle of `items` by the indices `draws`: the `k`-th
/// draw (from 0) exchanges position `len - 1 - k` with the position drawn.
pub open spec fn shuffled<T>(items: Seq<T>, draws: Seq<usize>) -> Seq<T>
    decreases draws.len(),
{
    if draws.len() == 0 {
        items
    } else {
        swapped(
            shuffled(items, draws.drop_last()),
            items.len() - draws.len(),
            draws.last() as int,
        )
    }
}

/// The number of draws a shuffle of `n` items makes: one for each position
/// from the back down to the second.
pub open spec fn shuffle_draws(n: nat) -> nat {
    if n > 1 {
        (n - 1) as nat
    } else {
        0
    }
}

/// The Fisher-Yates shuffle: every position from the back swaps with a
/// position drawn at or before it. The shuffle draws once for each position
/// from the back down to the second, position `i` with bound `i + 1`, and
/// exchanges the items as the draws say; the items are only reordered.
pub fn shuffle<T: Copy, R: RandomSource>(items: &mut Vec<T>, rng: &mut R)
    ensures
        ({
            let n = old(items)@.len();
            let before = old(rng).drawn().len();
            let made = final(rng).drawn().skip(before as int);
            &&& final(rng).drawn().len() == before + shuffle_draws(n)
            &&& final(rng).drawn().take(before as int) == old(rng).drawn()
            &&& made.len() == shuffle_draws(n)
            &&& forall|k: int| 0 <= k < made.len() ==> (#[trigger] made[k]).0 == n - k
            &&& final(items)@ == shuffled(old(items)@, made.map_values(|draw: (usize, usize)| draw.1))
        }),
        final(items)@.len() == old(items)@.len(),
        final(items)@.to_multiset() == old(items)@.to_multiset(),
{
    let ghost start = items@;
    let ghost before = rng.drawn();
    let length = items.len();
    let mut index = length;
    while index > 1
        invariant
            items@.len() == length,
            start.len() == length,
            index <= length,
            items@.to_multiset() == start.to_multiset(),
            length <= 1 ==> index == length,
            length > 1 ==> index >= 1,
            rng.drawn().len() == before.len() + (length - index),
            rng.drawn().take(before.len() as int) == before,
            forall|k: int|
                0 <= k < rng.drawn().len() - before.len() ==> (#[trigger] rng.drawn()[before.len() + k]).0
                    == length - k,
            items@ == shuffled(
                start,
                rng.drawn().skip(before.len() as int).map_values(|draw: (usize, usize)| draw.1),
            ),
        decreases index,
    {
        index -= 1;
        let ghost drawn_before = rng.drawn();
        let swap_with = rng.gen_range(index + 1);
        let first = items[index];
        let second = items[swap_with];
        proof {
            let s0 = items@;
            let s1 = s0.update(index as int, second);
            let s2 = s1.update(swap_with as int, first);
            vstd::seq_lib::to_multiset_update(s0, index as int, second);
            vstd::seq_lib::to_multiset_update(s1, swap_with as int, first);
            assert(s1[swap_with as int] == if swap_with == index { second } else { second });
            assert(s2.to_multiset() =~= s0.to_multiset());
            let old_made = drawn_before.skip(before.len() as int).map_values(|draw: (usize, usize)| draw.1);
            let new_made = rng.drawn().skip(before.len() as int).map_values(|draw: (usize, usize)| draw.1);
            assert(new_made.drop_last() =~= old_made);
            assert(new_made.last() == swap_with);
            assert(start.len() - new_made.len() == index);
            assert(s2 =~= swapped(s0, index as int, swap_with as int));
            assert(rng.drawn().take(before.len() as int) =~= drawn_before.take(before.len() as int));
            assert forall|k: int|
                0 <= k < rng.drawn().len() - before.len() implies (#[trigger] rng.drawn()[before.len() + k]).0
                == length - k by {
                if k < drawn_before.len() - before.len() {
                    assert(rng.drawn()[before.len() + k] == drawn_before[before.len() + k]);
                }
            }
        }
        items.set(index, second);
        items.set(swap_with, first);
    }
    proof {
        let made = rng.drawn().skip(before.len() as int);
        assert forall|k: int| 0 <= k < made.len() implies (#[trigger] made[k]).0 == length - k by {
            assert(made[k] == rng.drawn()[before.len() + k]);
        }
    }
}

/// The key `ChaCha8Rng::seed_from_u64` derives from `seed`.
pub uninterp spec fn seeded_key(seed: u64) -> Seq<u8>;

/// One `gen_range(0..bound)` of the ChaCha8 generator keyed by `key` on
/// stream `stream` at word offset `word_pos`: the value drawn and the word
/// offset after the draw.
pub uninterp spec fn chacha_draw(key: Seq<u8>, stream: u64, word_pos: u128, bound: u64) -> (u64, u128);

/// `ChaCha8Rng::seed_from_u64(seed)`, read back with `get_seed`: the key
/// the generator seeded from `seed` runs on. The key is named (it is a
/// function of `seed` alone), not stated.
#[verifier::external_body]
fn chacha_seeded_key(seed: u64) -> (result: [u8; 32])
    ensures
        result@ == seeded_key(seed),
{
    ChaCha8Rng::seed_from_u64(seed).get_seed()
}

/// Where a ChaCha8 stream stands: its key, its stream number and its offset
/// in 32-bit words.
pub struct StreamPosition {
    pub key: Seq<u8>,
    pub stream: u64,
    pub word_pos: u128,
}

impl RngState {
    /// The position this state describes.
    pub open spec fn at(self) -> StreamPosition {
        StreamPosition { key: self.seed@, stream: self.stream, word_pos: self.word_pos }
    }
}

/// Where the generator seeded from `seed` starts: the key `seed_from_u64`
/// derives, stream 0, word 0.
pub open spec fn seeded_start(seed: u64) -> StreamPosition {
    StreamPosition { key: seeded_key(seed), stream: 0, word_pos: 0 }
}

/// One draw below `bound` from `position`: the index drawn and the
/// position after it, on the same key and stream.
pub open spec fn next_draw(position: StreamPosition, bound: usize) -> (usize, StreamPosition) {
    let (value, word_pos) = chacha_draw(position.key, position.stream, position.word_pos, bound as u64);
    (value as usize, StreamPosition { key: position.key, stream: position.stream, word_pos })
}

/// The indices drawn from `position` below `bounds`, one after another.
pub open spec fn draws_from(position: StreamPosition, bounds: Seq<usize>) -> Seq<usize>
    decreases bounds.len(),
{
    if bounds.len() == 0 {
        Seq::empty()
    } else {
        let (value, next) = next_draw(position, bounds[0]);
        seq![value] + draws_from(next, bounds.drop_first())
    }
}

/// The position after drawing below `bounds` from `position`.
pub open spec fn position_after(position: StreamPosition, bounds: Seq<usize>) -> StreamPosition
    decreases bounds.len(),
{
    if bounds.len() == 0 {
        position
    } else {
        position_after(next_draw(position, bounds[0]).1, bounds.drop_first())
    }
}

/// `count` draws below the same `bound`.
pub open spec fn repeated_bound(bound: usize, count: nat) -> Seq<usize> {
    Seq::new(count, |i: int| bound)
}

/// `Rng::gen_range(0..bound)` made `count` times in a row on the ChaCha8
/// generator at `state`: the generator is made from the key (`from_seed`),
/// put on the stream (`set_stream`) and at the word offset
/// (`set_word_pos`), draws, and its word offset is read back
/// (`get_word_pos`). Each value is below `bound`, which must not be 0
/// (`gen_range` panics on an empty range); at least one draw is made. The
/// values are the single draws
/// named by `chacha_draw`, each made at the position the one before it
/// left, and the offset read back is where the last one left the stream:
/// the generator's output is a function of its key, stream and offset.
#[verifier::external_body]
fn chacha_draws_at(state: &RngState, bound: usize, count: usize) -> (result: (Vec<usize>, u128))
    requires
        bound > 0,
        count > 0,
    ensures
        result.0@ == draws_from(state.at(), repeated_bound(bound, count as nat)),
        result.1 == position_after(state.at(), repeated_bound(bound, count as nat)).word_pos,
        result.0@[0] == chacha_draw(state.seed@, state.stream, state.word_pos, bound as u64).0,
        forall|i: int| 0 <= i < count ==> #[trigger] result.0@[i] < bound,
{
    let mut rng = ChaCha8Rng::from_seed(state.seed);
    rng.set_stream(state.stream);
    rng.set_word_pos(state.word_pos);
    let values: Vec<usize> = (0..count).map(|_| rng.gen_range(0..bound as u64) as usize).collect();
    (values, rng.get_word_pos())
}

/// Drawing below `first` and then below `second` is drawing below both
/// one after the other: the draws follow on, and so does the position.
pub proof fn lemma_draws_concat(position: StreamPosition, first: Seq<usize>, second: Seq<usize>)
    ensures
        draws_from(position, first + second) == draws_from(position, first) + draws_from(
            position_after(position, first),
            second,
        ),
        position_after(position, first + second) == position_after(position_after(position, first), second),
    decreases first.len(),
{
    if first.len() == 0 {
        assert(first + second =~= second);
        assert(draws_from(position, first) == Seq::<usize>::empty());
        assert(draws_from(position, first + second) =~= draws_from(position, first) + draws_from(
            position_after(position, first),
            second,
        ));
    } else {
        let next = next_draw(position, first[0]).1;
        assert((first + second)[0] == first[0]);
        assert((first + second).drop_first() =~= first.drop_first() + second);
        lemma_draws_concat(next, first.drop_first(), second);
        assert(draws_from(position, first + second) =~= draws_from(position, first) + draws_from(
            position_after(position, first),
            second,
        ));
    }
}

/// A ChaCha8 stream used as the agent's and the environments' source of
/// randomness: the key, the stream and the word offset it has reached.
pub struct ChaChaRandomSource {
    state: RngState,
    history: Ghost<Seq<(usize, usize)>>,
}

/// A source resumed at the position another one reached, by `from_state`
/// or by `restore_state` on any source, draws what the other one draws
/// from there, whatever the bounds.
pub proof fn lemma_resumed_source_replays(
    original: ChaChaRandomSource,
    resumed: ChaChaRandomSource,
    bounds: Seq<usize>,
)
    requires
        resumed.position() == original.position(),
    ensures
        draws_from(resumed.position().at(), bounds) == draws_from(original.position().at(), bounds),
        position_after(resumed.position().at(), bounds) == position_after(original.position().at(), bounds),
{
}

impl ChaChaRandomSource {
    /// The key, stream and word offset the source has reached.
    pub closed spec fn position(self) -> RngState {
        self.state
    }

    /// The generator seeded from `seed`: the key `seed_from_u64` derives
    /// from it, on stream 0 at word 0, with nothing drawn yet.
    pub fn from_seed(seed: u64) -> (result: Self)
        ensures
            result.position().at() == seeded_start(seed),
            result.drawn() == Seq::<(usize, usize)>::empty(),
    {
        let key = chacha_seeded_key(seed);
        Self { state: RngState { seed: key, stream: 0, word_pos: 0 }, history: Ghost(Seq::empty()) }
    }

    /// The generator at the key, stream and word offset of `state`, with
    /// nothing drawn yet.
    pub fn from_state(state: &RngState) -> (result: Self)
        ensures
            result.position() == *state,
            result.drawn() == Seq::<(usize, usize)>::empty(),
    {
        Self { state: *state, history: Ghost(Seq::empty()) }
    }

    /// `count` draws below `bound` in a row, as `count` calls of
    /// `gen_range` would make them, with the generator made only once.
    pub fn draw_many(&mut self, bound: usize, count: usize) -> (result: Vec<usize>)
        requires
            bound > 0,
        ensures
            result@ == draws_from(old(self).position().at(), repeated_bound(bound, count as nat)),
            final(self).position().at() == position_after(
                old(self).position().at(),
                repeated_bound(bound, count as nat),
            ),
            final(self).position().seed == old(self).position().seed,
            result@.len() == count,
            final(self).drawn() == old(self).drawn() + Seq::new(count as nat, |i: int| (bound, result@[i])),
            forall|i: int| 0 <= i < count ==> #[trigger] result@[i] < bound,
    {
        if count == 0 {
            let none: Vec<usize> = Vec::new();
            proof {
                assert(repeated_bound(bound, 0) =~= Seq::<usize>::empty());
                assert(self.history@ + Seq::new(0, |i: int| (bound, none@[i])) =~= self.history@);
                assert(none@ =~= draws_from(self.state.at(), repeated_bound(bound, 0)));
            }
            return none;
        }
        let (values, word_pos) = chacha_draws_at(&self.state, bound, count);
        proof {
            lemma_position_keeps_key(self.state.at(), repeated_bound(bound, count as nat));
            lemma_draws_len(self.state.at(), repeated_bound(bound, count as nat));
        }
        self.state = RngState { seed: self.state.seed, stream: self.state.stream, word_pos };
        self.history = Ghost(self.history@ + Seq::new(count as nat, |i: int| (bound, values@[i])));
        values
    }
}

/// One index is drawn for each bound.
pub proof fn lemma_draws_len(position: StreamPosition, bounds: Seq<usize>)
    ensures
        draws_from(position, bounds).len() == bounds.len(),
    decreases bounds.len(),
{
    if bounds.len() > 0 {
        lemma_draws_len(next_draw(position, bounds[0]).1, bounds.drop_first());
    }
}

/// Draws keep the key and the stream; only the word offset moves.
pub proof fn lemma_position_keeps_key(position: StreamPosition, bounds: Seq<usize>)
    ensures
        position_after(position, bounds).key == position.key,
        position_after(position, bounds).stream == position.stream,
    decreases bounds.len(),
{
    if bounds.len() > 0 {
        lemma_position_keeps_key(next_draw(position, bounds[0]).1, bounds.drop_first());
    }
}

impl RandomSource for ChaChaRandomSource {
    closed spec fn drawn(&self) -> Seq<(usize, usize)> {
        self.history@
    }

    /// The draw the generator makes at its position; it moves on to the
    /// position after the draw.
    fn gen_range(&mut self, bound: usize) -> (result: usize)
        ensures
            (result, final(self).position().at()) == next_draw(old(self).position().at(), bound),
            final(self).position().seed == old(self).position().seed,
    {
        let (values, word_pos) = chacha_draws_at(&self.state, bound, 1);
        proof {
            let p = self.state.at();
            let one = repeated_bound(bound, 1);
            let next = next_draw(p, bound).1;
            assert(one[0] == bound);
            assert(one.drop_first() =~= Seq::<usize>::empty());
            assert(draws_from(next, one.drop_first()) == Seq::<usize>::empty());
            assert(position_after(next, one.drop_first()) == next);
            assert(draws_from(p, one) =~= seq![next_draw(p, bound).0]);
        }
        let drawn = values[0];
        self.state = RngState { seed: self.state.seed, stream: self.state.stream, word_pos };
        self.history = Ghost(self.history@.push((bound, drawn)));
        drawn
    }

    /// The key, stream and word offset the source has reached.
    fn capture_state(&self) -> (result: Option<RngState>)
        ensures
            result == Some(self.position()),
    {
        Some(self.state)
    }

    /// Puts the source at the key, stream and word offset of `state`, which
    /// always succeeds; the draws made so far stay recorded.
    fn restore_state(&mut self, state: &RngState) -> (result: bool)
        ensures
            result,
            final(self).position() == *state,
            final(self).drawn() == old(self).drawn(),
    {
        self.state = *state;
        true
    }
}

} // verus!
