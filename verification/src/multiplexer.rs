use vstd::prelude::*;

use crate::knowledge::Transition;
use crate::perception::Perception;
use crate::rng::{draws_from, lemma_draws_concat, position_after, repeated_bound, seeded_start, ChaChaRandomSource, RandomSource};
use crate::symbol::Symbol;

use vstd::arithmetic::power2::{lemma_pow2_pos, lemma_pow2_strictly_increases, lemma_pow2_unfold, pow2};
use vstd::bits::{lemma_usize_pow2_no_overflow, lemma_usize_shl_is_mul};

verus! {

/// The perception length of the multiplexer with `k` address bits: the
/// address bits, the `2^k` data bits and the validation bit.
pub open spec fn mpx_length(k: nat) -> nat {
    k + pow2(k) + 1
}

/// `n` is the perception length of some multiplexer.
pub open spec fn is_mpx_length(n: nat) -> bool {
    exists|k: nat| mpx_length(k) == n
}

/// Longer multiplexers have more address bits.
pub proof fn lemma_mpx_length_strictly_increases(a: nat, b: nat)
    requires
        a < b,
    ensures
        mpx_length(a) < mpx_length(b),
{
    lemma_pow2_strictly_increases(a, b);
}

/// The number of address bits of a multiplexer whose perception has
/// `perception_length` symbols.
pub fn control_bits_for(perception_length: usize) -> (result: usize)
    requires
        is_mpx_length(perception_length as nat),
    ensures
        mpx_length(result as nat) == perception_length,
        result < usize::BITS,
{
    let ghost target = choose|k: nat| mpx_length(k) == perception_length as nat;
    proof {
        if target >= usize::BITS {
            if target > usize::BITS {
                lemma_pow2_strictly_increases(usize::BITS as nat, target);
            }
            assert(pow2(usize::BITS as nat) > usize::MAX) by {
                vstd::arithmetic::power2::lemma2_to64();
            }
        }
    }
    let mut control_bits: usize = 0;
    loop
        invariant
            mpx_length(target) == perception_length,
            target < usize::BITS,
            control_bits <= target,
        decreases target - control_bits,
    {
        proof {
            lemma_usize_pow2_no_overflow(control_bits as nat);
            lemma_usize_shl_is_mul(1, control_bits);
            if control_bits < target {
                lemma_mpx_length_strictly_increases(control_bits as nat, target);
            }
        }
        let observation_length = control_bits + (1usize << control_bits) + 1;
        if observation_length == perception_length {
            return control_bits;
        }
        proof {
            if control_bits == target {
                assert(false);
            }
        }
        control_bits += 1;
    }
}


broadcast use vstd::array::group_array_axioms;

/// The byte of the digit `0`; a bit `b` is shown as the token `'0' + b`.
pub const DIGIT_ZERO: u8 = 48;

/// The two actions of a multiplexer: answer 0 or answer 1.
pub const NUMBER_OF_POSSIBLE_ACTIONS: usize = 2;

/// The address spelled by the first `n` bits, read most significant first,
/// as the machine computes it: shift left, then or in the next bit.
pub open spec fn address_of(bits: Seq<u8>, n: nat) -> usize
    decreases n,
{
    if n == 0 {
        0
    } else {
        ((address_of(bits, (n - 1) as nat) << 1usize) | (bits[n - 1] as usize)) as usize
    }
}

/// The number the first `n` bits spell in binary, most significant first.
pub open spec fn binary_value(bits: Seq<u8>, n: nat) -> nat
    decreases n,
{
    if n == 0 {
        0
    } else {
        2 * binary_value(bits, (n - 1) as nat) + bits[n - 1] as nat
    }
}

/// Every one of the first `n` entries is a bit.
pub open spec fn all_bits(bits: Seq<u8>, n: nat) -> bool {
    forall|i: int| 0 <= i < n ==> #[trigger] bits[i] <= 1
}

/// The data bit the address bits point at.
pub open spec fn correct_answer_of(bits: Seq<u8>, control_bits: nat) -> usize {
    bits[control_bits + address_of(bits, control_bits) as int] as usize
}

/// The answer of the multiplexer: the data bit that the `control_bits`
/// address bits point at.
pub fn get_correct_answer(input_bits: &[u8], control_bits: usize) -> (result: usize)
    requires
        control_bits <= input_bits@.len(),
        control_bits + address_of(input_bits@, control_bits as nat) < input_bits@.len(),
    ensures
        result == correct_answer_of(input_bits@, control_bits as nat),
{
    let mut address: usize = 0;
    let mut index: usize = 0;
    while index < control_bits
        invariant
            index <= control_bits,
            control_bits <= input_bits@.len(),
            control_bits + address_of(input_bits@, control_bits as nat) < input_bits@.len(),
            address == address_of(input_bits@, index as nat),
        decreases control_bits - index,
    {
        address = (address << 1) | input_bits[index] as usize;
        index += 1;
    }
    assert(address == address_of(input_bits@, control_bits as nat));
    let length = input_bits.len();
    assert(control_bits + address < length);
    input_bits[control_bits + address] as usize
}

/// On bits, the machine's address is the binary number they spell.
pub proof fn lemma_address_is_binary_value(bits: Seq<u8>, n: nat)
    requires
        n <= bits.len(),
        all_bits(bits, n),
        binary_value(bits, n) <= usize::MAX,
    ensures
        address_of(bits, n) == binary_value(bits, n),
    decreases n,
{
    if n > 0 {
        let m = (n - 1) as nat;
        assert(bits[m as int] <= 1);
        assert(binary_value(bits, m) <= usize::MAX);
        lemma_address_is_binary_value(bits, m);
        let a = address_of(bits, m);
        let b = bits[m as int] as usize;
        assert(a * 2 <= usize::MAX);
        vstd::arithmetic::power2::lemma2_to64();
        lemma_usize_shl_is_mul(a, 1);
        let x = a << 1usize;
        assert(x == a * 2);
        assert((x | b) == x + b) by (bit_vector)
            requires
                x % 2 == 0,
                b <= 1,
        ;
    }
}

/// A binary number of `n` bits is below `2^n`.
pub proof fn lemma_binary_value_bounded(bits: Seq<u8>, n: nat)
    requires
        n <= bits.len(),
        all_bits(bits, n),
    ensures
        binary_value(bits, n) < pow2(n),
    decreases n,
{
    if n > 0 {
        lemma_binary_value_bounded(bits, (n - 1) as nat);
        lemma_pow2_unfold(n);
        assert(bits[n - 1] <= 1);
    } else {
        vstd::arithmetic::power2::lemma2_to64();
    }
}

/// The multiplexer answer on bits: the data bit after the address bits at
/// the position their binary number names.
pub proof fn lemma_correct_answer_is_addressed_bit(bits: Seq<u8>, control_bits: nat)
    requires
        control_bits <= bits.len(),
        all_bits(bits, control_bits),
        control_bits < usize::BITS,
    ensures
        correct_answer_of(bits, control_bits) == bits[(control_bits + binary_value(bits, control_bits)) as int] as usize,
{
    lemma_binary_value_bounded(bits, control_bits);
    lemma_usize_pow2_no_overflow(control_bits);
    lemma_address_is_binary_value(bits, control_bits);
}


/// Bit `j` of `value`.
pub open spec fn bit_of(value: usize, j: usize) -> u8 {
    ((value >> j) & 1usize) as u8
}

/// The first `input_bits` entries hold the bits of `value`, most
/// significant first; the rest are zero.
pub open spec fn decoded(value: usize, input_bits: nat, length: nat) -> Seq<u8> {
    Seq::new(
        length,
        |i: int| if i < input_bits { bit_of(value, (input_bits - 1 - i) as usize) } else { 0u8 },
    )
}

/// The bits of `value`, most significant first, in the first `input_bits`
/// entries.
pub fn decode_input<const N: usize>(value: usize, input_bits: usize) -> (result: [u8; N])
    requires
        input_bits <= N,
        input_bits <= usize::BITS,
    ensures
        result@ == decoded(value, input_bits as nat, N as nat),
{
    let mut input = [0u8;N];
    let mut index: usize = 0;
    while index < input_bits
        invariant
            index <= input_bits,
            input_bits <= N,
            input_bits <= usize::BITS,
            forall|i: int| 0 <= i < index ==> #[trigger] input@[i] == decoded(value, input_bits as nat, N as nat)[i],
            forall|i: int| index <= i < N ==> #[trigger] input@[i] == 0,
        decreases input_bits - index,
    {
        input[index] = ((value >> (input_bits - 1 - index)) & 1) as u8;
        index += 1;
    }
    proof {
        assert(input@ =~= decoded(value, input_bits as nat, N as nat));
    }
    input
}

/// The number the first `input_bits` entries spell, most significant first.
pub fn input_index_of<const N: usize>(input: &[u8; N], input_bits: usize) -> (result: usize)
    requires
        input_bits <= N,
    ensures
        result == address_of(input@, input_bits as nat),
{
    let mut value: usize = 0;
    let mut index: usize = 0;
    while index < input_bits
        invariant
            index <= input_bits,
            input_bits <= N,
            value == address_of(input@, index as nat),
        decreases input_bits - index,
    {
        value = (value << 1) | input[index] as usize;
        index += 1;
    }
    value
}

/// Reading the decoded bits back gives the number that was decoded.
pub proof fn lemma_decode_then_index(value: usize, input_bits: nat, length: nat)
    requires
        input_bits <= length,
        input_bits < usize::BITS,
        value < pow2(input_bits),
    ensures
        all_bits(decoded(value, input_bits, length), input_bits),
        address_of(decoded(value, input_bits, length), input_bits) == value,
{
    let d = decoded(value, input_bits, length);
    assert forall|i: int| 0 <= i < input_bits implies #[trigger] d[i] <= 1 by {
        let j = (input_bits - 1 - i) as usize;
        assert(((value >> j) & 1usize) <= 1) by (bit_vector);
    }
    lemma_binary_prefix(value, input_bits, length, input_bits);
    vstd::bits::lemma_usize_shr_is_div(value, 0);
    vstd::arithmetic::power2::lemma2_to64();
    lemma_address_is_binary_value(d, input_bits);
}

/// The first `m` decoded bits spell `value` shifted right past the others.
pub proof fn lemma_binary_prefix(value: usize, input_bits: nat, length: nat, m: nat)
    requires
        input_bits <= length,
        input_bits < usize::BITS,
        value < pow2(input_bits),
        m <= input_bits,
    ensures
        binary_value(decoded(value, input_bits, length), m) == (value >> ((input_bits - m) as usize)),
    decreases m,
{
    let d = decoded(value, input_bits, length);
    if m == 0 {
        vstd::bits::lemma_usize_shr_is_div(value, input_bits as usize);
        vstd::arithmetic::div_mod::lemma_basic_div(value as int, pow2(input_bits) as int);
    } else {
        lemma_binary_prefix(value, input_bits, length, (m - 1) as nat);
        let s = (input_bits - m) as usize;
        assert(d[m - 1] == bit_of(value, s));
        assert(s < usize::BITS - 1);
        assert(((value >> s) & 1usize) <= 1) by (bit_vector);
        assert(d[m - 1] as nat == ((value >> s) & 1usize));
        assert(binary_value(d, m) == 2 * binary_value(d, (m - 1) as nat) + d[m - 1] as nat);
        assert(((input_bits - (m - 1) as nat) as usize) == (s + 1) as usize);
        assert(2 * (value >> ((s + 1) as usize)) + ((value >> s) & 1usize) == (value >> s)) by (bit_vector)
            requires
                s < usize::BITS - 1,
        ;
    }
}

/// The perception a multiplexer shows for `input`: its bits as tokens and a
/// clear validation bit last.
pub open spec fn mpx_state(input: Seq<u8>, length: nat) -> Seq<Symbol> {
    Seq::new(
        length,
        |i: int| if i < length - 1 { Symbol::Token((DIGIT_ZERO + input[i]) as u8) } else { Symbol::Token(DIGIT_ZERO) },
    )
}

/// The perception after answering: the validation bit is set exactly when
/// the answer was right.
pub open spec fn mpx_outcome(input: Seq<u8>, length: nat, correct: bool) -> Seq<Symbol> {
    if correct {
        mpx_state(input, length).update(length - 1, Symbol::Token((DIGIT_ZERO + 1) as u8))
    } else {
        mpx_state(input, length)
    }
}

/// Whether a transition's answer was right: its validation bit is set
/// after the answer.
pub fn transition_is_correct<const N: usize>(transition: &Transition<N>) -> (result: bool)
    requires
        N >= 1,
    ensures
        result == (transition.p1.symbols@[N - 1] == Symbol::Token((DIGIT_ZERO + 1) as u8)),
{
    match transition.p1.symbols[N - 1] {
        Symbol::Token(value) => value == DIGIT_ZERO + 1,
        Symbol::Wildcard => false,
    }
}

/// The validation bit after an answer tells whether the answer was right.
pub proof fn lemma_outcome_shows_correctness(input: Seq<u8>, length: nat, correct: bool)
    requires
        length >= 1,
    ensures
        (mpx_outcome(input, length, correct)[length - 1] == Symbol::Token((DIGIT_ZERO + 1) as u8)) == correct,
{
}

/// The transition of answering `action` to `input`.
pub fn make_transition<const N: usize>(input: &[u8; N], action: usize, correct_answer: usize) -> (result: Transition<N>)
    requires
        N >= 1,
        forall|i: int| 0 <= i < N - 1 ==> #[trigger] input@[i] <= 255 - DIGIT_ZERO,
    ensures
        result.p0.symbols@ == mpx_state(input@, N as nat),
        result.action == action,
        result.p1.symbols@ == mpx_outcome(input@, N as nat, action == correct_answer),
{
    let mut p0 = [Symbol::Token(DIGIT_ZERO);N];
    let mut index: usize = 0;
    while index < N - 1
        invariant
            N >= 1,
            index <= N - 1,
            forall|i: int| 0 <= i < N - 1 ==> #[trigger] input@[i] <= 255 - DIGIT_ZERO,
            forall|i: int| 0 <= i < index ==> #[trigger] p0@[i] == mpx_state(input@, N as nat)[i],
            forall|i: int| index <= i < N ==> #[trigger] p0@[i] == Symbol::Token(DIGIT_ZERO),
        decreases N - 1 - index,
    {
        p0[index] = Symbol::Token(DIGIT_ZERO + input[index]);
        index += 1;
    }
    p0[N - 1] = Symbol::Token(DIGIT_ZERO);
    proof {
        assert(p0@ =~= mpx_state(input@, N as nat));
    }
    let mut p1 = p0;
    if action == correct_answer {
        p1[N - 1] = Symbol::Token(DIGIT_ZERO + 1);
    }
    proof {
        assert(p1@ =~= mpx_outcome(input@, N as nat, action == correct_answer));
    }
    Transition::new(Perception::new(p0), action, Perception::new(p1))
}


/// The number of address bits of the multiplexer of length `n`.
pub open spec fn control_bits_of(n: nat) -> nat {
    choose|k: nat| mpx_length(k) == n
}

/// Only one number of address bits gives a length.
pub proof fn lemma_control_bits_unique(k: nat, n: nat)
    requires
        mpx_length(k) == n,
    ensures
        control_bits_of(n) == k,
{
    let j = control_bits_of(n);
    assert(mpx_length(j) == n);
    if j < k {
        lemma_mpx_length_strictly_increases(j, k);
    }
    if k < j {
        lemma_mpx_length_strictly_increases(k, j);
    }
}

/// `t` is the transition of the multiplexer of length `N` on `input`: the
/// validation bit is set afterwards exactly when the action is the answer.
pub open spec fn is_mpx_transition<const N: usize>(t: Transition<N>, input: Seq<u8>) -> bool {
    &&& t.p0.symbols@ == mpx_state(input, N as nat)
    &&& t.p1.symbols@ == mpx_outcome(input, N as nat, t.action == correct_answer_of(input, control_bits_of(N as nat)))
}

/// On bits, the address of `k` address bits is below `2^k`.
proof fn lemma_address_in_range(bits: Seq<u8>, k: nat)
    requires
        k <= bits.len(),
        all_bits(bits, k),
        k < usize::BITS,
    ensures
        address_of(bits, k) < pow2(k),
{
    lemma_binary_value_bounded(bits, k);
    lemma_usize_pow2_no_overflow(k);
    lemma_address_is_binary_value(bits, k);
}

/// The multiplexer transition for input number `value` and `action`.
fn transition_for_input<const N: usize>(input: &[u8; N], control_bits: usize, action: usize) -> (result: Transition<N>)
    requires
        N >= 1,
        mpx_length(control_bits as nat) == N,
        control_bits < usize::BITS,
        all_bits(input@, (N - 1) as nat),
    ensures
        result.action == action,
        is_mpx_transition(result, input@),
{
    proof {
        lemma_control_bits_unique(control_bits as nat, N as nat);
        lemma_address_in_range(input@, control_bits as nat);
    }
    let correct_answer = get_correct_answer(input.as_slice(), control_bits);
    make_transition(input, action, correct_answer)
}

/// The transition of answering `action` to the input whose bits spell
/// `value`.
pub fn exhaustive_transition<const N: usize>(value: usize, action: usize) -> (result: Transition<N>)
    requires
        is_mpx_length(N as nat),
        N - 1 < usize::BITS,
    ensures
        result.action == action,
        is_mpx_transition(result, decoded(value, (N - 1) as nat, N as nat)),
{
    let control_bits = control_bits_for(N);
    proof {
        lemma_pow2_exceeds(control_bits as nat);
    }
    let input = decode_input::<N>(value, N - 1);
    proof {
        let d = decoded(value, (N - 1) as nat, N as nat);
        assert forall|i: int| 0 <= i < N - 1 implies #[trigger] input@[i] <= 1 by {
            let j = (N - 1 - 1 - i) as usize;
            assert(((value >> j) & 1usize) <= 1) by (bit_vector);
        }
    }
    transition_for_input(&input, control_bits, action)
}

/// `2^n` exceeds `n`.
proof fn lemma_pow2_exceeds(n: nat)
    ensures
        pow2(n) > n,
    decreases n,
{
    vstd::arithmetic::power2::lemma2_to64();
    if n > 0 {
        lemma_pow2_exceeds((n - 1) as nat);
        lemma_pow2_unfold(n);
    }
}

/// Every transition of the multiplexer of length `N`: for each input
/// number in increasing order, the transition of action 0 then of action 1.
pub fn exhaustive_transitions<const N: usize>() -> (result: Vec<Transition<N>>)
    requires
        is_mpx_length(N as nat),
        N < usize::BITS,
    ensures
        result@.len() == 2 * pow2((N - 1) as nat),
        forall|value: int, action: int|
            0 <= value < pow2((N - 1) as nat) && 0 <= action < 2 ==> (#[trigger] result@[2 * value + action]).action
                == action && is_mpx_transition(
                result@[2 * value + action],
                decoded(value as usize, (N - 1) as nat, N as nat),
            ),
{
    let input_bits = N - 1;
    proof {
        lemma_usize_pow2_no_overflow(input_bits as nat);
        lemma_usize_shl_is_mul(1, input_bits);
        vstd::arithmetic::power2::lemma2_to64();
        vstd::arithmetic::power2::lemma_pow2_unfold(N as nat);
        lemma_usize_pow2_no_overflow((N - 1) as nat);
        if N < usize::BITS {
            lemma_usize_pow2_no_overflow(N as nat);
        }
    }
    let total_inputs = 1usize << input_bits;
    let mut transitions: Vec<Transition<N>> = Vec::new();
    let mut value: usize = 0;
    while value < total_inputs
        invariant
            is_mpx_length(N as nat),
            N < usize::BITS,
            input_bits == N - 1,
            total_inputs == pow2(input_bits as nat),
            2 * pow2(input_bits as nat) <= usize::MAX,
            value <= total_inputs,
            transitions@.len() == 2 * value,
            forall|v: int, a: int|
                0 <= v < value && 0 <= a < 2 ==> (#[trigger] transitions@[2 * v + a]).action == a && is_mpx_transition(
                    transitions@[2 * v + a],
                    decoded(v as usize, (N - 1) as nat, N as nat),
                ),
        decreases total_inputs - value,
    {
        let first = exhaustive_transition::<N>(value, 0);
        let second = exhaustive_transition::<N>(value, 1);
        transitions.push(first);
        transitions.push(second);
        proof {
            assert(transitions@[2 * value as int] == first);
            assert(transitions@[2 * value as int + 1] == second);
        }
        value += 1;
    }
    transitions
}

/// `first` answers 0 and `second` answers 1 to one and the same input of
/// bits.
pub open spec fn is_mpx_pair<const N: usize>(first: Transition<N>, second: Transition<N>) -> bool {
    &&& first.action == 0
    &&& second.action == 1
    &&& exists|input: Seq<u8>|
        #![trigger is_mpx_transition(first, input)]
        all_bits(input, (N - 1) as nat) && is_mpx_transition(first, input) && is_mpx_transition(second, input)
}

/// The first `count` random bits of the generator seeded with `seed`.
pub open spec fn seeded_bits(seed: u64, count: nat) -> Seq<usize> {
    draws_from(seeded_start(seed), repeated_bound(2, count))
}

/// The input of sample `sample` on a multiplexer of length `n`: the
/// sample's `n - 1` bits of `bits`, taken `n - 1` to a sample in order, and
/// a 0 in the validation position.
pub open spec fn sampled_input(bits: Seq<usize>, sample: int, n: nat) -> Seq<u8> {
    Seq::new(n, |i: int| if i < n - 1 { bits[sample * (n - 1) + i] as u8 } else { 0u8 })
}

/// `sample_inputs` random inputs drawn from a generator seeded with `seed`,
/// and for each the transitions of action 0 and of action 1. The inputs are
/// the generator's bits in order, `N - 1` to an input, so equal
/// `sample_inputs` and `seed` give equal transitions.
#[verifier::spinoff_prover]
pub fn sampled_transitions<const N: usize>(sample_inputs: usize, seed: u64) -> (result: Vec<Transition<N>>)
    requires
        is_mpx_length(N as nat),
        2 * sample_inputs <= usize::MAX,
    ensures
        result@.len() == 2 * sample_inputs,
        forall|s: int| 0 <= s < sample_inputs ==> #[trigger] is_mpx_pair(result@[2 * s], result@[2 * s + 1]),
        forall|s: int|
            0 <= s < sample_inputs ==> is_mpx_transition(
                #[trigger] result@[2 * s],
                sampled_input(seeded_bits(seed, (sample_inputs * (N - 1)) as nat), s, N as nat),
            ) && is_mpx_transition(
                result@[2 * s + 1],
                sampled_input(seeded_bits(seed, (sample_inputs * (N - 1)) as nat), s, N as nat),
            ),
{
    let control_bits = control_bits_for(N);
    let input_bits = N - 1;
    let mut rng = ChaChaRandomSource::from_seed(seed);
    let ghost start = rng.position().at();
    let ghost mut drawn_bits: Seq<usize> = Seq::empty();
    let mut transitions: Vec<Transition<N>> = Vec::new();
    let mut sample: usize = 0;
    proof {
        assert(repeated_bound(2, 0) =~= Seq::<usize>::empty());
        lemma_pow2_pos(control_bits as nat);
    }
    while sample < sample_inputs
        invariant
            is_mpx_length(N as nat),
            mpx_length(control_bits as nat) == N,
            control_bits < usize::BITS,
            input_bits == N - 1,
            input_bits >= 1,
            start == seeded_start(seed),
            2 * sample_inputs <= usize::MAX,
            sample <= sample_inputs,
            drawn_bits == draws_from(start, repeated_bound(2, (sample * input_bits) as nat)),
            drawn_bits.len() == sample * input_bits,
            rng.position().at() == position_after(start, repeated_bound(2, (sample * input_bits) as nat)),
            transitions@.len() == 2 * sample,
            forall|s: int| 0 <= s < sample ==> #[trigger] is_mpx_pair(transitions@[2 * s], transitions@[2 * s + 1]),
            forall|s: int|
                0 <= s < sample ==> is_mpx_transition(#[trigger] transitions@[2 * s], sampled_input(drawn_bits, s, N as nat))
                    && is_mpx_transition(transitions@[2 * s + 1], sampled_input(drawn_bits, s, N as nat)),
        decreases sample_inputs - sample,
    {
        let ghost done: nat = (sample * input_bits) as nat;
        let bits = rng.draw_many(2, input_bits);
        let ghost next_bits = drawn_bits + bits@;
        proof {
            lemma_draws_concat(start, repeated_bound(2, done), repeated_bound(2, input_bits as nat));
            assert(repeated_bound(2, done) + repeated_bound(2, input_bits as nat) =~= repeated_bound(
                2,
                (done + input_bits) as nat,
            ));
            assert(done + input_bits == (sample + 1) * input_bits) by (nonlinear_arith)
                requires
                    done == sample * input_bits,
            ;
        }
        let mut input = [0u8;N];
        let mut index: usize = 0;
        while index < input_bits
            invariant
                input_bits == N - 1,
                index <= input_bits,
                bits@.len() == input_bits,
                forall|i: int| 0 <= i < input_bits ==> #[trigger] bits@[i] < 2,
                forall|i: int| 0 <= i < index ==> #[trigger] input@[i] == bits@[i] as u8,
                forall|i: int| index <= i < N ==> #[trigger] input@[i] == 0u8,
            decreases input_bits - index,
        {
            input[index] = bits[index] as u8;
            index += 1;
        }
        proof {
            assert forall|i: int| 0 <= i < N implies #[trigger] input@[i] == sampled_input(next_bits, sample as int, N as nat)[i] by {
                if i < N - 1 {
                    assert(next_bits[sample * input_bits + i] == bits@[i]);
                }
            }
            assert(input@ =~= sampled_input(next_bits, sample as int, N as nat));
            assert forall|s: int| 0 <= s < sample implies #[trigger] sampled_input(drawn_bits, s, N as nat) == sampled_input(next_bits, s, N as nat) by {
                assert forall|i: int| 0 <= i < N implies #[trigger] sampled_input(drawn_bits, s, N as nat)[i]
                    == sampled_input(next_bits, s, N as nat)[i] by {
                    if i < N - 1 {
                        assert(s * input_bits + i < (s + 1) * input_bits) by (nonlinear_arith)
                            requires
                                i < input_bits,
                        ;
                        assert((s + 1) * input_bits <= sample * input_bits) by (nonlinear_arith)
                            requires
                                s + 1 <= sample,
                                input_bits >= 1,
                        ;
                        assert(0 <= s * input_bits) by (nonlinear_arith)
                            requires
                                0 <= s,
                                input_bits >= 1,
                        ;
                        assert(next_bits[s * input_bits + i] == drawn_bits[s * input_bits + i]);
                    }
                }
                assert(sampled_input(drawn_bits, s, N as nat) =~= sampled_input(next_bits, s, N as nat));
            }
        }
        let first = transition_for_input(&input, control_bits, 0);
        let second = transition_for_input(&input, control_bits, 1);
        let ghost before = transitions@;
        transitions.push(first);
        transitions.push(second);
        proof {
            assert(transitions@[2 * sample as int] == first);
            assert(transitions@[2 * sample as int + 1] == second);
            assert(all_bits(input@, (N - 1) as nat));
            assert forall|s: int| 0 <= s < sample + 1 implies #[trigger] is_mpx_pair(transitions@[2 * s], transitions@[2 * s + 1]) by {
                if s < sample {
                    assert(transitions@[2 * s] == before[2 * s]);
                    assert(transitions@[2 * s + 1] == before[2 * s + 1]);
                } else {
                    assert(is_mpx_transition(first, input@));
                }
            }
            assert forall|s: int| 0 <= s < sample + 1 implies is_mpx_transition(#[trigger] transitions@[2 * s], sampled_input(next_bits, s, N as nat))
                && is_mpx_transition(transitions@[2 * s + 1], sampled_input(next_bits, s, N as nat)) by {
                if s < sample {
                    assert(transitions@[2 * s] == before[2 * s]);
                    assert(transitions@[2 * s + 1] == before[2 * s + 1]);
                    assert(sampled_input(drawn_bits, s, N as nat) == sampled_input(next_bits, s, N as nat));
                } else {
                    assert(is_mpx_transition(first, input@));
                    assert(is_mpx_transition(second, input@));
                }
            }
            drawn_bits = next_bits;
            assert(forall|s: int|
                0 <= s < sample + 1 ==> is_mpx_transition(#[trigger] transitions@[2 * s], sampled_input(drawn_bits, s, N as nat))
                    && is_mpx_transition(transitions@[2 * s + 1], sampled_input(drawn_bits, s, N as nat)));
        }
        sample += 1;
    }
    transitions
}


/// A symbol that shows a bit: the token `'0'` or the token `'1'`.
pub open spec fn is_bit_token(symbol: Symbol) -> bool {
    symbol == Symbol::Token(DIGIT_ZERO) || symbol == Symbol::Token((DIGIT_ZERO + 1) as u8)
}

/// The bits a perception of bit tokens shows, position by position.
pub open spec fn bits_shown(symbols: Seq<Symbol>) -> Seq<u8> {
    Seq::new(
        symbols.len(),
        |i: int|
            match symbols[i] {
                Symbol::Token(value) => (value - DIGIT_ZERO) as u8,
                Symbol::Wildcard => 0u8,
            },
    )
}

/// What a multiplexer shows after an answer: the new observation, whether
/// the answer was right, and that the episode ends with it.
#[derive(Clone, Copy, PartialEq, Eq, Debug)]
pub struct MultiplexerStep<const N: usize> {
    pub observation: Perception<N>,
    pub correct: bool,
    pub terminated: bool,
    pub truncated: bool,
}

/// The Boolean multiplexer: `N - 1` random input bits, the first
/// `control_bits` of which address one of the others, and a validation bit
/// that an answer sets when it names the addressed bit.
pub struct Multiplexer<const N: usize, R> {
    perception: BitTokens<N>,
    rng: R,
}

/// Symbols that are all bit tokens.
struct BitTokens<const N: usize> {
    symbols: [Symbol; N],
}

impl<const N: usize> BitTokens<N> {
    #[verifier::type_invariant]
    spec fn shows_bits(self) -> bool {
        forall|i: int| 0 <= i < N ==> is_bit_token(#[trigger] self.symbols@[i])
    }
}

impl<const N: usize, R> Multiplexer<N, R> {
    /// What the environment currently shows.
    pub closed spec fn observation(self) -> Seq<Symbol> {
        self.perception.symbols@
    }

    /// The source the inputs are drawn from.
    pub closed spec fn source(self) -> R {
        self.rng
    }

    /// The source the inputs are drawn from.
    pub fn rng(&self) -> (result: &R)
        ensures
            *result == self.source(),
    {
        &self.rng
    }

    /// The source the inputs are drawn from, to be changed in place; what
    /// the environment shows stays as it is.
    pub fn rng_mut(&mut self) -> (result: &mut R)
        ensures
            *result == old(self).source(),
            final(self).source() == *final(result),
            final(self).observation() == old(self).observation(),
    {
        &mut self.rng
    }
}

impl<const N: usize, R: RandomSource> Multiplexer<N, R> {

    /// The answer the current observation asks for.
    pub open spec fn expected_answer(self) -> usize {
        correct_answer_of(bits_shown(self.observation()), control_bits_of(N as nat))
    }

    /// A multiplexer showing all zeros, drawing its inputs from `rng`.
    pub fn new(rng: R) -> (result: Self)
        requires
            is_mpx_length(N as nat),
        ensures
            result.observation() == Seq::new(N as nat, |i: int| Symbol::Token(DIGIT_ZERO)),
    {
        let result = Self { perception: BitTokens { symbols: [Symbol::Token(DIGIT_ZERO);N] }, rng };
        proof {
            assert(result.perception.symbols@ =~= Seq::new(N as nat, |i: int| Symbol::Token(DIGIT_ZERO)));
        }
        result
    }

    /// The number of address bits.
    pub fn control_bits() -> (result: usize)
        requires
            is_mpx_length(N as nat),
        ensures
            mpx_length(result as nat) == N,
            result == control_bits_of(N as nat),
            result < usize::BITS,
    {
        let result = control_bits_for(N);
        proof {
            lemma_control_bits_unique(result as nat, N as nat);
        }
        result
    }

    /// The number of input bits: all but the validation bit.
    pub fn input_bits() -> (result: usize)
        requires
            N >= 1,
        ensures
            result == N - 1,
    {
        N - 1
    }

    /// The number of answers: 0 and 1.
    pub fn number_of_possible_actions() -> (result: usize)
        ensures
            result == NUMBER_OF_POSSIBLE_ACTIONS,
    {
        NUMBER_OF_POSSIBLE_ACTIONS
    }

    /// Draws new input bits and clears the validation bit: one draw below 2
    /// for each input bit, in order.
    pub fn reset(&mut self) -> (result: Perception<N>)
        requires
            is_mpx_length(N as nat),
        ensures
            result.symbols@ == final(self).observation(),
            exists|input: Seq<u8>|
                #![trigger mpx_state(input, N as nat)]
                all_bits(input, (N - 1) as nat) && final(self).observation() == mpx_state(input, N as nat),
            ({
                let before = old(self).source().drawn();
                let drawn = final(self).source().drawn();
                &&& drawn.len() == before.len() + (N - 1)
                &&& drawn.take(before.len() as int) == before
                &&& forall|k: int| 0 <= k < N - 1 ==> (#[trigger] drawn[before.len() + k]).0 == 2
                &&& final(self).observation() == mpx_state(
                    Seq::new(N as nat, |i: int| if i < N - 1 { drawn[before.len() + i].1 as u8 } else { 0u8 }),
                    N as nat,
                )
            }),
    {
        let ghost before = self.rng.drawn();
        let mut perception = [Symbol::Token(DIGIT_ZERO);N];
        let mut input = [0u8;N];
        let mut index: usize = 0;
        while index < N - 1
            invariant
                N >= 1,
                index <= N - 1,
                forall|i: int| 0 <= i < N ==> #[trigger] input@[i] <= 1,
                forall|i: int| 0 <= i < index ==> #[trigger] perception@[i] == mpx_state(input@, N as nat)[i],
                forall|i: int| index <= i < N ==> #[trigger] perception@[i] == Symbol::Token(DIGIT_ZERO),
                forall|i: int| index <= i < N ==> #[trigger] input@[i] == 0u8,
                self.rng.drawn().len() == before.len() + index,
                self.rng.drawn().take(before.len() as int) == before,
                forall|k: int| 0 <= k < index ==> (#[trigger] self.rng.drawn()[before.len() + k]).0 == 2
                    && input@[k] == self.rng.drawn()[before.len() + k].1 as u8,
            decreases N - 1 - index,
        {
            let ghost drawn_before = self.rng.drawn();
            let bit = self.rng.gen_range(2) as u8;
            input[index] = bit;
            perception[index] = Symbol::Token(DIGIT_ZERO + bit);
            proof {
                assert(self.rng.drawn().take(before.len() as int) =~= drawn_before.take(before.len() as int));
                assert forall|k: int| 0 <= k < index + 1 implies (#[trigger] self.rng.drawn()[before.len() + k]).0 == 2
                    && input@[k] == self.rng.drawn()[before.len() + k].1 as u8 by {
                    if k < index {
                        assert(self.rng.drawn()[before.len() + k] == drawn_before[before.len() + k]);
                    }
                }
            }
            index += 1;
        }
        proof {
            assert(perception@ =~= mpx_state(input@, N as nat));
            assert(all_bits(input@, (N - 1) as nat));
            assert forall|i: int| 0 <= i < N implies is_bit_token(#[trigger] perception@[i]) by {
                assert(input@[i] <= 1);
            }
            let drawn = self.rng.drawn();
            assert(input@ =~= Seq::new(N as nat, |i: int| if i < N - 1 { drawn[before.len() + i].1 as u8 } else { 0u8 }));
        }
        self.perception = BitTokens { symbols: perception };
        proof {
            assert(self.observation() == mpx_state(input@, N as nat));
        }
        Perception::new(perception)
    }

    fn bit_at(&self, index: usize) -> (result: u8)
        requires
            index < N,
        ensures
            result == bits_shown(self.observation())[index as int],
            result <= 1,
    {
        proof {
            use_type_invariant(&self.perception);
        }
        match self.perception.symbols[index] {
            Symbol::Token(value) => value - DIGIT_ZERO,
            Symbol::Wildcard => 0,
        }
    }

    /// The input bit that the address bits point at.
    pub fn correct_answer(&self) -> (result: usize)
        requires
            is_mpx_length(N as nat),
        ensures
            result == self.expected_answer(),
    {
        let control_bits = Self::control_bits();
        let mut input = [0u8;N];
        let mut index: usize = 0;
        while index < N
            invariant
                index <= N,
                forall|i: int| 0 <= i < index ==> #[trigger] input@[i] == bits_shown(self.observation())[i],
                forall|i: int| 0 <= i < index ==> #[trigger] input@[i] <= 1,
            decreases N - index,
        {
            input[index] = self.bit_at(index);
            index += 1;
        }
        proof {
            assert(input@ =~= bits_shown(self.observation()));
            lemma_address_in_range(input@, control_bits as nat);
            lemma_pow2_exceeds(control_bits as nat);
        }
        get_correct_answer(input.as_slice(), control_bits)
    }

    /// Answers with `action`: the validation bit is set when the action is
    /// the addressed bit, and the episode ends.
    pub fn step(&mut self, action: usize) -> (result: MultiplexerStep<N>)
        requires
            is_mpx_length(N as nat),
        ensures
            result.correct == (action == old(self).expected_answer()),
            final(self).observation() == (if result.correct {
                old(self).observation().update(N - 1, Symbol::Token((DIGIT_ZERO + 1) as u8))
            } else {
                old(self).observation()
            }),
            result.observation.symbols@ == final(self).observation(),
            result.terminated,
            !result.truncated,
    {
        let correct = action == self.correct_answer();
        if correct {
            let mut perception = self.perception.symbols;
            perception[N - 1] = Symbol::Token(DIGIT_ZERO + 1);
            proof {
                use_type_invariant(&self.perception);
                assert forall|i: int| 0 <= i < N implies is_bit_token(#[trigger] perception@[i]) by {
                    if i != N - 1 {
                        assert(perception@[i] == self.perception.symbols@[i]);
                    }
                }
            }
            self.perception = BitTokens { symbols: perception };
        }
        MultiplexerStep {
            observation: Perception::new(self.perception.symbols),
            correct,
            terminated: true,
            truncated: false,
        }
    }
}

} // verus!
