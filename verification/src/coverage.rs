use vstd::prelude::*;

use crate::classifier::Classifier;
use crate::condition::{all_compatible, compatible};
use crate::effect::{anticipates_all, anticipates_item};
use crate::knowledge::{count_covered, covered, predicts, Transition};
use crate::multiplexer::{
    address_of, all_bits, binary_value, bit_of, control_bits_of, correct_answer_of, decoded,
    get_correct_answer, input_index_of, is_bit_token, is_mpx_length, is_mpx_transition, mpx_length,
    mpx_outcome, mpx_state, lemma_address_is_binary_value, lemma_binary_value_bounded,
    lemma_control_bits_unique, lemma_decode_then_index, control_bits_for, DIGIT_ZERO,
};
use crate::population::{ClassifierRef, Population};
use crate::symbol::Symbol;

use vstd::arithmetic::power2::{lemma2_to64, lemma_pow2_unfold, pow2};
use vstd::bits::{lemma_usize_pow2_no_overflow, lemma_usize_shl_is_mul};

verus! {

broadcast use vstd::array::group_array_axioms;

/// The input of the multiplexer of length `N` whose bits spell `value`.
pub open spec fn mpx_input<const N: usize>(value: int) -> Seq<u8> {
    decoded(value as usize, (N - 1) as nat, N as nat)
}

/// The classifier anticipates what answering `action` to `input` does: it
/// advocates the action, matches the perception and foresees the outcome.
pub open spec fn predicts_input<const N: usize, Q>(
    classifier: Classifier<N, Q>,
    input: Seq<u8>,
    action: usize,
) -> bool {
    let p0 = mpx_state(input, N as nat);
    let p1 = mpx_outcome(input, N as nat, action == correct_answer_of(input, control_bits_of(N as nat)));
    &&& classifier.action == Some(action)
    &&& all_compatible(classifier.condition.symbols@, p0)
    &&& anticipates_all(classifier.effect.symbols@, p0, p1)
}

/// A classifier of the multiplexer: its action, if any, is an answer, and
/// its condition asks for bits only.
pub open spec fn reads_as_mpx<const N: usize, Q>(classifier: Classifier<N, Q>) -> bool {
    &&& (classifier.action matches Some(a) ==> a < 2)
    &&& forall|i: int|
        0 <= i < N - 1 ==> (#[trigger] classifier.condition.symbols@[i] is Wildcard || is_bit_token(
            classifier.condition.symbols@[i],
        ))
}

/// Cell `cell` stands for answering `cell % 2` to input number `cell / 2`.
pub open spec fn cell_predicted<const N: usize, Q>(classifier: Classifier<N, Q>, cell: int) -> bool {
    predicts_input(classifier, mpx_input::<N>(cell / 2), (cell % 2) as usize)
}

/// Some classifier among `chosen` anticipates the answer of cell `cell`.
pub open spec fn cell_covered<const N: usize, Q>(
    items: Seq<Classifier<N, Q>>,
    chosen: Seq<ClassifierRef>,
    cell: int,
) -> bool {
    exists|k: int| 0 <= k < chosen.len() && cell_predicted(items[#[trigger] chosen[k] as int], cell)
}

/// How many of the first `n` cells are covered.
pub open spec fn count_cells<const N: usize, Q>(
    items: Seq<Classifier<N, Q>>,
    chosen: Seq<ClassifierRef>,
    n: nat,
) -> nat
    decreases n,
{
    if n == 0 {
        0
    } else {
        count_cells(items, chosen, (n - 1) as nat) + if cell_covered(items, chosen, n - 1) {
            1nat
        } else {
            0nat
        }
    }
}

/// The bits of `input` at the free positions, the last free position first.
pub open spec fn free_bits(input: Seq<u8>, free: Seq<usize>) -> Seq<u8> {
    Seq::new(free.len(), |j: int| input[free[free.len() - 1 - j] as int])
}

/// The number that the free bits of `input` spell, the first free
/// position being the least significant.
pub open spec fn code_of(input: Seq<u8>, free: Seq<usize>) -> nat {
    binary_value(free_bits(input, free), free.len())
}

/// The tokens of the condition among the first `n` positions name the bits
/// of `input` there.
pub open spec fn fixed_agree(condition: Seq<Symbol>, input: Seq<u8>, n: nat) -> bool {
    forall|i: int|
        0 <= i < n ==> (#[trigger] condition[i] is Wildcard || condition[i] == Symbol::Token(
            (DIGIT_ZERO + input[i]) as u8,
        ))
}

/// Two inputs with the same first `n` bits.
pub open spec fn agree_on(x: Seq<u8>, y: Seq<u8>, n: nat) -> bool {
    forall|i: int| 0 <= i < n ==> #[trigger] x[i] == y[i]
}

/// Bit `n - 1 - i` of the number `n` bits spell is the `i`-th of them.
proof fn lemma_bits_of_binary_value(bits: Seq<u8>, n: nat)
    requires
        n <= bits.len(),
        all_bits(bits, n),
        n < usize::BITS,
    ensures
        binary_value(bits, n) < pow2(n),
        forall|i: int|
            0 <= i < n ==> bit_of(binary_value(bits, n) as usize, (n - 1 - i) as usize) == #[trigger] bits[i],
    decreases n,
{
    lemma_binary_value_bounded(bits, n);
    lemma_usize_pow2_no_overflow(n);
    if n > 0 {
        let m = (n - 1) as nat;
        lemma_bits_of_binary_value(bits, m);
        lemma_binary_value_bounded(bits, m);
        let w = binary_value(bits, m) as usize;
        let b = bits[m as int];
        assert(b <= 1);
        let v = binary_value(bits, n) as usize;
        assert(v == 2 * w + b);
        assert forall|i: int| 0 <= i < n implies bit_of(v, (n - 1 - i) as usize) == #[trigger] bits[i] by {
            if i == m {
                assert(((v >> 0usize) & 1usize) == b as usize) by (bit_vector)
                    requires
                        v == 2 * w + b,
                        b <= 1,
                ;
            } else {
                let j = (m - 1 - i) as usize;
                assert(bit_of(w, j) == bits[i]);
                assert((v >> ((j + 1) as usize)) == (w >> j)) by (bit_vector)
                    requires
                        v == 2 * w + b,
                        b <= 1,
                        j + 1 < usize::BITS,
                ;
                assert((n - 1 - i) as usize == (j + 1) as usize);
            }
        }
    }
}

/// The address of `n` bits depends on those bits only.
proof fn lemma_address_prefix(x: Seq<u8>, y: Seq<u8>, n: nat)
    requires
        agree_on(x, y, n),
    ensures
        address_of(x, n) == address_of(y, n),
    decreases n,
{
    if n > 0 {
        lemma_address_prefix(x, y, (n - 1) as nat);
        assert(x[n - 1] == y[n - 1]);
    }
}

/// The input whose number is that of the first `N - 1` bits of `input`
/// has those same bits.
proof fn lemma_input_of_index<const N: usize>(input: Seq<u8>)
    requires
        N >= 1,
        N - 1 <= input.len(),
        all_bits(input, (N - 1) as nat),
        N - 1 < usize::BITS,
    ensures
        address_of(input, (N - 1) as nat) < pow2((N - 1) as nat),
        agree_on(mpx_input::<N>(address_of(input, (N - 1) as nat) as int), input, (N - 1) as nat),
{
    let n = (N - 1) as nat;
    lemma_bits_of_binary_value(input, n);
    lemma_usize_pow2_no_overflow(n);
    lemma_address_is_binary_value(input, n);
}

/// An input number's bits are bits.
proof fn lemma_input_is_bits<const N: usize>(value: int)
    requires
        N >= 1,
        0 <= value < pow2((N - 1) as nat),
        N - 1 < usize::BITS,
    ensures
        all_bits(mpx_input::<N>(value), (N - 1) as nat),
        mpx_input::<N>(value).len() == N,
        address_of(mpx_input::<N>(value), (N - 1) as nat) == value,
{
    lemma_usize_pow2_no_overflow((N - 1) as nat);
    lemma_decode_then_index(value as usize, (N - 1) as nat, N as nat);
}

/// Two inputs with the same bits before the validation bit are answered
/// and anticipated alike.
proof fn lemma_same_prediction<const N: usize, Q>(classifier: Classifier<N, Q>, x: Seq<u8>, y: Seq<u8>, action: usize)
    requires
        is_mpx_length(N as nat),
        N >= 1,
        N - 1 <= x.len(),
        N - 1 <= y.len(),
        all_bits(x, (N - 1) as nat),
        agree_on(x, y, (N - 1) as nat),
    ensures
        predicts_input(classifier, x, action) == predicts_input(classifier, y, action),
{
    let k = control_bits_of(N as nat);
    assert(mpx_length(k) == N);
    lemma_usize_pow2_no_overflow_from_length(k);
    assert(agree_on(x, y, k));
    lemma_address_prefix(x, y, k);
    lemma_binary_value_bounded(x, k);
    lemma_usize_pow2_no_overflow(k);
    lemma_address_is_binary_value(x, k);
    assert(correct_answer_of(x, k) == correct_answer_of(y, k));
    assert(mpx_state(x, N as nat) =~= mpx_state(y, N as nat));
}

/// The address bits of a multiplexer are fewer than the bits of a word.
proof fn lemma_usize_pow2_no_overflow_from_length(k: nat)
    requires
        mpx_length(k) <= usize::MAX,
    ensures
        k < usize::BITS,
{
    if k >= usize::BITS {
        lemma2_to64();
        if k > usize::BITS {
            vstd::arithmetic::power2::lemma_pow2_strictly_increases(usize::BITS as nat, k);
        }
    }
}

/// Once the action, the effect and the validation bit of the condition are
/// settled, a classifier anticipates an answer exactly when it matches the
/// input bits and the answer is right (when it foresees the bit set) or
/// wrong (when it foresees no change).
proof fn lemma_prediction_reduces<const N: usize, Q>(
    classifier: Classifier<N, Q>,
    input: Seq<u8>,
    a: usize,
    action: usize,
    flip: bool,
)
    requires
        N >= 1,
        all_bits(input, (N - 1) as nat),
        classifier.action == Some(action),
        compatible(classifier.condition.symbols@[N - 1], Symbol::Token(DIGIT_ZERO)),
        forall|i: int| 0 <= i < N - 1 ==> #[trigger] classifier.effect.symbols@[i] is Wildcard,
        flip ==> classifier.effect.symbols@[N - 1] == Symbol::Token((DIGIT_ZERO + 1) as u8),
        !flip ==> classifier.effect.symbols@[N - 1] is Wildcard,
    ensures
        predicts_input(classifier, input, a) == (a == action && fixed_agree(
            classifier.condition.symbols@,
            input,
            (N - 1) as nat,
        ) && (if flip {
            a == correct_answer_of(input, control_bits_of(N as nat))
        } else {
            a != correct_answer_of(input, control_bits_of(N as nat))
        })),
{
    let cond = classifier.condition.symbols@;
    let effect = classifier.effect.symbols@;
    let right = a == correct_answer_of(input, control_bits_of(N as nat));
    let p0 = mpx_state(input, N as nat);
    let p1 = mpx_outcome(input, N as nat, right);
    assert(all_compatible(cond, p0) == fixed_agree(cond, input, (N - 1) as nat)) by {
        if all_compatible(cond, p0) {
            assert forall|i: int| 0 <= i < N - 1 implies (#[trigger] cond[i] is Wildcard || cond[i]
                == Symbol::Token((DIGIT_ZERO + input[i]) as u8)) by {
                assert(compatible(cond[i], p0[i]));
            }
        }
        if fixed_agree(cond, input, (N - 1) as nat) {
            assert forall|i: int| 0 <= i < cond.len() implies #[trigger] compatible(cond[i], p0[i]) by {
                if i < N - 1 {
                    assert(cond[i] is Wildcard || cond[i] == Symbol::Token((DIGIT_ZERO + input[i]) as u8));
                }
            }
        }
    }
    assert(anticipates_all(effect, p0, p1) == (if flip { right } else { !right })) by {
        assert(anticipates_item(effect[N - 1], p0[N - 1], p1[N - 1]) == (if flip { right } else { !right }));
        if (if flip { right } else { !right }) {
            assert forall|i: int| 0 <= i < effect.len() implies #[trigger] anticipates_item(effect[i], p0[i], p1[i]) by {
                if i < N - 1 {
                    assert(effect[i] is Wildcard);
                    assert(p1[i] == p0[i]);
                }
            }
        }
    }
}

/// The free bits of an input built from `combination` spell it back.
proof fn lemma_code_of_combination(input: Seq<u8>, free: Seq<usize>, combination: usize)
    requires
        free.len() < usize::BITS,
        combination < pow2(free.len()),
        forall|b: int| 0 <= b < free.len() ==> #[trigger] input[free[b] as int] == bit_of(combination, b as usize),
    ensures
        code_of(input, free) == combination,
{
    let f = free.len();
    let bits = free_bits(input, free);
    assert(bits =~= decoded(combination, f, f)) by {
        assert forall|j: int| 0 <= j < f implies #[trigger] bits[j] == decoded(combination, f, f)[j] by {
            let b = f - 1 - j;
            assert(input[free[b] as int] == bit_of(combination, b as usize));
        }
    }
    crate::multiplexer::lemma_binary_prefix(combination, f, f, f);
    vstd::bits::lemma_usize_shr_is_div(combination, 0);
    lemma2_to64();
}

/// An input whose free bits spell `combination` holds its bits there.
proof fn lemma_combination_of_code(input: Seq<u8>, free: Seq<usize>, combination: usize)
    requires
        free.len() < usize::BITS,
        forall|b: int| 0 <= b < free.len() ==> #[trigger] input[free[b] as int] <= 1,
        code_of(input, free) == combination,
    ensures
        forall|b: int| 0 <= b < free.len() ==> #[trigger] input[free[b] as int] == bit_of(combination, b as usize),
{
    let f = free.len();
    let bits = free_bits(input, free);
    assert forall|j: int| 0 <= j < f implies #[trigger] bits[j] <= 1 by {
        assert(input[free[f - 1 - j] as int] <= 1);
    }
    lemma_bits_of_binary_value(bits, f);
    assert forall|b: int| 0 <= b < f implies #[trigger] input[free[b] as int] == bit_of(combination, b as usize) by {
        let j = f - 1 - b;
        assert(bits[j] == input[free[b] as int]);
    }
}


/// The positions of `free` increase, lie among the input bits, are
/// wildcards of the condition, and are all of its wildcards there.
pub open spec fn lists_free_positions(condition: Seq<Symbol>, free: Seq<usize>, n: nat) -> bool {
    &&& forall|b: int, c: int| 0 <= b < c < free.len() ==> #[trigger] free[b] < #[trigger] free[c]
    &&& forall|b: int| 0 <= b < free.len() ==> #[trigger] free[b] < n
    &&& forall|b: int| 0 <= b < free.len() ==> condition[#[trigger] free[b] as int] is Wildcard
    &&& forall|i: int|
        #![trigger condition[i]]
        0 <= i < n && condition[i] is Wildcard ==> exists|b: int| 0 <= b < free.len() && #[trigger] free[b] == i
}

/// The free bits of an input number spell a number below `2^f`.
proof fn lemma_code_bounded<const N: usize>(input: Seq<u8>, free: Seq<usize>)
    requires
        N >= 1,
        all_bits(input, (N - 1) as nat),
        forall|b: int| 0 <= b < free.len() ==> #[trigger] free[b] < N - 1,
    ensures
        code_of(input, free) < pow2(free.len()),
{
    let f = free.len();
    let bits = free_bits(input, free);
    assert forall|j: int| 0 <= j < f implies #[trigger] bits[j] <= 1 by {
        assert(free[f - 1 - j] < N - 1);
    }
    lemma_binary_value_bounded(bits, f);
}

/// Visiting combination `combination` marks its cell when the answer is
/// anticipated, and no other cell has that combination.
proof fn lemma_combination_step<const N: usize, Q>(
    classifier: Classifier<N, Q>,
    free: Seq<usize>,
    input: Seq<u8>,
    combination: usize,
    index: int,
    action: usize,
    flip: bool,
    anticipated: bool,
)
    requires
        is_mpx_length(N as nat),
        2 <= N < usize::BITS,
        classifier.action == Some(action),
        action < 2,
        compatible(classifier.condition.symbols@[N - 1], Symbol::Token(DIGIT_ZERO)),
        forall|i: int| 0 <= i < N - 1 ==> #[trigger] classifier.effect.symbols@[i] is Wildcard,
        flip ==> classifier.effect.symbols@[N - 1] == Symbol::Token((DIGIT_ZERO + 1) as u8),
        !flip ==> classifier.effect.symbols@[N - 1] is Wildcard,
        lists_free_positions(classifier.condition.symbols@, free, (N - 1) as nat),
        input.len() == N,
        all_bits(input, N as nat),
        fixed_agree(classifier.condition.symbols@, input, (N - 1) as nat),
        combination < pow2(free.len()),
        forall|b: int| 0 <= b < free.len() ==> #[trigger] input[free[b] as int] == bit_of(combination, b as usize),
        index == address_of(input, (N - 1) as nat),
        anticipated == (if flip {
            action == correct_answer_of(input, control_bits_of(N as nat))
        } else {
            action != correct_answer_of(input, control_bits_of(N as nat))
        }),
    ensures
        forall|cell: int|
            0 <= cell < 2 * pow2((N - 1) as nat) ==> ((#[trigger] cell_predicted(classifier, cell) && code_of(
                mpx_input::<N>(cell / 2),
                free,
            ) < combination + 1) == ((cell_predicted(classifier, cell) && code_of(mpx_input::<N>(cell / 2), free)
                < combination) || (anticipated && cell == 2 * index + action))),
{
    let n = (N - 1) as nat;
    let cond = classifier.condition.symbols@;
    assert(free.len() < usize::BITS) by {
        if free.len() > 0 {
            assert forall|b: int| 0 <= b < free.len() implies #[trigger] free[b] >= b by {
                lemma_increasing_at_least_index(free, b);
            }
            assert(free[free.len() - 1] >= free.len() - 1);
        }
    }
    assert(all_bits(input, n));
    lemma_input_of_index::<N>(input);
    assert forall|cell: int|
        0 <= cell < 2 * pow2((N - 1) as nat) implies ((#[trigger] cell_predicted(classifier, cell) && code_of(
            mpx_input::<N>(cell / 2),
            free,
        ) < combination + 1) == ((cell_predicted(classifier, cell) && code_of(mpx_input::<N>(cell / 2), free)
            < combination) || (anticipated && cell == 2 * index + action))) by {
        let v = cell / 2;
        let a = (cell % 2) as usize;
        let inp = mpx_input::<N>(v);
        lemma_input_is_bits::<N>(v);
        if cell == 2 * index + action {
            assert(v == index && a == action);
            lemma_same_prediction(classifier, inp, input, a);
            lemma_prediction_reduces(classifier, input, a, action, flip);
            assert(free_bits(inp, free) =~= free_bits(input, free)) by {
                assert forall|j: int| 0 <= j < free.len() implies #[trigger] free_bits(inp, free)[j] == free_bits(input, free)[j] by {
                    assert(free[free.len() - 1 - j] < n);
                }
            }
            lemma_code_of_combination(input, free, combination);
        } else {
            if cell_predicted(classifier, cell) && code_of(inp, free) == combination {
                lemma_prediction_reduces(classifier, inp, a, action, flip);
                assert forall|b: int| 0 <= b < free.len() implies #[trigger] inp[free[b] as int] <= 1 by {
                    assert(free[b] < n);
                }
                lemma_combination_of_code(inp, free, combination);
                assert forall|i: int| 0 <= i < n implies #[trigger] inp[i] == input[i] by {
                    if cond[i] is Wildcard {
                        let b = choose|b: int| 0 <= b < free.len() && #[trigger] free[b] == i;
                        assert(inp[free[b] as int] == bit_of(combination, b as usize));
                    } else {
                        assert(cond[i] == Symbol::Token((DIGIT_ZERO + inp[i]) as u8));
                        assert(cond[i] == Symbol::Token((DIGIT_ZERO + input[i]) as u8));
                        assert(inp[i] <= 1 && input[i] <= 1);
                    }
                }
                lemma_address_prefix(inp, input, n);
                assert(false);
            }
        }
    }
}

/// In an increasing sequence of naturals, entry `b` is at least `b`.
proof fn lemma_increasing_at_least_index(free: Seq<usize>, b: int)
    requires
        0 <= b < free.len(),
        forall|x: int, y: int| 0 <= x < y < free.len() ==> #[trigger] free[x] < #[trigger] free[y],
    ensures
        free[b] >= b,
    decreases b,
{
    if b > 0 {
        lemma_increasing_at_least_index(free, b - 1);
        assert(free[b - 1] < free[b]);
    }
}

/// Marks in `covered` the cells the classifier anticipates: cell
/// `2 * value + action` stands for answering `action` to input number
/// `value`. Only the inputs the condition matches are visited, one for
/// each setting of its wildcards among the input bits.
pub fn mark_covered_cells<const N: usize, Q>(
    classifier: &Classifier<N, Q>,
    control_bits: usize,
    input_bits: usize,
    covered: &mut Vec<bool>,
)
    requires
        is_mpx_length(N as nat),
        N < usize::BITS,
        mpx_length(control_bits as nat) == N,
        input_bits == N - 1,
        old(covered)@.len() == 2 * pow2((N - 1) as nat),
        reads_as_mpx(*classifier),
    ensures
        final(covered)@.len() == old(covered)@.len(),
        forall|cell: int|
            0 <= cell < old(covered)@.len() ==> #[trigger] final(covered)@[cell] == (old(covered)@[cell]
                || cell_predicted(*classifier, cell)),
{
    proof {
        lemma_control_bits_unique(control_bits as nat, N as nat);
        lemma_pow2_unfold(N as nat);
        lemma_usize_pow2_no_overflow(N as nat);
        lemma2_to64();
    }
    let ghost total_cells = 2 * pow2((N - 1) as nat);
    let ghost cond = classifier.condition.symbols@;
    let ghost effect = classifier.effect.symbols@;
    assert(N >= 2);
    let action = match classifier.action {
        Some(action) => action,
        None => {
            return ;
        },
    };
    if let Symbol::Token(value) = classifier.condition.get(N - 1) {
        if value != DIGIT_ZERO {
            proof {
                assert(cond[N - 1] == Symbol::Token(value));
                assert forall|cell: int| 0 <= cell < total_cells implies !cell_predicted(*classifier, cell) by {
                    let input = mpx_input::<N>(cell / 2);
                    let p0 = mpx_state(input, N as nat);
                    assert(p0[N - 1] == Symbol::Token(DIGIT_ZERO));
                    assert(!compatible(cond[N - 1], p0[N - 1]));
                    assert(!all_compatible(cond, p0));
                }
            }
            return ;
        }
    }
    let mut index: usize = 0;
    while index < input_bits
        invariant
            input_bits == N - 1,
            index <= input_bits,
            N >= 2,
            effect == classifier.effect.symbols@,
            total_cells == 2 * pow2((N - 1) as nat),
            covered@ == old(covered)@,
            old(covered)@.len() == total_cells,
            forall|i: int| 0 <= i < index ==> #[trigger] effect[i] is Wildcard,
        decreases input_bits - index,
    {
        if !classifier.effect.get(index).is_wildcard() {
            proof {
                assert forall|cell: int| 0 <= cell < total_cells implies !cell_predicted(*classifier, cell) by {
                    let input = mpx_input::<N>(cell / 2);
                    let right = (cell % 2) as usize == correct_answer_of(input, control_bits_of(N as nat));
                    let p0 = mpx_state(input, N as nat);
                    let p1 = mpx_outcome(input, N as nat, right);
                    assert(p1[index as int] == p0[index as int]);
                    assert(!anticipates_item(effect[index as int], p0[index as int], p1[index as int]));
                }
            }
            return ;
        }
        index += 1;
    }
    let anticipates_flip = match classifier.effect.get(N - 1) {
        Symbol::Wildcard => false,
        Symbol::Token(value) => {
            if value == DIGIT_ZERO + 1 {
                true
            } else {
                proof {
                    assert forall|cell: int| 0 <= cell < total_cells implies !cell_predicted(*classifier, cell) by {
                        let input = mpx_input::<N>(cell / 2);
                        let right = (cell % 2) as usize == correct_answer_of(input, control_bits_of(N as nat));
                        let p0 = mpx_state(input, N as nat);
                        let p1 = mpx_outcome(input, N as nat, right);
                        assert(!anticipates_item(effect[N - 1], p0[N - 1], p1[N - 1]));
                    }
                }
                return ;
            }
        },
    };
    let mut base_input = [0u8;N];
    let mut free_positions: Vec<usize> = Vec::new();
    let mut index: usize = 0;
    while index < input_bits
        invariant
            input_bits == N - 1,
            index <= input_bits,
            cond == classifier.condition.symbols@,
            reads_as_mpx(*classifier),
            lists_free_positions(cond, free_positions@, index as nat),
            forall|i: int| 0 <= i < N ==> #[trigger] base_input@[i] <= 1,
            fixed_agree(cond, base_input@, index as nat),
        decreases input_bits - index,
    {
        let ghost before = free_positions@;
        match classifier.condition.get(index) {
            Symbol::Wildcard => {
                free_positions.push(index);
            },
            Symbol::Token(value) => {
                base_input[index] = value - DIGIT_ZERO;
            },
        }
        proof {
            assert forall|i: int|
                #![trigger cond[i]]
                0 <= i < index + 1 && cond[i] is Wildcard implies exists|b: int|
                0 <= b < free_positions@.len() && #[trigger] free_positions@[b] == i by {
                if i < index {
                    let b = choose|b: int| 0 <= b < before.len() && #[trigger] before[b] == i;
                    assert(free_positions@[b] == i);
                } else {
                    assert(free_positions@[before.len() as int] == i);
                }
            }
            assert(fixed_agree(cond, base_input@, (index + 1) as nat));
        }
        index += 1;
    }
    let free_count = free_positions.len();
    proof {
        if free_count > 0 {
            lemma_increasing_at_least_index(free_positions@, free_count - 1);
        }
        lemma_usize_pow2_no_overflow(free_count as nat);
        lemma_usize_shl_is_mul(1, free_count);
        assert forall|cell: int| 0 <= cell < total_cells implies #[trigger] covered@[cell] == (old(covered)@[cell] || (
        cell_predicted(*classifier, cell) && code_of(mpx_input::<N>(cell / 2), free_positions@) < 0)) by {}
    }
    let combinations = 1usize << free_count;
    let mut combination: usize = 0;
    while combination < combinations
        invariant
            is_mpx_length(N as nat),
            2 <= N < usize::BITS,
            mpx_length(control_bits as nat) == N,
            control_bits == control_bits_of(N as nat),
            input_bits == N - 1,
            cond == classifier.condition.symbols@,
            effect == classifier.effect.symbols@,
            classifier.action == Some(action),
            reads_as_mpx(*classifier),
            action < 2,
            compatible(cond[N - 1], Symbol::Token(DIGIT_ZERO)),
            forall|i: int| 0 <= i < N - 1 ==> #[trigger] effect[i] is Wildcard,
            anticipates_flip ==> effect[N - 1] == Symbol::Token((DIGIT_ZERO + 1) as u8),
            !anticipates_flip ==> effect[N - 1] is Wildcard,
            lists_free_positions(cond, free_positions@, (N - 1) as nat),
            free_count == free_positions@.len(),
            free_count < usize::BITS,
            combinations == pow2(free_count as nat),
            forall|i: int| 0 <= i < N ==> #[trigger] base_input@[i] <= 1,
            fixed_agree(cond, base_input@, (N - 1) as nat),
            total_cells == 2 * pow2((N - 1) as nat),
            total_cells <= usize::MAX,
            covered@.len() == total_cells,
            old(covered)@.len() == total_cells,
            combination <= combinations,
            forall|cell: int|
                0 <= cell < total_cells ==> #[trigger] covered@[cell] == (old(covered)@[cell] || (
                cell_predicted(*classifier, cell) && code_of(mpx_input::<N>(cell / 2), free_positions@)
                    < combination)),
        decreases combinations - combination,
    {
        let mut input = base_input;
        let mut bit: usize = 0;
        while bit < free_count
            invariant
                N >= 2,
                bit <= free_count,
                free_count == free_positions@.len(),
                free_count < usize::BITS,
                cond == classifier.condition.symbols@,
                lists_free_positions(cond, free_positions@, (N - 1) as nat),
                forall|i: int| 0 <= i < N ==> #[trigger] base_input@[i] <= 1,
                forall|i: int| 0 <= i < N ==> #[trigger] input@[i] <= 1,
                forall|b: int| 0 <= b < bit ==> #[trigger] input@[free_positions@[b] as int] == bit_of(combination, b as usize),
                forall|i: int|
                    0 <= i < N && (i >= N - 1 || !(cond[i] is Wildcard)) ==> #[trigger] input@[i] == base_input@[i],
            decreases free_count - bit,
        {
            let position = free_positions[bit];
            input[position] = ((combination >> bit) & 1) as u8;
            proof {
                assert(((combination >> bit) & 1usize) <= 1) by (bit_vector);
                assert forall|b: int| 0 <= b < bit + 1 implies #[trigger] input@[free_positions@[b] as int] == bit_of(combination, b as usize) by {
                    if b < bit {
                        assert(free_positions@[b] < free_positions@[bit as int]);
                    }
                }
            }
            bit += 1;
        }
        proof {
            assert(all_bits(input@, N as nat));
            assert(fixed_agree(cond, input@, (N - 1) as nat)) by {
                assert forall|i: int| 0 <= i < N - 1 implies (#[trigger] cond[i] is Wildcard || cond[i] == Symbol::Token(
                    (DIGIT_ZERO + input@[i]) as u8,
                )) by {
                    if !(cond[i] is Wildcard) {
                        assert(input@[i] == base_input@[i]);
                    }
                }
            }
            lemma_binary_value_bounded(input@, control_bits as nat);
            lemma_usize_pow2_no_overflow(control_bits as nat);
            lemma_address_is_binary_value(input@, control_bits as nat);
            lemma_input_of_index::<N>(input@);
        }
        let correct_answer = get_correct_answer(input.as_slice(), control_bits);
        let anticipated = if anticipates_flip {
            action == correct_answer
        } else {
            action != correct_answer
        };
        let ghost index_spec = address_of(input@, (N - 1) as nat);
        proof {
            lemma_combination_step(
                *classifier,
                free_positions@,
                input@,
                combination,
                index_spec as int,
                action,
                anticipates_flip,
                anticipated,
            );
        }
        let ghost before = covered@;
        if anticipated {
            let input_index = input_index_of::<N>(&input, input_bits);
            assert(2 * input_index + 1 < total_cells);
            proof {
                lemma2_to64();
                lemma_usize_shl_is_mul(input_index, 1);
                let doubled = input_index << 1usize;
                assert(doubled == input_index * 2);
                assert((doubled | action) == doubled + action) by (bit_vector)
                    requires
                        doubled % 2 == 0,
                        action <= 1,
                ;
            }
            covered.set((input_index << 1) | action, true);
            assert(covered@ == before.update(2 * index_spec + action, true));
        }
        assert(!anticipated ==> covered@ == before);
        proof {
            assert forall|cell: int| 0 <= cell < total_cells implies #[trigger] covered@[cell] == (old(covered)@[cell] || (
            cell_predicted(*classifier, cell) && code_of(mpx_input::<N>(cell / 2), free_positions@) < combination
                + 1)) by {
                assert(before[cell] == (old(covered)@[cell] || (cell_predicted(*classifier, cell) && code_of(
                    mpx_input::<N>(cell / 2),
                    free_positions@,
                ) < combination)));
            }
        }
        combination += 1;
    }
    proof {
        assert forall|cell: int| 0 <= cell < total_cells implies #[trigger] covered@[cell] == (old(covered)@[cell]
            || cell_predicted(*classifier, cell)) by {
            lemma_input_is_bits::<N>(cell / 2);
            lemma_code_bounded::<N>(mpx_input::<N>(cell / 2), free_positions@);
            assert(covered@[cell] == (old(covered)@[cell] || (cell_predicted(*classifier, cell) && code_of(
                mpx_input::<N>(cell / 2),
                free_positions@,
            ) < combination)));
        }
    }
}


/// How many cells some classifier among `reliable` anticipates, out of the
/// `2 * 2^(N - 1)` answers to all inputs; the share of knowledge is this
/// count over that number. Each classifier marks only the inputs its
/// condition matches.
pub fn exhaustive_coverage<const N: usize, Q>(population: &Population<N, Q>, reliable: &[ClassifierRef]) -> (result:
    usize)
    requires
        is_mpx_length(N as nat),
        N < usize::BITS,
        forall|k: int| 0 <= k < reliable@.len() ==> #[trigger] reliable@[k] < population.items().len(),
        forall|k: int|
            0 <= k < reliable@.len() ==> reads_as_mpx(population.items()[#[trigger] reliable@[k] as int]),
    ensures
        result == count_cells(population.items(), reliable@, 2 * pow2((N - 1) as nat)),
{
    let control_bits = control_bits_for(N);
    let input_bits = N - 1;
    proof {
        lemma_pow2_unfold(N as nat);
        lemma_usize_pow2_no_overflow(N as nat);
        lemma_usize_pow2_no_overflow(input_bits as nat);
        lemma_usize_shl_is_mul(1, input_bits);
        lemma2_to64();
        lemma_usize_shl_is_mul((1usize << input_bits), 1);
    }
    let total_cells = (1usize << input_bits) << 1;
    let ghost items = population.items();
    let mut covered: Vec<bool> = vec![false; total_cells];
    proof {
        assert forall|cell: int| 0 <= cell < total_cells implies #[trigger] covered@[cell] == cell_covered(
            items,
            reliable@.take(0),
            cell,
        ) by {
            assert(!covered@[cell]);
        }
    }
    let mut k: usize = 0;
    while k < reliable.len()
        invariant
            is_mpx_length(N as nat),
            N < usize::BITS,
            mpx_length(control_bits as nat) == N,
            input_bits == N - 1,
            items == population.items(),
            total_cells == 2 * pow2((N - 1) as nat),
            k <= reliable@.len(),
            forall|j: int| 0 <= j < reliable@.len() ==> #[trigger] reliable@[j] < items.len(),
            forall|j: int| 0 <= j < reliable@.len() ==> reads_as_mpx(items[#[trigger] reliable@[j] as int]),
            covered@.len() == total_cells,
            forall|cell: int|
                0 <= cell < total_cells ==> #[trigger] covered@[cell] == cell_covered(items, reliable@.take(k as int), cell),
        decreases reliable@.len() - k,
    {
        let ghost before = covered@;
        let classifier = population.get(reliable[k]);
        proof {
            assert(reads_as_mpx(items[reliable@[k as int] as int]));
        }
        mark_covered_cells(classifier, control_bits, input_bits, &mut covered);
        proof {
            let grown = reliable@.take(k as int + 1);
            assert forall|cell: int| 0 <= cell < total_cells implies #[trigger] covered@[cell] == cell_covered(
                items,
                grown,
                cell,
            ) by {
                assert(grown[k as int] == reliable@[k as int]);
                if cell_covered(items, reliable@.take(k as int), cell) {
                    let j = choose|j: int|
                        0 <= j < k && cell_predicted(items[#[trigger] reliable@.take(k as int)[j] as int], cell);
                    assert(grown[j] == reliable@.take(k as int)[j]);
                }
                if cell_covered(items, grown, cell) {
                    let j = choose|j: int| 0 <= j < k + 1 && cell_predicted(items[#[trigger] grown[j] as int], cell);
                    if j < k {
                        assert(reliable@.take(k as int)[j] == grown[j]);
                    }
                }
            }
        }
        k += 1;
    }
    proof {
        assert(reliable@.take(reliable@.len() as int) =~= reliable@);
    }
    let mut count: usize = 0;
    let mut cell: usize = 0;
    while cell < total_cells
        invariant
            cell <= total_cells,
            covered@.len() == total_cells,
            count <= cell,
            count == count_cells(items, reliable@, cell as nat),
            forall|c: int| 0 <= c < total_cells ==> #[trigger] covered@[c] == cell_covered(items, reliable@, c),
        decreases total_cells - cell,
    {
        if covered[cell] {
            count += 1;
        }
        cell += 1;
    }
    count
}

/// Counting covered cells and counting covered transitions agree: for a
/// transition list laid out as `exhaustive_transitions` lays it out, entry
/// `2 * value + action` answering `action` to input number `value`, the
/// transitions some classifier among `chosen` anticipates are as many as
/// the cells it covers.
pub proof fn lemma_cells_count_transitions<const N: usize, Q>(
    items: Seq<Classifier<N, Q>>,
    chosen: Seq<ClassifierRef>,
    transitions: Seq<Transition<N>>,
)
    requires
        transitions.len() == 2 * pow2((N - 1) as nat),
        forall|value: int, action: int|
            0 <= value < pow2((N - 1) as nat) && 0 <= action < 2 ==> (#[trigger] transitions[2 * value + action]).action
                == action && is_mpx_transition(
                transitions[2 * value + action],
                decoded(value as usize, (N - 1) as nat, N as nat),
            ),
    ensures
        count_covered(items, chosen, transitions) == count_cells(items, chosen, transitions.len()),
{
    lemma_cells_count_prefix(items, chosen, transitions, transitions.len());
    assert(transitions.take(transitions.len() as int) =~= transitions);
}

proof fn lemma_cells_count_prefix<const N: usize, Q>(
    items: Seq<Classifier<N, Q>>,
    chosen: Seq<ClassifierRef>,
    transitions: Seq<Transition<N>>,
    n: nat,
)
    requires
        n <= transitions.len(),
        transitions.len() == 2 * pow2((N - 1) as nat),
        forall|value: int, action: int|
            0 <= value < pow2((N - 1) as nat) && 0 <= action < 2 ==> (#[trigger] transitions[2 * value + action]).action
                == action && is_mpx_transition(
                transitions[2 * value + action],
                decoded(value as usize, (N - 1) as nat, N as nat),
            ),
    ensures
        count_covered(items, chosen, transitions.take(n as int)) == count_cells(items, chosen, n),
    decreases n,
{
    if n > 0 {
        let m = (n - 1) as nat;
        lemma_cells_count_prefix(items, chosen, transitions, m);
        let part = transitions.take(n as int);
        assert(part.drop_last() =~= transitions.take(m as int));
        let t = transitions[m as int];
        assert(part.last() == t);
        let value: int = m as int / 2;
        let action: int = m as int % 2;
        assert(t == transitions[2 * value + action]);
        assert(t.action == action);
        assert forall|k: int| 0 <= k < chosen.len() implies predicts(items[#[trigger] chosen[k] as int], t)
            == cell_predicted(items[chosen[k] as int], m as int) by {}
        if covered(items, chosen, t) {
            let k = choose|k: int| 0 <= k < chosen.len() && predicts(items[#[trigger] chosen[k] as int], t);
            assert(cell_predicted(items[chosen[k] as int], m as int));
        }
        if cell_covered(items, chosen, m as int) {
            let k = choose|k: int| 0 <= k < chosen.len() && cell_predicted(items[#[trigger] chosen[k] as int], m as int);
            assert(predicts(items[chosen[k] as int], t));
        }
    }
}

} // verus!
