use vstd::prelude::*;

use crate::condition::{count_specific, Condition};
use crate::multiplexer::{address_of, bits_shown, DIGIT_ZERO};
use crate::symbol::Symbol;

verus! {

/// How many of the first `control_bits` symbols (the address bits of a
/// multiplexer condition) hold a token.
pub open spec fn address_specified_count(symbols: Seq<Symbol>, control_bits: nat) -> nat {
    count_specific(symbols.take(control_bits as int))
}

/// The address a multiplexer condition names with its address bits, read
/// as the machine reads them.
pub open spec fn named_address(symbols: Seq<Symbol>, control_bits: nat) -> int {
    address_of(bits_shown(symbols), control_bits) as int
}

/// A multiplexer condition that specifies every address bit, the input bit
/// that they name, and nothing else.
pub open spec fn structurally_correct(symbols: Seq<Symbol>, control_bits: nat, input_bits: nat) -> bool {
    let data = control_bits + named_address(symbols, control_bits);
    &&& address_specified_count(symbols, control_bits) == control_bits
    &&& data < input_bits
    &&& symbols[data] is Token
    &&& count_specific(symbols) == control_bits + 1
}

/// Every token among the first `control_bits` symbols is at least the
/// digit zero, so that it reads as a number.
pub open spec fn address_reads_as_digits(symbols: Seq<Symbol>, control_bits: nat) -> bool {
    forall|i: int| 0 <= i < control_bits && #[trigger] symbols[i] is Token ==> symbols[i]->0 >= DIGIT_ZERO
}

/// The number of address bits the condition specifies.
pub fn address_specified<const N: usize>(condition: &Condition<N>, control_bits: usize) -> (result: usize)
    requires
        control_bits <= N,
    ensures
        result == address_specified_count(condition.symbols@, control_bits as nat),
        result <= control_bits,
{
    let mut count: usize = 0;
    let mut index: usize = 0;
    while index < control_bits
        invariant
            index <= control_bits <= N,
            count == count_specific(condition.symbols@.take(index as int)),
            count <= index,
        decreases control_bits - index,
    {
        proof {
            let part = condition.symbols@.take(index as int + 1);
            assert(part.drop_last() =~= condition.symbols@.take(index as int));
            assert(part.last() == condition.symbols@[index as int]);
        }
        if !condition.symbols[index].is_wildcard() {
            count += 1;
        }
        index += 1;
    }
    count
}

/// Whether the condition is the one a multiplexer rule needs: every
/// address bit, the input bit they name, and nothing else specified.
pub fn is_structurally_correct<const N: usize>(
    condition: &Condition<N>,
    control_bits: usize,
    input_bits: usize,
) -> (result: bool)
    requires
        control_bits <= N,
        input_bits <= N,
        address_reads_as_digits(condition.symbols@, control_bits as nat),
        address_specified_count(condition.symbols@, control_bits as nat) == control_bits ==> control_bits
            + named_address(condition.symbols@, control_bits as nat) <= usize::MAX,
    ensures
        result == structurally_correct(condition.symbols@, control_bits as nat, input_bits as nat),
{
    if address_specified(condition, control_bits) != control_bits {
        return false;
    }
    let ghost bits = bits_shown(condition.symbols@);
    let mut address: usize = 0;
    let mut index: usize = 0;
    while index < control_bits
        invariant
            index <= control_bits <= N,
            bits == bits_shown(condition.symbols@),
            address_reads_as_digits(condition.symbols@, control_bits as nat),
            address == address_of(bits, index as nat),
        decreases control_bits - index,
    {
        let bit: usize = match condition.symbols[index] {
            Symbol::Token(token) => (token - DIGIT_ZERO) as usize,
            Symbol::Wildcard => 0,
        };
        assert(bit == bits[index as int] as usize);
        address = (address << 1) | bit;
        index += 1;
    }
    let data_index = control_bits + address;
    data_index < input_bits && !condition.symbols[data_index].is_wildcard() && condition.specificity()
        == control_bits + 1
}

} // verus!
