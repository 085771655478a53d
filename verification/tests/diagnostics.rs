use acs2::condition::Condition;
use acs2::diagnostics::{address_specified, is_structurally_correct};
use acs2::symbol::Symbol;

const CONTROL_BITS: usize = 2;
const INPUT_BITS: usize = 6;

fn condition(text: &str) -> Condition<7> {
    let mut condition = Condition::<7>::all_wildcard();
    for (index, byte) in text.bytes().enumerate() {
        if byte != b'#' {
            condition.set(index, Symbol::Token(byte));
        }
    }
    condition
}

#[test]
fn address_bits_are_counted_when_specified() {
    assert_eq!(address_specified(&condition("#######"), CONTROL_BITS), 0);
    assert_eq!(address_specified(&condition("0######"), CONTROL_BITS), 1);
    assert_eq!(address_specified(&condition("#1#####"), CONTROL_BITS), 1);
    assert_eq!(address_specified(&condition("10#####"), CONTROL_BITS), 2);
    assert_eq!(address_specified(&condition("##1111#"), CONTROL_BITS), 0);
}

#[test]
fn a_rule_names_its_address_and_the_bit_it_points_at() {
    assert!(is_structurally_correct(&condition("01#1###"), CONTROL_BITS, INPUT_BITS));
    assert!(is_structurally_correct(&condition("001####"), CONTROL_BITS, INPUT_BITS));
    assert!(is_structurally_correct(&condition("11###0#"), CONTROL_BITS, INPUT_BITS));
    assert!(is_structurally_correct(&condition("10##1##"), CONTROL_BITS, INPUT_BITS));
}

#[test]
fn a_rule_that_misses_or_overshoots_is_not_structural() {
    // the data bit the address names is left open
    assert!(!is_structurally_correct(&condition("011####"), CONTROL_BITS, INPUT_BITS));
    // an address bit is left open
    assert!(!is_structurally_correct(&condition("0#1####"), CONTROL_BITS, INPUT_BITS));
    // one more bit than the rule needs
    assert!(!is_structurally_correct(&condition("01#1#1#"), CONTROL_BITS, INPUT_BITS));
    assert!(!is_structurally_correct(&condition("11###01"), CONTROL_BITS, INPUT_BITS));
}
