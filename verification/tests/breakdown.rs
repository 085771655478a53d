use acs2::breakdown::knowledge_breakdown;
use acs2::classifier::Classifier;
use acs2::knowledge::anticipated_count;
use acs2::multiplexer::{exhaustive_transitions, transition_is_correct};
use acs2::population::Population;
use acs2::symbol::Symbol;

fn quadrant_population() -> Population<4, ()> {
    let unchanged = Classifier::<4, ()>::general(Some(0), ());
    let mut validated = Classifier::<4, ()>::general(Some(1), ());
    validated.effect.set(3, Symbol::Token(b'1'));
    Population::from_classifiers(vec![unchanged, validated])
}

#[test]
fn every_quadrant_of_the_three_bit_multiplexer_holds_a_quarter() {
    let transitions = exhaustive_transitions::<4>();
    assert_eq!(transitions.len(), 16);
    let breakdown = knowledge_breakdown(&quadrant_population(), &[], &transitions);
    assert_eq!(breakdown.total, [4, 4, 4, 4]);
    assert_eq!(breakdown.covered, [0, 0, 0, 0]);
    assert_eq!(breakdown.matched_but_wrong, 0);
}

#[test]
fn a_classifier_predicts_its_own_quadrant_and_only_matches_the_other() {
    let transitions = exhaustive_transitions::<4>();
    let population = quadrant_population();
    let breakdown = knowledge_breakdown(&population, &[0, 1], &transitions);
    assert_eq!(breakdown.total, [4, 4, 4, 4]);
    assert_eq!(breakdown.covered, [4, 0, 0, 4]);
    assert_eq!(breakdown.matched_but_wrong, 8);
    let predicted: usize = breakdown.covered.iter().sum();
    assert_eq!(predicted, anticipated_count(&population, &[0, 1], &transitions));

    let only_unchanged = knowledge_breakdown(&population, &[0], &transitions);
    assert_eq!(only_unchanged.covered, [4, 0, 0, 0]);
    assert_eq!(only_unchanged.matched_but_wrong, 4);
}

#[test]
fn a_right_answer_sets_the_validation_bit() {
    let transitions = exhaustive_transitions::<4>();
    let right = transitions.iter().filter(|transition| transition_is_correct(transition)).count();
    assert_eq!(right, 8);
    for pair in transitions.chunks(2) {
        assert_ne!(transition_is_correct(&pair[0]), transition_is_correct(&pair[1]));
    }
}
