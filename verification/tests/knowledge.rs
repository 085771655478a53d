use acs2::classifier::Classifier;
use acs2::effect::Effect;
use acs2::knowledge::{anticipated_count, predicts_successfully, Transition};
use acs2::perception::Perception;
use acs2::population::Population;
use acs2::symbol::Symbol;

const VALIDATION: usize = 2;

#[derive(Clone, Copy, Debug)]
struct Stats {
    q: f64,
}

fn token(value: u8) -> Symbol {
    Symbol::Token(b'0' + value)
}

fn perception(input_bit: u8, validation_bit: u8) -> Perception<3> {
    Perception::new([token(input_bit), token(input_bit), token(validation_bit)])
}

fn reliable_classifier(condition_input_bit: u8, action: usize, anticipates_change: bool) -> Classifier<3, Stats> {
    let mut classifier = Classifier::general(Some(action), Stats { q: 0.5 });
    classifier.condition.set(0, token(condition_input_bit));
    classifier.condition.set(1, token(condition_input_bit));
    if anticipates_change {
        classifier.effect.set(VALIDATION, token(1));
    }
    classifier.stats.q = 1.0;
    classifier
}

fn toy_transitions() -> Vec<Transition<3>> {
    let mut transitions = Vec::new();
    for input_bit in [0u8, 1u8] {
        let correct_action = input_bit as usize;
        for action in [0usize, 1usize] {
            let p0 = perception(input_bit, 0);
            let validation_after = if action == correct_action { 1 } else { 0 };
            let p1 = perception(input_bit, validation_after);
            transitions.push(Transition::new(p0, action, p1));
        }
    }
    transitions
}

fn anticipation_fraction(population: &Population<3, Stats>, theta_r: f64, transitions: &[Transition<3>]) -> f64 {
    let reliable: Vec<usize> = (0..population.len())
        .filter(|&index| population.get(index).stats.q > theta_r)
        .collect();
    let count = anticipated_count(population, &reliable, transitions);
    if transitions.is_empty() {
        0.0
    } else {
        count as f64 / transitions.len() as f64
    }
}

#[test]
fn wildcard_effect_credits_identity_transition() {
    let no_change_effect: Effect<3> = Effect::all_wildcard();
    let p0 = perception(1, 0);
    assert!(no_change_effect.anticipates_correctly(&p0, &p0));

    let p1 = perception(1, 1);
    assert!(!no_change_effect.anticipates_correctly(&p0, &p1));
}

#[test]
fn complete_population_reaches_full_knowledge() {
    let mut classifiers = Vec::new();
    for input_bit in [0u8, 1u8] {
        let correct_action = input_bit as usize;
        let wrong_action = 1 - correct_action;
        classifiers.push(reliable_classifier(input_bit, correct_action, true));
        classifiers.push(reliable_classifier(input_bit, wrong_action, false));
    }
    let population = Population::from_classifiers(classifiers);

    let knowledge = anticipation_fraction(&population, 0.9, &toy_transitions());
    assert_eq!(knowledge, 1.0);
}

#[test]
fn change_only_population_caps_at_half() {
    let mut classifiers = Vec::new();
    for input_bit in [0u8, 1u8] {
        let correct_action = input_bit as usize;
        classifiers.push(reliable_classifier(input_bit, correct_action, true));
    }
    let population = Population::from_classifiers(classifiers);

    let knowledge = anticipation_fraction(&population, 0.9, &toy_transitions());
    assert_eq!(knowledge, 0.5);
}

#[test]
fn unreliable_classifiers_are_ignored() {
    let mut change = reliable_classifier(0, 0, true);
    change.stats.q = 0.5;
    let population = Population::from_classifiers(vec![change]);

    let knowledge = anticipation_fraction(&population, 0.9, &toy_transitions());
    assert_eq!(knowledge, 0.0);
}

#[test]
fn a_prediction_needs_the_action_the_match_and_the_effect() {
    let classifier = reliable_classifier(1, 1, true);
    let right = Transition::new(perception(1, 0), 1, perception(1, 1));
    assert!(predicts_successfully(&classifier, &right));
    let other_action = Transition::new(perception(1, 0), 0, perception(1, 1));
    assert!(!predicts_successfully(&classifier, &other_action));
    let unmatched = Transition::new(perception(0, 0), 1, perception(0, 1));
    assert!(!predicts_successfully(&classifier, &unmatched));
    let unchanged = Transition::new(perception(1, 0), 1, perception(1, 0));
    assert!(!predicts_successfully(&classifier, &unchanged));
}

#[test]
fn no_transitions_count_nothing() {
    let population = Population::from_classifiers(vec![reliable_classifier(0, 0, true)]);
    assert_eq!(anticipated_count(&population, &[0], &[]), 0);
    assert_eq!(anticipated_count(&population, &[], &toy_transitions()), 0);
}
