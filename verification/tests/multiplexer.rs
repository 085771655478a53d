use acs2::classifier::Classifier;
use acs2::coverage::{exhaustive_coverage, mark_covered_cells};
use acs2::knowledge::{anticipated_count, Transition};
use acs2::multiplexer::{
    control_bits_for, decode_input, exhaustive_transition, exhaustive_transitions, get_correct_answer,
    input_index_of, make_transition, sampled_transitions, Multiplexer, NUMBER_OF_POSSIBLE_ACTIONS,
};
use acs2::perception::Perception;
use acs2::population::Population;
use acs2::rng::{ChaChaRandomSource, RandomSource};
use acs2::symbol::Symbol;

#[derive(Clone, Copy, Debug)]
struct Stats {
    q: f64,
}

fn token(value: u8) -> Symbol {
    Symbol::Token(b'0' + value)
}

fn reliable_indices<const N: usize>(population: &Population<N, Stats>, theta_r: f64) -> Vec<usize> {
    (0..population.len())
        .filter(|&index| population.get(index).stats.q > theta_r)
        .collect()
}

fn anticipation_fraction<const N: usize>(
    population: &Population<N, Stats>,
    theta_r: f64,
    transitions: &[Transition<N>],
) -> f64 {
    let reliable = reliable_indices(population, theta_r);
    let count = anticipated_count(population, &reliable, transitions);
    if transitions.is_empty() {
        0.0
    } else {
        count as f64 / transitions.len() as f64
    }
}

fn exhaustive_knowledge<const N: usize>(population: &Population<N, Stats>, theta_r: f64) -> f64 {
    let reliable = reliable_indices(population, theta_r);
    let total_cells = (1usize << (N - 1)) << 1;
    exhaustive_coverage(population, &reliable) as f64 / total_cells as f64
}

#[test]
fn get_correct_answer_matches_pyalcs_3bit() {
    assert_eq!(get_correct_answer(&[0, 1, 0, 0], 1), 1);
    assert_eq!(get_correct_answer(&[1, 1, 0, 0], 1), 0);
}

#[test]
fn get_correct_answer_matches_pyalcs_6bit() {
    assert_eq!(get_correct_answer(&[1, 1, 0, 1, 0, 0, 0], 2), 0);
}

#[test]
fn get_correct_answer_matches_pyalcs_11bit() {
    assert_eq!(get_correct_answer(&[1, 0, 1, 1, 0, 1, 1, 0, 1, 0], 3), 1);
}

fn assert_mpx<const N: usize>(expected_input_bits: usize) {
    let mut env = Multiplexer::<N, ChaChaRandomSource>::new(ChaChaRandomSource::from_seed(1));
    let perception = env.reset();
    assert_eq!(perception.symbols.len(), expected_input_bits + 1);
    assert_eq!(N, expected_input_bits + 1);
    let control_bits = Multiplexer::<N, ChaChaRandomSource>::control_bits();
    assert_eq!(control_bits + (1usize << control_bits), expected_input_bits);
    assert_eq!(Multiplexer::<N, ChaChaRandomSource>::input_bits(), expected_input_bits);
}

#[test]
fn perception_length_equals_input_bits_plus_one_for_every_size() {
    assert_mpx::<7>(6);
    assert_mpx::<12>(11);
    assert_mpx::<21>(20);
    assert_mpx::<38>(37);
    assert_mpx::<71>(70);
    assert_mpx::<136>(135);
}

#[test]
fn a_multiplexer_answers_with_one_of_two_actions() {
    assert_eq!(Multiplexer::<7, ChaChaRandomSource>::number_of_possible_actions(), 2);
    assert_eq!(NUMBER_OF_POSSIBLE_ACTIONS, 2);
}

#[test]
fn reset_pins_validation_bit_and_step_flips_only_on_correct_answer() {
    let mut env = Multiplexer::<7, ChaChaRandomSource>::new(ChaChaRandomSource::from_seed(7));
    let observation = env.reset();
    assert_eq!(observation.get(6), token(0));

    let correct = env.correct_answer();
    let outcome = env.step(correct);
    assert_eq!(outcome.observation.get(6), token(1));
    assert!(outcome.correct);
    assert!(outcome.terminated);
    assert!(!outcome.truncated);

    let mut env = Multiplexer::<7, ChaChaRandomSource>::new(ChaChaRandomSource::from_seed(7));
    env.reset();
    let correct = env.correct_answer();
    let outcome = env.step(1 - correct);
    assert_eq!(outcome.observation.get(6), token(0));
    assert!(!outcome.correct);
    assert!(outcome.terminated);
}

#[test]
fn step_leaves_input_bits_unchanged() {
    let mut env = Multiplexer::<12, ChaChaRandomSource>::new(ChaChaRandomSource::from_seed(11));
    let before = env.reset();
    let correct = env.correct_answer();
    let after = env.step(correct).observation;
    for index in 0..Multiplexer::<12, ChaChaRandomSource>::input_bits() {
        assert_eq!(before.get(index), after.get(index));
    }
}

#[test]
fn reset_shows_only_bit_tokens() {
    let mut env = Multiplexer::<12, ChaChaRandomSource>::new(ChaChaRandomSource::from_seed(3));
    for _ in 0..20 {
        let observation = env.reset();
        for index in 0..12 {
            let symbol = observation.get(index);
            assert!(symbol == token(0) || symbol == token(1));
        }
        assert_eq!(observation.get(11), token(0));
    }
}

#[test]
fn control_bits_for_names_the_address_width() {
    assert_eq!(control_bits_for(4), 1);
    assert_eq!(control_bits_for(7), 2);
    assert_eq!(control_bits_for(12), 3);
    assert_eq!(control_bits_for(21), 4);
    assert_eq!(control_bits_for(136), 7);
}

#[test]
fn decode_and_index_are_inverse() {
    for value in 0..64usize {
        let input = decode_input::<7>(value, 6);
        assert_eq!(input_index_of::<7>(&input, 6), value);
        assert_eq!(input[6], 0);
    }
    let input = decode_input::<7>(0b101100, 6);
    assert_eq!(input, [1, 0, 1, 1, 0, 0, 0]);
}

#[test]
fn make_transition_sets_the_validation_bit_only_on_the_right_answer() {
    let input = [1u8, 0, 1, 0, 0, 0, 0];
    let right = make_transition::<7>(&input, 1, 1);
    assert_eq!(right.p0.symbols, [token(1), token(0), token(1), token(0), token(0), token(0), token(0)]);
    assert_eq!(right.p1.get(6), token(1));
    assert_eq!(right.action, 1);
    let wrong = make_transition::<7>(&input, 0, 1);
    assert_eq!(wrong.p1, wrong.p0);
}

#[test]
fn exhaustive_transitions_list_every_input_and_both_answers() {
    let transitions = exhaustive_transitions::<7>();
    assert_eq!(transitions.len(), 128);
    for value in 0..64usize {
        for action in 0..2usize {
            let transition = transitions[2 * value + action];
            assert_eq!(transition, exhaustive_transition::<7>(value, action));
            let input = decode_input::<7>(value, 6);
            let correct = get_correct_answer(&input, 2);
            assert_eq!(transition.p1.get(6) == token(1), action == correct);
        }
    }
}

#[test]
fn sampled_transitions_come_in_pairs_of_answers() {
    let transitions = sampled_transitions::<12>(50, 9);
    assert_eq!(transitions.len(), 100);
    for pair in transitions.chunks(2) {
        assert_eq!(pair[0].action, 0);
        assert_eq!(pair[1].action, 1);
        assert_eq!(pair[0].p0, pair[1].p0);
        assert_ne!(pair[0].p1.get(11) == token(1), pair[1].p1.get(11) == token(1));
    }
}

fn reliable_half_classifier<const N: usize>(action: usize, anticipates_change: bool) -> Classifier<N, Stats> {
    let mut classifier = Classifier::general(Some(action), Stats { q: 0.5 });
    classifier.condition.set(0, token(0));
    if anticipates_change {
        classifier.effect.set(N - 1, token(1));
    }
    classifier.stats.q = 1.0;
    classifier
}

fn half_coverage_population<const N: usize>() -> Population<N, Stats> {
    let mut classifiers = Vec::new();
    for action in 0..NUMBER_OF_POSSIBLE_ACTIONS {
        classifiers.push(reliable_half_classifier::<N>(action, false));
        classifiers.push(reliable_half_classifier::<N>(action, true));
    }
    Population::from_classifiers(classifiers)
}

fn assert_sampler_agrees<const N: usize>() {
    const SAMPLE_INPUTS: usize = 200_000;
    const SAMPLE_SEED: u64 = 0x6D70_7831;
    const TOLERANCE: f64 = 0.005;

    let population = half_coverage_population::<N>();
    let theta_r = 0.9;

    let exhaustive = anticipation_fraction(&population, theta_r, &exhaustive_transitions::<N>());
    let sampled = anticipation_fraction(&population, theta_r, &sampled_transitions::<N>(SAMPLE_INPUTS, SAMPLE_SEED));

    assert!(
        (exhaustive - 0.5).abs() < 1e-12,
        "synthetic half-coverage population should yield exactly 0.5 exhaustively, got {exhaustive}"
    );
    assert!(
        (sampled - exhaustive).abs() <= TOLERANCE,
        "sampled {sampled} disagrees with exhaustive {exhaustive} beyond {TOLERANCE}"
    );
}

#[test]
fn fast_exhaustive_matches_naive_on_synthetic_population() {
    let population = half_coverage_population::<12>();
    let fast = exhaustive_knowledge::<12>(&population, 0.9);
    let naive = anticipation_fraction(&population, 0.9, &exhaustive_transitions::<12>());
    assert_eq!(fast, naive);
    assert_eq!(fast, 0.5);
}

#[test]
fn sampled_estimator_agrees_with_exhaustive_at_k11() {
    assert_sampler_agrees::<12>();
}

#[test]
fn sampled_estimator_agrees_with_exhaustive_at_k20() {
    assert_sampler_agrees::<21>();
}

#[test]
fn marking_covers_exactly_the_anticipated_answers() {
    let mut classifier = Classifier::<7, Stats>::general(Some(1), Stats { q: 1.0 });
    classifier.condition.set(0, token(1));
    classifier.condition.set(1, token(0));
    classifier.effect.set(6, token(1));
    let mut covered = vec![false; 128];
    mark_covered_cells(&classifier, 2, 6, &mut covered);
    for value in 0..64usize {
        for action in 0..2usize {
            let transition = exhaustive_transition::<7>(value, action);
            let anticipated = classifier.action == Some(transition.action)
                && classifier.condition.does_match(&transition.p0)
                && classifier.effect.anticipates_correctly(&transition.p0, &transition.p1);
            assert_eq!(covered[2 * value + action], anticipated, "cell of input {value} and action {action}");
        }
    }
    assert_eq!(covered.iter().filter(|&&cell| cell).count(), 8);
}

#[test]
fn marking_ignores_a_classifier_that_foresees_an_input_change() {
    let mut classifier = Classifier::<7, Stats>::general(Some(0), Stats { q: 1.0 });
    classifier.effect.set(3, token(1));
    let mut covered = vec![false; 128];
    mark_covered_cells(&classifier, 2, 6, &mut covered);
    assert!(covered.iter().all(|&cell| !cell));
}

#[test]
fn marking_keeps_cells_already_covered() {
    let classifier = Classifier::<7, Stats>::general(None, Stats { q: 1.0 });
    let mut covered = vec![true; 128];
    mark_covered_cells(&classifier, 2, 6, &mut covered);
    assert!(covered.iter().all(|&cell| cell));
}

#[test]
fn the_general_wildcard_pair_knows_everything() {
    let mut classifiers = Vec::new();
    for action in 0..2usize {
        let mut change = Classifier::<7, Stats>::general(Some(action), Stats { q: 1.0 });
        change.effect.set(6, token(1));
        classifiers.push(change);
        classifiers.push(Classifier::<7, Stats>::general(Some(action), Stats { q: 1.0 }));
    }
    let population = Population::from_classifiers(classifiers);
    assert_eq!(exhaustive_coverage(&population, &[0, 1, 2, 3]), 128);
    assert_eq!(exhaustive_coverage(&population, &[0, 2]), 64);
    assert_eq!(exhaustive_coverage(&population, &[]), 0);
    let _ = Perception::new([token(0); 7]);
}

#[test]
fn reset_shows_one_draw_below_two_per_input_bit() {
    let mut env = Multiplexer::<7, ChaChaRandomSource>::new(ChaChaRandomSource::from_seed(21));
    let mut replay = ChaChaRandomSource::from_seed(21);
    for _ in 0..5 {
        let perception = env.reset();
        for index in 0..6 {
            assert_eq!(perception.symbols[index], token(replay.gen_range(2) as u8));
        }
        assert_eq!(perception.symbols[6], token(0));
    }
}
