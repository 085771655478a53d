use acs2::alp::{commit_new_classifiers, cover, find_in_list, remove_victims, sorted_distinct};
use acs2::classifier::Classifier;
use acs2::ga::{
    action_set_numerosity, add_ga_child, delete_micro_classifier, find_identical, offspring, set_timestamps,
    stamp_totals, two_point_crossover,
};
use acs2::perception::Perception;
use acs2::population::Population;
use acs2::rng::{ChaChaRandomSource, RandomSource};
use acs2::subsumption::{does_subsume, find_subsumer, is_subsumer};
use acs2::symbol::Symbol;

fn token(value: u8) -> Symbol {
    Symbol::Token(b'0' + value)
}

fn perception(values: [u8; 3]) -> Perception<3> {
    Perception::new(values.map(token))
}

fn classifier(condition: [Symbol; 3], action: usize, num: u32) -> Classifier<3, u32> {
    let mut classifier = Classifier::general(Some(action), num);
    classifier.condition.symbols = condition;
    classifier.num = num;
    classifier
}

#[test]
fn an_experienced_reliable_general_classifier_subsumes_a_specific_one() {
    let mut general = classifier([token(1), Symbol::Wildcard, Symbol::Wildcard], 0, 1);
    general.exp = 30;
    let specific = classifier([token(1), token(0), Symbol::Wildcard], 0, 1);
    assert!(is_subsumer(&general, 20, true));
    assert!(does_subsume(&general, &specific, 20, true));
    assert!(!does_subsume(&general, &specific, 20, false));
    assert!(!does_subsume(&general, &specific, 40, true));
    assert!(!does_subsume(&general, &general, 20, true));
    let other_action = classifier([token(1), token(0), Symbol::Wildcard], 1, 1);
    assert!(!does_subsume(&general, &other_action, 20, true));
}

#[test]
fn the_most_general_subsumer_wins_and_the_first_among_equals() {
    let mut broad = classifier([Symbol::Wildcard, Symbol::Wildcard, token(0)], 0, 1);
    broad.exp = 30;
    let mut narrow = classifier([token(1), Symbol::Wildcard, token(0)], 0, 1);
    narrow.exp = 30;
    let mut also_broad = classifier([Symbol::Wildcard, Symbol::Wildcard, token(0)], 0, 1);
    also_broad.exp = 30;
    let child = classifier([token(1), token(1), token(0)], 0, 1);
    let population = Population::from_classifiers(vec![narrow, broad, also_broad]);
    assert_eq!(find_subsumer(&population, &[0, 1, 2], &[true, true, true], &child, 20), Some(1));
    assert_eq!(find_subsumer(&population, &[0, 1, 2], &[true, false, true], &child, 20), Some(2));
    assert_eq!(find_subsumer(&population, &[0], &[false], &child, 20), None);
}

#[test]
fn identical_rules_are_found_first_first() {
    let population = Population::from_classifiers(vec![
        classifier([token(1), Symbol::Wildcard, Symbol::Wildcard], 0, 1),
        classifier([token(0), Symbol::Wildcard, Symbol::Wildcard], 0, 2),
        classifier([token(0), Symbol::Wildcard, Symbol::Wildcard], 0, 3),
    ]);
    let child = classifier([token(0), Symbol::Wildcard, Symbol::Wildcard], 0, 9);
    assert_eq!(find_identical(&population, &[0, 1, 2], &child), Some(1));
    assert_eq!(find_identical(&population, &[2, 1], &child), Some(2));
    assert_eq!(find_identical(&population, &[0], &child), None);
    let list = vec![classifier([token(1), Symbol::Wildcard, Symbol::Wildcard], 0, 1), child.clone()];
    assert_eq!(find_in_list(&list, &child), Some(1));
}

#[test]
fn ga_bookkeeping_sums_and_stamps_the_action_set() {
    let mut first = classifier([token(1), Symbol::Wildcard, Symbol::Wildcard], 0, 2);
    first.tga = 10;
    let mut second = classifier([token(0), Symbol::Wildcard, Symbol::Wildcard], 0, 3);
    second.tga = 20;
    let mut population = Population::from_classifiers(vec![first, second]);
    assert_eq!(action_set_numerosity(&population, &[0, 1]), 5);
    assert_eq!(stamp_totals(&population, &[0, 1]), (80, 5));
    set_timestamps(&mut population, &[1], 99);
    assert_eq!(population.get(0).tga, 10);
    assert_eq!(population.get(1).tga, 99);
}

#[test]
fn crossover_swaps_one_contiguous_stretch() {
    let mut rng = ChaChaRandomSource::from_seed(5);
    for _ in 0..50 {
        let mut first = classifier([token(1), token(1), token(1)], 0, 1);
        let mut second = classifier([token(0), token(0), token(0)], 0, 1);
        two_point_crossover(&mut first, &mut second, &mut rng);
        let swapped: Vec<usize> = (0..3).filter(|&i| first.condition.get(i) == token(0)).collect();
        assert!(!swapped.is_empty());
        assert!(swapped.windows(2).all(|pair| pair[1] == pair[0] + 1));
        for i in 0..3 {
            assert_ne!(first.condition.get(i), second.condition.get(i));
        }
    }
}

#[test]
fn ga_children_join_or_strengthen_the_population() {
    let mut population = Population::from_classifiers(vec![classifier([token(1), Symbol::Wildcard, Symbol::Wildcard], 0, 1)]);
    let mut match_set = vec![0];
    let mut action_set = vec![0];
    let child = classifier([token(1), token(0), Symbol::Wildcard], 0, 1);
    add_ga_child(child, &perception([1, 0, 0]), &mut population, &mut match_set, &mut action_set, None);
    assert_eq!(population.len(), 2);
    assert_eq!(match_set, vec![0, 1]);
    assert_eq!(action_set, vec![0, 1]);
    let again = classifier([token(1), token(0), Symbol::Wildcard], 0, 1);
    add_ga_child(again, &perception([1, 0, 0]), &mut population, &mut match_set, &mut action_set, Some(1));
    assert_eq!(population.get(1).num, 2);
    assert_eq!(population.len(), 2);
}

#[test]
fn deletion_takes_one_micro_classifier() {
    let mut population = Population::from_classifiers(vec![
        classifier([token(1), Symbol::Wildcard, Symbol::Wildcard], 0, 2),
        classifier([token(0), Symbol::Wildcard, Symbol::Wildcard], 0, 1),
        classifier([Symbol::Wildcard, Symbol::Wildcard, Symbol::Wildcard], 0, 1),
    ]);
    let mut match_set = vec![0, 1, 2];
    let mut action_set = vec![1, 2];
    delete_micro_classifier(&mut population, &mut match_set, &mut action_set, 0);
    assert_eq!(population.get(0).num, 1);
    delete_micro_classifier(&mut population, &mut match_set, &mut action_set, 1);
    assert_eq!(population.len(), 2);
    assert_eq!(match_set, vec![0, 1]);
    assert_eq!(action_set, vec![1]);
}

#[test]
fn only_specified_distinct_children_are_kept() {
    let general = classifier([Symbol::Wildcard; 3], 0, 1);
    let specific = classifier([token(1), Symbol::Wildcard, Symbol::Wildcard], 0, 1);
    assert_eq!(offspring(general.clone(), specific.clone()).len(), 1);
    assert_eq!(offspring(specific.clone(), specific.clone()).len(), 1);
    assert_eq!(offspring(general.clone(), general.clone()).len(), 0);
    let other = classifier([token(0), Symbol::Wildcard, Symbol::Wildcard], 0, 1);
    assert_eq!(offspring(specific, other).len(), 2);
}

#[test]
fn covering_specializes_on_what_changed() {
    let covered: Classifier<3, ()> = cover(&perception([1, 0, 0]), 1, &perception([1, 1, 0]), 7, ());
    assert_eq!(covered.condition.symbols, [Symbol::Wildcard, token(0), Symbol::Wildcard]);
    assert_eq!(covered.effect.symbols, [Symbol::Wildcard, token(1), Symbol::Wildcard]);
    assert_eq!(covered.action, Some(1));
    assert_eq!(covered.talp, Some(7));
    assert!(covered.does_anticipate_correctly(&perception([1, 0, 0]), &perception([1, 1, 0])));
}

#[test]
fn new_classifiers_join_the_sets_they_belong_to() {
    let mut population = Population::from_classifiers(vec![classifier([Symbol::Wildcard; 3], 0, 1)]);
    let mut match_set = vec![0];
    let mut action_set = vec![0];
    let new_list = vec![
        classifier([token(1), Symbol::Wildcard, Symbol::Wildcard], 0, 1),
        classifier([token(0), Symbol::Wildcard, Symbol::Wildcard], 0, 1),
    ];
    commit_new_classifiers(&mut population, &mut match_set, &mut action_set, new_list, &perception([0, 1, 1]));
    assert_eq!(population.len(), 3);
    assert_eq!(action_set, vec![0, 1, 2]);
    assert_eq!(match_set, vec![0, 2]);
}

#[test]
fn victims_leave_once_and_references_shift() {
    assert_eq!(sorted_distinct(&vec![4, 1, 4, 0, 1]), vec![0, 1, 4]);
    let mut population = Population::from_classifiers(vec![
        classifier([Symbol::Wildcard; 3], 0, 1),
        classifier([token(1), Symbol::Wildcard, Symbol::Wildcard], 0, 2),
        classifier([token(0), Symbol::Wildcard, Symbol::Wildcard], 0, 3),
        classifier([token(0), token(0), Symbol::Wildcard], 0, 4),
    ]);
    let mut match_set = vec![0, 1, 2, 3];
    let mut action_set = vec![1, 3];
    remove_victims(&mut population, &mut match_set, &mut action_set, &vec![3, 1, 3]);
    assert_eq!(population.len(), 2);
    assert_eq!(population.get(1).num, 3);
    assert_eq!(match_set, vec![0, 1]);
    assert!(action_set.is_empty());
}

fn ga_classifier(condition: [Symbol; 4]) -> Classifier<4, ()> {
    let mut classifier = Classifier::general(Some(0), ());
    classifier.condition.symbols = condition;
    classifier
}

fn combined_symbols(first: &Classifier<4, ()>, second: &Classifier<4, ()>) -> Vec<Symbol> {
    let mut symbols = Vec::new();
    for index in 0..4 {
        symbols.push(first.condition.get(index));
        symbols.push(second.condition.get(index));
    }
    symbols
}

#[test]
fn ga_two_point_crossover_preserves_combined_symbols() {
    const W: Symbol = Symbol::Wildcard;
    let mut first = ga_classifier([Symbol::Token(b'1'), Symbol::Token(b'1'), W, W]);
    let mut second = ga_classifier([W, W, Symbol::Token(b'0'), Symbol::Token(b'0')]);

    let mut combined_before = combined_symbols(&first, &second);
    combined_before.sort();

    let mut rng = ChaChaRandomSource::from_seed(3);
    two_point_crossover(&mut first, &mut second, &mut rng);

    let mut combined_after = combined_symbols(&first, &second);
    combined_after.sort();

    assert_eq!(combined_before, combined_after);
}

#[test]
fn ga_crossover_cuts_where_its_two_draws_say_and_keeps_every_other_field() {
    for seed in 0..20u64 {
        let first_symbols: [Symbol; 4] = [Symbol::Token(b'a'), Symbol::Token(b'b'), Symbol::Token(b'c'), Symbol::Token(b'd')];
        let second_symbols: [Symbol; 4] = [Symbol::Token(b'w'), Symbol::Token(b'x'), Symbol::Token(b'y'), Symbol::Token(b'z')];
        let mut first = ga_classifier(first_symbols);
        first.exp = 7;
        first.tga = 11;
        first.talp = Some(13);
        first.ee = true;
        first.num = 2;
        let mut second = ga_classifier(second_symbols);
        second.exp = 3;
        second.tga = 5;

        let mut draws = ChaChaRandomSource::from_seed(seed);
        let left_pick = draws.gen_range(5);
        let mut right_pick = draws.gen_range(4);
        if right_pick >= left_pick {
            right_pick += 1;
        }
        let (left, right) = (left_pick.min(right_pick), left_pick.max(right_pick));

        let mut rng = ChaChaRandomSource::from_seed(seed);
        two_point_crossover(&mut first, &mut second, &mut rng);
        for index in 0..4 {
            let swapped = left <= index && index < right;
            let (expected_first, expected_second) = if swapped {
                (second_symbols[index], first_symbols[index])
            } else {
                (first_symbols[index], second_symbols[index])
            };
            assert_eq!(first.condition.get(index), expected_first, "seed {seed}, index {index}");
            assert_eq!(second.condition.get(index), expected_second, "seed {seed}, index {index}");
        }
        assert_eq!(rng.capture_state(), draws.capture_state());
        assert_eq!((first.exp, first.tga, first.talp, first.ee, first.num), (7, 11, Some(13), true, 2));
        assert_eq!((second.exp, second.tga, second.talp, second.ee), (3, 5, None, false));
    }
}
