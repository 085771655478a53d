use acs2::classifier::Classifier;
use acs2::condition::{symbols_compatible, Condition};
use acs2::effect::Effect;
use acs2::mark::Mark;
use acs2::perception::Perception;
use acs2::population::{remap_after_removal, remove_indices, Population};
use acs2::rng::{ChaChaRandomSource, RandomSource};
use acs2::symbol::Symbol;

fn token(value: u8) -> Symbol {
    Symbol::Token(b'0' + value)
}

fn perception(values: [u8; 3]) -> Perception<3> {
    Perception::new(values.map(token))
}

fn condition(symbols: [Symbol; 3]) -> Condition<3> {
    Condition { symbols }
}

#[test]
fn symbols_are_compatible_with_wildcards_and_themselves() {
    assert!(symbols_compatible(Symbol::Wildcard, token(1)));
    assert!(symbols_compatible(token(1), Symbol::Wildcard));
    assert!(symbols_compatible(token(1), token(1)));
    assert!(!symbols_compatible(token(1), token(0)));
    assert!(Symbol::Wildcard.is_wildcard());
    assert_eq!(token(3).token(), Some(b'3'));
    assert_eq!(Symbol::Wildcard.token(), None);
    assert!(Symbol::Wildcard < token(0));
    assert_eq!(Symbol::Wildcard.rank(), 0);
    assert_eq!(token(0).rank(), 49);
}

#[test]
fn a_condition_matches_the_perceptions_its_tokens_name() {
    let general = Condition::<3>::all_wildcard();
    assert!(general.does_match(&perception([1, 0, 1])));
    let specific = condition([token(1), Symbol::Wildcard, token(0)]);
    assert!(specific.does_match(&perception([1, 1, 0])));
    assert!(!specific.does_match(&perception([0, 1, 0])));
    assert_eq!(specific.specificity(), 2);
    assert!(general.subsumes(&specific));
    assert!(!specific.subsumes(&condition([token(0), token(0), token(0)])));
}

#[test]
fn specializing_copies_tokens_and_generalizing_erases_one() {
    let mut base = condition([token(1), Symbol::Wildcard, Symbol::Wildcard]);
    base.specialize_with(&condition([Symbol::Wildcard, token(0), Symbol::Wildcard]));
    assert_eq!(base.symbols, [token(1), token(0), Symbol::Wildcard]);
    base.generalize(0);
    assert_eq!(base.symbols, [Symbol::Wildcard, token(0), Symbol::Wildcard]);
    base.set(2, token(1));
    assert_eq!(base.get(2), token(1));
}

#[test]
fn random_generalization_erases_exactly_one_token() {
    let mut rng = ChaChaRandomSource::from_seed(4);
    for _ in 0..20 {
        let mut specific = condition([token(1), token(0), token(1)]);
        specific.generalize_specific_attribute_randomly(&mut rng);
        assert_eq!(specific.specificity(), 2);
    }
    let mut general = Condition::<3>::all_wildcard();
    general.generalize_specific_attribute_randomly(&mut rng);
    assert_eq!(general, Condition::<3>::all_wildcard());
}

#[test]
fn an_effect_anticipates_changes_and_persistence() {
    let mut effect = Effect::<3>::all_wildcard();
    effect.set(2, token(1));
    assert!(effect.anticipates_correctly(&perception([1, 0, 0]), &perception([1, 0, 1])));
    assert!(!effect.anticipates_correctly(&perception([1, 0, 1]), &perception([1, 0, 1])));
    assert!(!effect.anticipates_correctly(&perception([1, 0, 0]), &perception([0, 0, 1])));
    assert!(effect.is_specializable(&perception([1, 0, 0]), &perception([0, 0, 1])));
    assert!(!effect.is_specializable(&perception([1, 0, 1]), &perception([1, 0, 1])));
    assert!(effect.specify_change());
    assert!(!Effect::<3>::all_wildcard().specify_change());
    assert!(effect.subsumes(&effect));
    assert_eq!(effect.get(2), token(1));
}

#[test]
fn a_fresh_mark_records_the_wildcard_positions() {
    let mut mark = Mark::<3>::new();
    assert!(!mark.is_marked());
    let changed = mark.set_using_condition(&condition([token(1), Symbol::Wildcard, Symbol::Wildcard]), &perception([1, 0, 1]));
    assert!(changed);
    assert!(mark.is_marked());
    assert!(mark.attribute(0).is_empty());
    assert_eq!(mark.attribute(1), &vec![token(0)]);
    assert_eq!(mark.attribute(2), &vec![token(1)]);
}

#[test]
fn a_marked_mark_is_complemented() {
    let mut mark = Mark::<3>::new();
    mark.set_using_condition(&condition([token(1), Symbol::Wildcard, token(0)]), &perception([1, 0, 0]));
    let changed = mark.set_using_condition(&condition([token(1), token(1), token(1)]), &perception([0, 1, 0]));
    assert!(changed);
    assert!(mark.attribute(0).is_empty());
    assert_eq!(mark.attribute(1), &vec![token(0), token(1)]);
    assert!(!Mark::<3>::new().complement(&perception([0, 0, 0])));
}

#[test]
fn differences_name_a_mismatch_or_every_ambiguous_position() {
    let mut rng = ChaChaRandomSource::from_seed(1);
    let mut mark = Mark::<3>::new();
    mark.insert(1, token(0));
    let diff = mark.get_differences(&perception([1, 1, 1]), &mut rng);
    assert_eq!(diff.symbols, [Symbol::Wildcard, token(1), Symbol::Wildcard]);

    let mut ambiguous = Mark::<3>::new();
    ambiguous.insert(0, token(0));
    ambiguous.insert(0, token(1));
    ambiguous.insert(2, token(1));
    let diff = ambiguous.get_differences(&perception([1, 0, 1]), &mut rng);
    assert_eq!(diff.symbols, [token(1), Symbol::Wildcard, Symbol::Wildcard]);

    assert_eq!(Mark::<3>::new().get_differences(&perception([1, 0, 1]), &mut rng), Condition::all_wildcard());
}

#[test]
fn removed_references_disappear_and_the_rest_shift_down() {
    let mut refs = vec![0usize, 2, 3, 5, 6];
    remap_after_removal(&mut refs, &[1, 3, 5]);
    assert_eq!(refs, vec![0, 1, 3]);
    let mut items = vec!['a', 'b', 'c', 'd', 'e', 'f', 'g'];
    remove_indices(&mut items, &[1, 3, 5]);
    assert_eq!(items, vec!['a', 'c', 'e', 'g']);
}

#[test]
fn match_and_action_sets_follow_conditions_and_actions() {
    let mut first = Classifier::<3, ()>::general(Some(0), ());
    first.condition.set(0, token(1));
    let second = Classifier::<3, ()>::general(Some(1), ());
    let mut third = Classifier::<3, ()>::general(Some(0), ());
    third.condition.set(0, token(0));
    third.num = 4;
    let mut population = Population::from_classifiers(vec![first, second, third]);
    assert_eq!(population.len(), 3);
    assert_eq!(population.numerosity(), 6);
    let match_set = population.form_match_set(&perception([1, 0, 0]));
    assert_eq!(match_set, vec![0, 1]);
    assert_eq!(population.form_action_set(&match_set, 0), vec![0]);
    population.remove(0);
    assert_eq!(population.len(), 2);
    let inserted = population.insert(Classifier::general(None, ()));
    assert_eq!(inserted, 2);
    population.remove_many(&[0, 2]);
    assert_eq!(population.len(), 1);
    assert_eq!(population.get(0).num, 4);
    assert!(!population.is_empty());
}

#[test]
fn specialization_fixes_what_changed() {
    let mut classifier = Classifier::<3, ()>::general(Some(1), ());
    classifier.specialize(&perception([1, 0, 0]), &perception([1, 0, 1]), false);
    assert_eq!(classifier.condition.symbols, [Symbol::Wildcard, Symbol::Wildcard, token(0)]);
    assert_eq!(classifier.effect.symbols, [Symbol::Wildcard, Symbol::Wildcard, token(1)]);
    assert!(classifier.does_anticipate_change());
    assert!(classifier.does_match(&perception([0, 1, 0])));
    assert!(classifier.does_anticipate_correctly(&perception([0, 1, 0]), &perception([0, 1, 1])));
    let general = Classifier::<3, ()>::general(Some(1), ());
    assert!(general.is_more_general(&classifier));
    assert!(!classifier.is_more_general(&general));
}

#[test]
fn covering_and_copying_start_fresh() {
    let covered = Classifier::<3, ()>::covering(1, 17, ());
    assert_eq!(covered.talp, Some(17));
    assert_eq!(covered.tga, 17);
    assert_eq!(covered.num, 1);
    let mut parent = Classifier::<3, ()>::general(Some(0), ());
    parent.num = 5;
    parent.exp = 9;
    parent.set_mark(&perception([1, 1, 1]));
    assert!(parent.is_marked());
    let child = Classifier::copy_from(&parent, 30, ());
    assert!(child.same_rule(&parent));
    assert_eq!(child.num, 1);
    assert_eq!(child.exp, 0);
    assert!(!child.is_marked());
    let mut experienced = child.clone();
    experienced.increase_experience();
    assert_eq!(experienced.exp, 1);
}

#[test]
fn a_view_lists_the_referenced_classifiers_in_order() {
    let mut first = Classifier::<2, u32>::general(Some(0), 10);
    first.num = 3;
    let second = Classifier::<2, u32>::general(Some(1), 20);
    let population = Population::from_classifiers(vec![first, second]);
    let viewed = population.view(&[1, 0, 1]);
    assert_eq!(viewed.len(), 3);
    assert_eq!(viewed[0].stats, 20);
    assert_eq!(viewed[1].stats, 10);
    assert_eq!(viewed[1].num, 3);
    assert_eq!(viewed[2].action, Some(1));
    assert!(population.view(&[]).is_empty());
}

#[test]
fn differences_draw_once_among_the_missing_positions_and_not_at_all_without_one() {
    let mut mark = Mark::<3>::new();
    mark.insert(0, token(0));
    mark.insert(2, token(0));
    for seed in 0..10u64 {
        let mut rng = ChaChaRandomSource::from_seed(seed);
        let diff = mark.get_differences(&perception([1, 1, 1]), &mut rng);
        let mut replay = ChaChaRandomSource::from_seed(seed);
        let chosen = [0usize, 2][replay.gen_range(2)];
        let mut expected = [Symbol::Wildcard; 3];
        expected[chosen] = token(1);
        assert_eq!(diff.symbols, expected);
        assert_eq!(rng.capture_state(), replay.capture_state());
    }

    let mut ambiguous = Mark::<3>::new();
    ambiguous.insert(1, token(0));
    ambiguous.insert(1, token(1));
    let mut rng = ChaChaRandomSource::from_seed(4);
    let before = rng.capture_state();
    let diff = ambiguous.get_differences(&perception([0, 1, 0]), &mut rng);
    assert_eq!(diff.symbols, [Symbol::Wildcard, token(1), Symbol::Wildcard]);
    assert_eq!(rng.capture_state(), before);
}
