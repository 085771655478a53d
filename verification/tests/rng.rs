use acs2::rng::{shuffle, ChaChaRandomSource, RandomSource, RngState};
use rand::{Rng, SeedableRng};
use rand_chacha::ChaCha8Rng;

/// Makes a draw with the ChaCha8 generator at the source's position and
/// moves the source on to the position after it.
fn draw_with<T>(source: &mut ChaChaRandomSource, draw: impl FnOnce(&mut ChaCha8Rng) -> T) -> T {
    let state = source.capture_state().unwrap();
    let mut generator = ChaCha8Rng::from_seed(state.seed);
    generator.set_stream(state.stream);
    generator.set_word_pos(state.word_pos);
    let value = draw(&mut generator);
    assert!(source.restore_state(&RngState { word_pos: generator.get_word_pos(), ..state }));
    value
}

fn gen_unit(source: &mut ChaChaRandomSource) -> f64 {
    draw_with(source, |generator| generator.gen::<f64>())
}

fn gen_bool(source: &mut ChaChaRandomSource, probability: f64) -> bool {
    draw_with(source, |generator| generator.gen_bool(probability))
}

/// Moves the source to another stream, keeping its word offset.
fn set_stream(source: &mut ChaChaRandomSource, stream: u64) {
    let state = source.capture_state().unwrap();
    assert!(source.restore_state(&RngState { stream, ..state }));
}

#[test]
fn a_captured_state_resumes_the_same_stream() {
    let mut source = ChaChaRandomSource::from_seed(42);
    for _ in 0..37 {
        source.gen_range(11);
    }
    let state = source.capture_state().expect("chacha exposes its state");
    let expected: Vec<usize> = (0..64).map(|_| source.gen_range(11)).collect();

    let mut restored = ChaChaRandomSource::from_state(&state);
    let replayed: Vec<usize> = (0..64).map(|_| restored.gen_range(11)).collect();
    assert_eq!(replayed, expected);

    let mut in_place = ChaChaRandomSource::from_seed(7);
    assert!(in_place.restore_state(&state));
    let overwritten: Vec<usize> = (0..64).map(|_| in_place.gen_range(11)).collect();
    assert_eq!(overwritten, expected);
}

#[test]
fn a_capture_taken_mid_block_keeps_the_word_offset() {
    let mut source = ChaChaRandomSource::from_seed(3);
    gen_bool(&mut source, 0.5);
    let state = source.capture_state().unwrap();
    let expected: Vec<f64> = (0..8).map(|_| gen_unit(&mut source)).collect();
    let mut restored = ChaChaRandomSource::from_state(&state);
    let replayed: Vec<f64> = (0..8).map(|_| gen_unit(&mut restored)).collect();
    assert_eq!(replayed, expected);
}

#[test]
fn every_word_offset_in_a_buffer_round_trips() {
    for consumed in 0..80usize {
        let mut source = ChaChaRandomSource::from_seed(11);
        for _ in 0..consumed {
            gen_unit(&mut source);
        }
        let state = source.capture_state().unwrap();
        let expected: Vec<u64> = (0..4).map(|_| source.gen_range(usize::MAX) as u64).collect();
        let mut restored = ChaChaRandomSource::from_state(&state);
        let replayed: Vec<u64> = (0..4).map(|_| restored.gen_range(usize::MAX) as u64).collect();
        assert_eq!(replayed, expected, "diverged after {consumed} words");
    }
}

#[test]
fn a_capture_carries_the_stream_as_well_as_the_position() {
    let mut source = ChaChaRandomSource::from_seed(5);
    set_stream(&mut source, 0x0123_4567_89ab_cdef);
    gen_unit(&mut source);
    let state = source.capture_state().unwrap();
    assert_eq!(state.stream, 0x0123_4567_89ab_cdef);
    let expected: Vec<f64> = (0..4).map(|_| gen_unit(&mut source)).collect();

    let mut restored = ChaChaRandomSource::from_state(&state);
    assert_eq!(restored.capture_state().unwrap().stream, state.stream);
    assert_eq!((0..4).map(|_| gen_unit(&mut restored)).collect::<Vec<_>>(), expected);

    let mut other_stream = ChaChaRandomSource::from_seed(5);
    gen_unit(&mut other_stream);
    assert_ne!(
        (0..4).map(|_| gen_unit(&mut other_stream)).collect::<Vec<_>>(),
        expected,
        "the stream must actually change the output, or this test proves nothing"
    );
}

#[test]
fn a_state_restores_exactly_the_numbers_it_was_made_of() {
    let state = RngState { seed: [9; 32], stream: 3, word_pos: 64 };
    let restored = ChaChaRandomSource::from_state(&state);
    assert_eq!(restored.capture_state(), Some(state));
}

#[test]
fn draws_stay_below_their_bound() {
    let mut source = ChaChaRandomSource::from_seed(1);
    for bound in 1..50usize {
        for _ in 0..20 {
            assert!(source.gen_range(bound) < bound);
        }
    }
}

#[test]
fn a_shuffle_only_reorders() {
    let mut source = ChaChaRandomSource::from_seed(17);
    let mut items: Vec<u32> = (0..40).collect();
    shuffle(&mut items, &mut source);
    assert_ne!(items, (0..40).collect::<Vec<u32>>());
    items.sort();
    assert_eq!(items, (0..40).collect::<Vec<u32>>());
}

#[test]
fn a_shuffle_swaps_each_position_from_the_back_with_its_draw() {
    let items: Vec<u32> = (0..9).map(|item| item * 10).collect();
    let mut shuffled_items = items.clone();
    shuffle(&mut shuffled_items, &mut ChaChaRandomSource::from_seed(5));

    let mut draws = ChaChaRandomSource::from_seed(5);
    let mut expected = items.clone();
    for index in (1..expected.len()).rev() {
        let swap_with = draws.gen_range(index + 1);
        expected.swap(index, swap_with);
    }
    assert_eq!(shuffled_items, expected);

    let mut single = vec![7u32];
    let mut untouched = ChaChaRandomSource::from_seed(5);
    shuffle(&mut single, &mut untouched);
    assert_eq!(single, vec![7]);
    assert_eq!(untouched.gen_range(1000), ChaChaRandomSource::from_seed(5).gen_range(1000));
}

#[test]
fn a_seeded_source_draws_what_the_seeded_generator_draws() {
    let mut source = ChaChaRandomSource::from_seed(42);
    let mut generator = ChaCha8Rng::seed_from_u64(42);
    for round in 0..300usize {
        let bound = 1 + round % 37;
        assert_eq!(source.gen_range(bound), generator.gen_range(0..bound));
        if round % 5 == 0 {
            assert_eq!(gen_unit(&mut source).to_bits(), generator.gen::<f64>().to_bits());
        }
    }
    let state = source.capture_state().unwrap();
    assert_eq!(state.word_pos, generator.get_word_pos());
    assert_eq!(state.seed, generator.get_seed());
}

#[test]
fn a_seeded_source_starts_on_stream_zero_at_word_zero() {
    let state = ChaChaRandomSource::from_seed(9).capture_state().unwrap();
    assert_eq!(state.seed, ChaCha8Rng::seed_from_u64(9).get_seed());
    assert_eq!(state.stream, 0);
    assert_eq!(state.word_pos, 0);
}

#[test]
fn a_draw_moves_the_word_offset_and_keeps_key_and_stream() {
    let mut source = ChaChaRandomSource::from_state(&RngState { seed: [4; 32], stream: 6, word_pos: 10 });
    source.gen_range(1000);
    let state = source.capture_state().unwrap();
    assert_eq!(state.seed, [4; 32]);
    assert_eq!(state.stream, 6);
    assert!(state.word_pos > 10);
}

#[test]
fn many_draws_at_once_are_the_draws_made_one_by_one() {
    let mut at_once = ChaChaRandomSource::from_seed(77);
    let mut one_by_one = ChaChaRandomSource::from_seed(77);
    at_once.gen_range(3);
    one_by_one.gen_range(3);
    let drawn = at_once.draw_many(2, 45);
    let expected: Vec<usize> = (0..45).map(|_| one_by_one.gen_range(2)).collect();
    assert_eq!(drawn, expected);
    assert_eq!(at_once.capture_state(), one_by_one.capture_state());
    assert!(at_once.draw_many(5, 0).is_empty());
    assert_eq!(at_once.capture_state(), one_by_one.capture_state());
}
