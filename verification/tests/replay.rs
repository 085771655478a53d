use acs2::replay::{admit_candidate, ReplayConfiguration, ReplayMemory};

#[derive(Clone, Copy, Debug, PartialEq)]
struct Sample {
    action: usize,
}

fn sample(action: usize) -> Sample {
    Sample { action }
}

#[test]
fn replay_memory_stores_a_single_sample() {
    let mut memory = ReplayMemory::<Sample>::new(5);
    memory.update(sample(1));
    assert_eq!(memory.len(), 1);
    assert!(!memory.is_empty());
    assert_eq!(memory.get(0).action, 1);
}

#[test]
fn replay_memory_drops_the_oldest_sample_when_full() {
    let mut memory = ReplayMemory::<Sample>::new(3);
    for action in 1..=4 {
        memory.update(sample(action));
    }
    assert_eq!(memory.len(), 3);
    assert_eq!(memory.get(0).action, 2);
    assert_eq!(memory.get(1).action, 3);
    assert_eq!(memory.get(2).action, 4);
}

#[test]
fn replay_memory_never_exceeds_its_bound() {
    let mut memory = ReplayMemory::<Sample>::new(4);
    for action in 0..50 {
        memory.update(sample(action));
        assert!(memory.len() <= memory.max_size());
    }
    assert_eq!(memory.len(), 4);
    assert_eq!(memory.get(0).action, 46);
    assert_eq!(memory.get(3).action, 49);
}

#[test]
fn a_memory_of_size_zero_keeps_nothing() {
    let mut memory = ReplayMemory::<Sample>::new(0);
    memory.update(sample(7));
    memory.update(sample(8));
    assert_eq!(memory.len(), 0);
    assert!(memory.is_empty());
    assert!(memory.len() <= memory.max_size());
}

#[test]
fn sample_count_is_clamped_to_the_buffer_size() {
    let mut memory = ReplayMemory::<Sample>::new(64);
    for action in 0..3 {
        memory.update(sample(action));
    }
    assert_eq!(memory.sample_count(10), 3);
    assert_eq!(memory.sample_count(2), 2);
    assert_eq!(memory.sample_count(0), 0);
}

#[test]
fn admission_redraws_until_the_indices_are_distinct() {
    let mut chosen = Vec::new();
    let mut draws = vec![2usize, 2, 4, 4, 2, 0].into_iter();
    let mut consumed = 0;
    while chosen.len() < 3 {
        let candidate = draws.next().unwrap();
        consumed += 1;
        admit_candidate(&mut chosen, candidate);
    }
    assert_eq!(chosen, vec![2, 4, 0]);
    assert_eq!(consumed, 6);
}

#[test]
fn admission_reports_whether_the_index_was_new() {
    let mut chosen = vec![1usize, 3];
    assert!(!admit_candidate(&mut chosen, 3));
    assert_eq!(chosen, vec![1, 3]);
    assert!(admit_candidate(&mut chosen, 0));
    assert_eq!(chosen, vec![1, 3, 0]);
}

#[test]
fn the_default_protocol_replays_three_of_ten_thousand() {
    let configuration = ReplayConfiguration::default_protocol();
    assert_eq!(configuration.buffer_size, 10_000);
    assert_eq!(configuration.min_samples, 1_000);
    assert_eq!(configuration.samples_number, 3);
    assert_eq!(ReplayConfiguration::default(), configuration);
}
