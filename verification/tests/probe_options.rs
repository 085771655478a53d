use std::collections::VecDeque;

use acs2::goal_task::GoalEncoding;
use acs2::probe_options::{Options, Regime};
use acs2::reach_options::FlagProblem;
use acs2::text::trim;

fn args(items: &[&str]) -> VecDeque<String> {
    items.iter().map(|item| item.to_string()).collect()
}

fn problem(items: &[&str]) -> Option<(FlagProblem, String)> {
    Options::parse(args(items)).err().map(|error| (error.problem, error.flag))
}

#[test]
fn trimming_removes_surrounding_whitespace_only() {
    assert_eq!(trim("  her \t"), "her");
    assert_eq!(trim("a b"), "a b");
    assert_eq!(trim("\u{3000}x\u{a0}"), "x");
    assert_eq!(trim("   "), "");
    assert_eq!(trim(""), "");
    for text in [" a ", "\n\nb", "c\r\n", "\u{2003}d e\u{2009}"] {
        assert_eq!(trim(text), text.trim());
    }
}

#[test]
fn the_probe_compares_both_regimes_and_encodings_by_default() {
    let options = Options::parse(args(&[])).ok().expect("no flags are fine");
    assert_eq!(options.maze, "Maze4-v0");
    assert_eq!(options.regimes, vec![Regime::Online, Regime::Hindsight]);
    assert_eq!(options.encodings, vec![GoalEncoding::Perception, GoalEncoding::Coordinates]);
    assert_eq!(options.seeds, vec![42, 43, 44]);
    assert_eq!(options.checkpoints, vec![125, 250, 500, 1000, 2000]);
    assert_eq!((options.her_goals, options.her_replays, options.her_buffer), (2, 4, 10_000));
    assert_eq!(options.time_cap_secs, 90);
    assert!(!options.fixed_goal);
    assert_eq!(options.goal_pool_size, None);
}

#[test]
fn probe_lists_are_read_item_by_item_without_surrounding_spaces() {
    let options = Options::parse(args(&[
        "--maze", "Woods1-v0", "--regimes", "her, acs2", "--encodings", " coordinates", "--seeds", "7 , 8",
        "--checkpoints", "10,20", "--her-goals", "3", "--her-replays", "5", "--her-buffer", "99",
        "--time-cap-secs", "30", "--goal-pool-size", "4",
    ]))
    .ok()
    .expect("valid flags");
    assert_eq!(options.maze, "Woods1-v0");
    assert_eq!(options.regimes, vec![Regime::Hindsight, Regime::Online]);
    assert_eq!(options.encodings, vec![GoalEncoding::Coordinates]);
    assert_eq!(options.seeds, vec![7, 8]);
    assert_eq!(options.checkpoints, vec![10, 20]);
    assert_eq!((options.her_goals, options.her_replays, options.her_buffer), (3, 5, 99));
    assert_eq!(options.time_cap_secs, 30);
    assert_eq!(options.goal_pool_size, Some(4));
    assert_eq!(Regime::Hindsight.label(), "her");
}

#[test]
fn probe_flags_it_cannot_read_are_refused() {
    assert_eq!(problem(&["--regimes", "acs2,xcs"]), Some((FlagProblem::BadValue, "--regimes".to_string())));
    assert_eq!(problem(&["--seeds", "1,,2"]), Some((FlagProblem::BadValue, "--seeds".to_string())));
    assert_eq!(problem(&["--her-goals", " 3"]), Some((FlagProblem::BadValue, "--her-goals".to_string())));
    assert_eq!(problem(&["--maze"]), Some((FlagProblem::MissingValue, "--maze".to_string())));
    assert_eq!(problem(&["--goal"]), Some((FlagProblem::UnknownFlag, "--goal".to_string())));
}

#[test]
fn a_fixed_goal_and_a_goal_pool_exclude_each_other() {
    assert_eq!(
        problem(&["--fixed-goal", "--goal-pool-size", "3"]),
        Some((FlagProblem::ExcludedByAnother, "--fixed-goal".to_string()))
    );
    assert!(Options::parse(args(&["--fixed-goal"])).ok().expect("alone it is fine").fixed_goal);
}

#[test]
fn snapshot_episodes_must_increase() {
    assert_eq!(problem(&["--checkpoints", "10,10"]), Some((FlagProblem::NotIncreasing, "--checkpoints".to_string())));
    assert_eq!(problem(&["--checkpoints", "20,10"]), Some((FlagProblem::NotIncreasing, "--checkpoints".to_string())));
    assert_eq!(Options::parse(args(&["--checkpoints", "5"])).ok().expect("one is fine").checkpoints, vec![5]);
}
