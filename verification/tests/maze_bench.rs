use std::collections::VecDeque;

use acs2::maze_bench::{csv_header, Options};
use acs2::maze_data::geometry_by_id;
use acs2::reach_options::FlagProblem;

fn args(items: &[&str]) -> VecDeque<String> {
    items.iter().map(|item| item.to_string()).collect()
}

#[test]
fn the_benchmark_runs_every_known_maze_by_default() {
    let options = Options::parse(args(&[])).ok().expect("no flags are fine");
    assert_eq!(options.mazes, vec!["Maze4-v0", "Maze5-v0", "Maze7-v0", "Woods1-v0", "Woods100-v0"]);
    for maze in &options.mazes {
        assert!(geometry_by_id(maze).is_some(), "{maze} is a known maze");
    }
    assert_eq!(options.n_exp, 10);
    assert_eq!(options.seed, 42);
    assert!(!options.do_ga);
    assert_eq!(options.explore_trials, 500);
    assert_eq!(options.exploit_trials, 200);
    assert_eq!(options.exploit_phases, 3);
    assert_eq!(options.out, "reports/bench_rust.csv");
}

#[test]
fn benchmark_flags_set_their_settings() {
    let options = Options::parse(args(&[
        "--mazes", "Maze4-v0,Woods1-v0", "--n-exp", "2", "--seed", "9", "--do-ga", "--explore-trials", "50",
        "--exploit-trials", "20", "--exploit-phases", "1", "--out", "out.csv",
    ]))
    .ok()
    .expect("valid flags");
    assert_eq!(options.mazes, vec!["Maze4-v0", "Woods1-v0"]);
    assert_eq!(options.n_exp, 2);
    assert_eq!(options.seed, 9);
    assert!(options.do_ga);
    assert_eq!(options.explore_trials, 50);
    assert_eq!(options.exploit_trials, 20);
    assert_eq!(options.exploit_phases, 1);
    assert_eq!(options.out, "out.csv");
}

#[test]
fn benchmark_flags_it_cannot_read_are_refused() {
    let problem = |items: &[&str]| Options::parse(args(items)).err().map(|error| (error.problem, error.flag));
    assert_eq!(problem(&["--maze", "Maze4-v0"]), Some((FlagProblem::UnknownFlag, "--maze".to_string())));
    assert_eq!(problem(&["--out"]), Some((FlagProblem::MissingValue, "--out".to_string())));
    assert_eq!(problem(&["--n-exp", "ten"]), Some((FlagProblem::BadValue, "--n-exp".to_string())));
}

#[test]
fn the_benchmark_table_has_one_column_per_summary_field() {
    let header = csv_header();
    assert_eq!(header.split(',').count(), 10);
    assert!(header.starts_with("maze,n_exp,"));
}
