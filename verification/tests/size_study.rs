use std::collections::VecDeque;

use acs2::bench::UMaxMode;
use acs2::config::AlpGenVariant;
use acs2::reach_options::FlagProblem;
use acs2::size_study::{csv_header, explore_budget_for, Options};

fn args(items: &[&str]) -> VecDeque<String> {
    items.iter().map(|item| item.to_string()).collect()
}

#[test]
fn the_size_study_runs_the_small_multiplexers_by_default() {
    let options = Options::parse(args(&[])).ok().expect("no flags are fine");
    assert_eq!(options.sizes, vec![6, 11]);
    assert_eq!(options.n_exp, 10);
    assert_eq!(options.seed, 42);
    assert_eq!(options.explore_trials_override, None);
    assert_eq!(options.exploit_trials, 200);
    assert_eq!(options.exploit_phases, 3);
    assert!(!options.skip_knowledge);
    assert!(!options.do_ga);
    assert_eq!(options.u_max_mode, UMaxMode::Default);
    assert_eq!(options.alp_gen_variant, AlpGenVariant::Pyalcs);
    assert_eq!(options.out, "reports/mpx_rust.csv");
}

#[test]
fn size_study_flags_set_their_settings() {
    let options = Options::parse(args(&[
        "--sizes", "20,37", "--n-exp", "4", "--seed", "1", "--explore-trials", "1000", "--exploit-trials", "10",
        "--exploit-phases", "2", "--skip-knowledge", "--do-ga", "--u-max", "7", "--alp-gen-variant", "butz",
        "--out", "mpx.csv",
    ]))
    .ok()
    .expect("valid flags");
    assert_eq!(options.sizes, vec![20, 37]);
    assert_eq!(options.n_exp, 4);
    assert_eq!(options.seed, 1);
    assert_eq!(options.explore_trials_override, Some(1000));
    assert_eq!(options.exploit_trials, 10);
    assert_eq!(options.exploit_phases, 2);
    assert!(options.skip_knowledge && options.do_ga);
    assert_eq!(options.u_max_mode, UMaxMode::Fixed(7));
    assert_eq!(options.alp_gen_variant, AlpGenVariant::Butz);
    assert_eq!(options.out, "mpx.csv");
}

#[test]
fn size_study_flags_it_cannot_read_are_refused() {
    let problem = |items: &[&str]| Options::parse(args(items)).err().map(|error| (error.problem, error.flag));
    assert_eq!(problem(&["--mazes", "x"]), Some((FlagProblem::UnknownFlag, "--mazes".to_string())));
    assert_eq!(problem(&["--u-max"]), Some((FlagProblem::MissingValue, "--u-max".to_string())));
    assert_eq!(problem(&["--u-max", "many"]), Some((FlagProblem::BadValue, "--u-max".to_string())));
    assert_eq!(problem(&["--sizes", "6,eleven"]), Some((FlagProblem::BadValue, "--sizes".to_string())));
}

#[test]
fn each_studied_size_has_its_explore_budget() {
    assert_eq!(explore_budget_for(6), 20_000);
    assert_eq!(explore_budget_for(11), 200_000);
    assert_eq!(explore_budget_for(20), 300_000);
    assert_eq!(explore_budget_for(37), 150_000);
    assert_eq!(explore_budget_for(70), 400_000);
    assert_eq!(explore_budget_for(135), 1_000_000);
}

#[test]
fn the_size_study_table_names_its_seventeen_columns() {
    let header = csv_header();
    assert_eq!(header.split(',').count(), 17);
    assert!(header.ends_with(",u_max,alp_gen_variant"));
}
