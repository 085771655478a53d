use std::collections::VecDeque;

use acs2::bench::{AgentChoice, UMaxMode};
use acs2::config::AlpGenVariant;
use acs2::reach_options::{FlagProblem, Options, DEFAULT_KNOWLEDGE_EVAL_INTERVAL, DEFAULT_TIME_CAP_SECS};

fn args(items: &[&str]) -> VecDeque<String> {
    items.iter().map(|item| item.to_string()).collect()
}

fn parsed(items: &[&str]) -> Options {
    match Options::parse(args(items)) {
        Ok(options) => options,
        Err(error) => panic!("{:?} at {}", error.problem, error.flag),
    }
}

fn refused(items: &[&str]) -> (FlagProblem, String) {
    match Options::parse(args(items)) {
        Ok(_) => panic!("accepted {items:?}"),
        Err(error) => (error.problem, error.flag),
    }
}

#[test]
fn no_flags_give_the_defaults() {
    let options = parsed(&[]);
    assert_eq!(options.sizes, vec![37, 70, 135]);
    assert_eq!(options.n_exp, 3);
    assert_eq!(options.seed, 42);
    assert_eq!(options.time_cap_secs, DEFAULT_TIME_CAP_SECS);
    assert!(options.do_ga);
    assert_eq!(options.u_max_mode, UMaxMode::Default);
    assert_eq!(options.alp_gen_variant, AlpGenVariant::Pyalcs);
    assert_eq!(options.eval_interval, DEFAULT_KNOWLEDGE_EVAL_INTERVAL);
    assert!(!options.log_trajectory && !options.log_diagnostics && !options.log_coverage);
    assert!(!options.log_quadrant_detail && !options.log_accuracy);
    assert_eq!(options.encoding, "flip");
    assert_eq!(options.epsilon, None);
    assert_eq!(options.accuracy_every, 1);
    assert_eq!(options.rss_cap_gb, None);
    assert_eq!(options.agent.agent, AgentChoice::Acs2);
    assert!(!options.strict_resource_limits && !options.isolate_repeats);
    assert_eq!(options.checkpoint_path, None);
    assert_eq!(options.checkpoint_every, 0);
    assert!(!options.checkpoint_allow_eval_change);
}

#[test]
fn every_flag_sets_its_setting() {
    let options = parsed(&[
        "--sizes", "6,11", "--n-exp", "1", "--seed", "7", "--time-cap-secs", "3600", "--do-ga", "false",
        "--u-max", "derived", "--alp-gen-variant", "butz", "--eval-interval", "750", "--log-trajectory",
        "--log-diagnostics", "--log-coverage", "--log-quadrant-detail", "--epsilon", "0.5", "--log-accuracy",
        "--accuracy-every", "3", "--strict-resource-limits", "--isolate-repeats", "--checkpoint-path", "run.ckpt",
        "--checkpoint-allow-eval-change", "--checkpoint-every", "500", "--rss-cap-gb", "2.5", "--encoding",
        "outcome", "--agent", "acs2er", "--er-buffer-size", "64", "--er-min-samples", "32",
        "--er-samples-number", "1",
    ]);
    assert_eq!(options.sizes, vec![6, 11]);
    assert_eq!(options.n_exp, 1);
    assert_eq!(options.seed, 7);
    assert_eq!(options.time_cap_secs, 3600);
    assert!(!options.do_ga);
    assert_eq!(options.u_max_mode, UMaxMode::Derived);
    assert_eq!(options.alp_gen_variant, AlpGenVariant::Butz);
    assert_eq!(options.eval_interval, 750);
    assert!(options.log_trajectory && options.log_diagnostics && options.log_coverage);
    assert!(options.log_quadrant_detail && options.log_accuracy);
    assert_eq!(options.epsilon.as_deref(), Some("0.5"));
    assert_eq!(options.accuracy_every, 3);
    assert!(options.strict_resource_limits && options.isolate_repeats);
    assert_eq!(options.checkpoint_path.as_deref(), Some("run.ckpt"));
    assert!(options.checkpoint_allow_eval_change);
    assert_eq!(options.checkpoint_every, 500);
    assert_eq!(options.rss_cap_gb.as_deref(), Some("2.5"));
    assert_eq!(options.encoding, "outcome");
    assert_eq!(options.agent.agent, AgentChoice::Acs2Er);
    assert_eq!(options.agent.replay.buffer_size, 64);
    assert_eq!(options.agent.replay.min_samples, 32);
    assert_eq!(options.agent.replay.samples_number, 1);
}

#[test]
fn a_later_flag_overrides_an_earlier_one() {
    let options = parsed(&["--u-max", "5", "--seed", "1", "--seed", "2", "--do-ga", "true"]);
    assert_eq!(options.u_max_mode, UMaxMode::Fixed(5));
    assert_eq!(options.seed, 2);
    assert!(options.do_ga);
}

#[test]
fn refused_flags_name_their_problem() {
    assert_eq!(refused(&["--frobnicate"]), (FlagProblem::UnknownFlag, "--frobnicate".to_string()));
    assert_eq!(refused(&["--seed"]), (FlagProblem::MissingValue, "--seed".to_string()));
    assert_eq!(refused(&["--seed", "x"]), (FlagProblem::BadValue, "--seed".to_string()));
    assert_eq!(refused(&["--sizes", "6,,11"]), (FlagProblem::BadValue, "--sizes".to_string()));
    assert_eq!(refused(&["--do-ga", "yes"]), (FlagProblem::BadValue, "--do-ga".to_string()));
    assert_eq!(refused(&["--accuracy-every", "0"]), (FlagProblem::ZeroAccuracyInterval, "--accuracy-every".to_string()));
    assert_eq!(refused(&["--accuracy-every", "-1"]), (FlagProblem::BadValue, "--accuracy-every".to_string()));
    assert_eq!(refused(&["--encoding", "gray"]), (FlagProblem::BadValue, "--encoding".to_string()));
    assert_eq!(refused(&["--agent", "xcs"]), (FlagProblem::BadValue, "--agent".to_string()));
    assert_eq!(refused(&["--er-buffer-size"]), (FlagProblem::MissingValue, "--er-buffer-size".to_string()));
    assert_eq!(refused(&["--n-exp", "4294967296"]), (FlagProblem::BadValue, "--n-exp".to_string()));
}

#[test]
fn the_first_problem_stops_the_reading() {
    assert_eq!(refused(&["--log-coverage", "--bogus", "--seed", "x"]), (FlagProblem::UnknownFlag, "--bogus".to_string()));
}
