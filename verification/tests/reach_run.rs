use acs2::reach::{trials_cap_for, Verdict};
use acs2::reach_run::{
    check_resume, ReachAction, ReachEvent, ReachLimits, ReachRun, ResumeRefusal, SavedProgress,
    TIME_CHECK_BATCH,
};

const MILLI: u128 = 1_000_000;
const SECOND: u128 = 1_000 * MILLI;

fn limits() -> ReachLimits {
    ReachLimits {
        trials_cap: 1500,
        time_cap_nanos: 60 * SECOND,
        eval_interval: 1000,
        log_accuracy: false,
        accuracy_every: 1,
        rss_cap_bytes: u64::MAX,
        strict_resource_limits: false,
    }
}

/// Drives a run whose agent takes one step per trial and never changes;
/// every measurement finds knowledge `complete`, and reading the clock
/// after a measurement gives `measured_after`.
fn drive(run: &mut ReachRun, complete: bool, measured_after: u128) -> (Verdict, Vec<ReachAction>) {
    let mut actions = vec![run.pending];
    let mut action = run.pending;
    loop {
        let event = match action {
            ReachAction::TrainBatch => ReachEvent::Trained {
                steps: TIME_CHECK_BATCH,
                population: 4,
                rss: 0,
                elapsed_nanos: 0,
            },
            ReachAction::MeasureKnowledge { .. } => ReachEvent::Measured {
                complete,
                rss: 0,
                elapsed_nanos: measured_after,
            },
            ReachAction::SaveProgress => ReachEvent::Saved,
            ReachAction::Finish(verdict) => return (verdict, actions),
        };
        action = run.advance(event);
        actions.push(action);
    }
}

fn run_once(limits: ReachLimits, complete: bool, measured_after: u128) -> ReachRun {
    let mut run = ReachRun::fresh(limits, None, 0);
    drive(&mut run, complete, measured_after);
    run
}

#[test]
fn verdict_requires_a_measurement_at_the_terminal_trial() {
    let mut limits = limits();
    let mut stale = ReachRun::fresh(limits, None, 0);
    let (verdict, _) = drive(&mut stale, false, 0);
    assert_eq!(stale.trials_used, 1500);
    assert_eq!(verdict, Verdict::TrialsLimited);
    assert!(!stale.knowledge_is_current());
    limits.eval_interval = 2000;
    assert!(!run_once(limits, false, 0).knowledge_is_current());
    limits.eval_interval = 500;
    let measured = run_once(limits, false, 0);
    assert!(measured.knowledge_is_current());
    assert!(!measured.knowledge_complete);
    let mut success = ReachRun::fresh(limits, None, 0);
    let (verdict, _) = drive(&mut success, true, 0);
    assert_eq!(verdict, Verdict::Success);
    assert_eq!(success.trials_used, 500);
    assert!(success.knowledge_is_current());
    assert!(success.knowledge_complete);
}

#[test]
fn strict_limits_check_evaluation_cost_before_success() {
    let mut limits = limits();
    limits.time_cap_nanos = 300 * MILLI;
    limits.eval_interval = 500;
    let delay = 400 * MILLI;
    let mut relaxed = ReachRun::fresh(limits, None, 0);
    assert_eq!(drive(&mut relaxed, true, delay).0, Verdict::Success);
    limits.strict_resource_limits = true;
    let mut strict = ReachRun::fresh(limits, None, 0);
    assert_eq!(drive(&mut strict, true, delay).0, Verdict::TimeLimited);
    assert!(strict.knowledge_is_current());
    assert!(strict.knowledge_complete);
    limits.rss_cap_bytes = 100;
    assert_eq!(limits.resource_verdict(0, 101), Some(Verdict::MemoryLimited));
    assert_eq!(limits.resource_verdict(0, 100), None);
}

#[test]
fn memory_is_checked_before_time() {
    let mut limits = limits();
    limits.rss_cap_bytes = 10;
    limits.time_cap_nanos = 5;
    assert_eq!(limits.resource_verdict(6, 11), Some(Verdict::MemoryLimited));
    assert_eq!(limits.resource_verdict(6, 10), Some(Verdict::TimeLimited));
    assert_eq!(limits.resource_verdict(5, 10), None);
}

#[test]
fn a_batch_that_breaks_a_cap_stops_the_run() {
    let mut limits = limits();
    limits.rss_cap_bytes = 1000;
    let mut run = ReachRun::fresh(limits, None, 0);
    assert_eq!(run.pending, ReachAction::TrainBatch);
    let action = run.advance(ReachEvent::Trained { steps: 700, population: 9, rss: 1001, elapsed_nanos: 0 });
    assert_eq!(action, ReachAction::Finish(Verdict::MemoryLimited));
    assert_eq!(run.trials_used, TIME_CHECK_BATCH);
    assert_eq!(run.time, 700);
    assert_eq!(run.peak_macro_population, 9);
    assert_eq!(run.peak_rss, 1001);

    let mut slow = ReachRun::fresh(self::limits(), None, 0);
    let action = slow.advance(ReachEvent::Trained { steps: 1, population: 1, rss: 0, elapsed_nanos: 61 * SECOND });
    assert_eq!(action, ReachAction::Finish(Verdict::TimeLimited));
}

#[test]
fn measurements_follow_the_evaluation_interval() {
    let mut limits = limits();
    limits.trials_cap = 3000;
    limits.eval_interval = 1000;
    let mut run = ReachRun::fresh(limits, None, 0);
    let (verdict, actions) = drive(&mut run, false, 0);
    assert_eq!(verdict, Verdict::TrialsLimited);
    let measurements = actions
        .iter()
        .filter(|action| matches!(action, ReachAction::MeasureKnowledge { .. }))
        .count();
    assert_eq!(measurements, 3);
    assert_eq!(run.knowledge_trials, Some(3000));
    assert_eq!(run.trials_since_eval, 0);
}

#[test]
fn progress_is_saved_at_its_interval() {
    let mut limits = limits();
    limits.trials_cap = 2000;
    let mut run = ReachRun::fresh(limits, Some(1000), 0);
    let (_, actions) = drive(&mut run, false, 0);
    let saves = actions.iter().filter(|action| **action == ReachAction::SaveProgress).count();
    assert_eq!(saves, 2);
    let mut never = ReachRun::fresh(limits, Some(0), 0);
    let (_, actions) = drive(&mut never, false, 0);
    assert!(!actions.contains(&ReachAction::SaveProgress));
}

#[test]
fn accuracy_is_reported_on_its_own_schedule() {
    let mut limits = limits();
    limits.trials_cap = 4000;
    limits.eval_interval = 500;
    limits.log_accuracy = true;
    limits.accuracy_every = 3;
    assert_eq!(limits.accuracy_step(), 1500);
    let mut run = ReachRun::fresh(limits, None, 0);
    assert_eq!(run.accuracy_due_at, 1500);
    let (_, actions) = drive(&mut run, false, 0);
    let reports: Vec<bool> = actions
        .iter()
        .filter_map(|action| match action {
            ReachAction::MeasureKnowledge { report_accuracy } => Some(*report_accuracy),
            _ => None,
        })
        .collect();
    assert_eq!(reports, vec![false, false, true, false, false, true, false, false]);
}

fn saved_at_the_save(limits: ReachLimits) -> (ReachRun, SavedProgress) {
    let mut run = ReachRun::fresh(limits, Some(500), 0);
    let mut action = run.pending;
    while action != ReachAction::SaveProgress {
        let event = match action {
            ReachAction::TrainBatch => ReachEvent::Trained { steps: 800, population: 3, rss: 7, elapsed_nanos: 0 },
            ReachAction::MeasureKnowledge { .. } => ReachEvent::Measured { complete: false, rss: 0, elapsed_nanos: 0 },
            other => panic!("unexpected {other:?}"),
        };
        action = run.advance(event);
    }
    let saved = SavedProgress {
        time: run.time,
        trials_used: run.trials_used,
        trials_since_eval: run.trials_since_eval,
        peak_macro_population: run.peak_macro_population,
        peak_rss: run.peak_rss,
        knowledge_trials: run.knowledge_trials,
        knowledge_complete: run.knowledge_complete,
        closed_with_success: false,
    };
    (run, saved)
}

#[test]
fn a_resumed_run_reproduces_an_uninterrupted_trajectory() {
    let mut limits = limits();
    limits.trials_cap = 2500;
    limits.eval_interval = 750;
    let (mut uninterrupted, saved) = saved_at_the_save(limits);
    let mut resumed = ReachRun::resume(limits, Some(500), saved);
    let first = uninterrupted.advance(ReachEvent::Saved);
    assert_eq!(resumed.pending, first);
    let (left, left_actions) = drive(&mut uninterrupted, false, 0);
    let (right, right_actions) = drive(&mut resumed, false, 0);
    assert_eq!(left, right);
    assert_eq!(left_actions, right_actions);
    assert_eq!(uninterrupted.trials_used, resumed.trials_used);
    assert_eq!(uninterrupted.time, resumed.time);
    assert_eq!(uninterrupted.knowledge_trials, resumed.knowledge_trials);
}

#[test]
fn a_finished_checkpoint_is_reported_once_and_never_relearned() {
    let saved = SavedProgress {
        time: 9000,
        trials_used: 3000,
        trials_since_eval: 0,
        peak_macro_population: 40,
        peak_rss: 1,
        knowledge_trials: Some(3000),
        knowledge_complete: true,
        closed_with_success: true,
    };
    let mut limits = limits();
    limits.trials_cap = 12000;
    let run = ReachRun::resume(limits, None, saved);
    assert_eq!(run.pending, ReachAction::Finish(Verdict::Success));
    assert!(run.already_reported);
    assert_eq!(run.trials_used, 3000);
    assert!(!run.saves_verdict(true));
    assert!(!run.saves_verdict(false));
    assert!(ReachRun::fresh(limits, None, 0).saves_verdict(true));
}

#[test]
fn a_run_measured_complete_before_its_clock_ran_out_resumes_as_solved() {
    let saved = SavedProgress {
        time: 100,
        trials_used: 1500,
        trials_since_eval: 0,
        peak_macro_population: 5,
        peak_rss: 1,
        knowledge_trials: Some(1500),
        knowledge_complete: true,
        closed_with_success: false,
    };
    let run = ReachRun::resume(limits(), None, saved);
    assert_eq!(run.pending, ReachAction::Finish(Verdict::Success));
    assert!(!run.already_reported);
    assert!(run.knowledge_is_current());
}

#[test]
fn a_resource_cap_does_not_swallow_an_evaluation_that_was_due() {
    let saved = SavedProgress {
        time: 100,
        trials_used: 1000,
        trials_since_eval: 1000,
        peak_macro_population: 5,
        peak_rss: 1,
        knowledge_trials: None,
        knowledge_complete: false,
        closed_with_success: false,
    };
    let mut run = ReachRun::resume(limits(), None, saved);
    assert_eq!(run.pending, ReachAction::MeasureKnowledge { report_accuracy: false });
    assert_eq!(run.trials_since_eval, 0);
    let next = run.advance(ReachEvent::Measured { complete: false, rss: 0, elapsed_nanos: 0 });
    assert_eq!(next, ReachAction::TrainBatch);
    assert_eq!(run.knowledge_trials, Some(1000));

    let not_owed = SavedProgress { trials_since_eval: 500, ..saved };
    assert_eq!(ReachRun::resume(limits(), None, not_owed).pending, ReachAction::TrainBatch);
}

#[test]
fn a_spent_budget_stops_before_training() {
    let saved = SavedProgress {
        time: 100,
        trials_used: 1500,
        trials_since_eval: 500,
        peak_macro_population: 5,
        peak_rss: 1,
        knowledge_trials: Some(1000),
        knowledge_complete: false,
        closed_with_success: false,
    };
    let run = ReachRun::resume(limits(), None, saved);
    assert_eq!(run.pending, ReachAction::Finish(Verdict::TrialsLimited));
}

#[test]
fn a_saved_run_resumes_only_under_its_own_configuration() {
    assert_eq!(check_resume("size=6 seed=42", "size=6 seed=42", 750, 750, false), Ok(false));
    assert_eq!(
        check_resume("size=6 seed=42", "size=6 seed=43", 750, 750, true),
        Err(ResumeRefusal::OtherConfiguration)
    );
    assert_eq!(
        check_resume("size=6 seed=42", "size=6 seed=42", 750, 500, false),
        Err(ResumeRefusal::OtherEvalInterval)
    );
    assert_eq!(check_resume("size=6 seed=42", "size=6 seed=42", 750, 500, true), Ok(true));
}

#[test]
fn the_trial_budget_doubles_per_bit_and_clamps_at_the_largest_u64() {
    assert_eq!(trials_cap_for(6), 200_000);
    assert_eq!(trials_cap_for(7), 400_000);
    assert_eq!(trials_cap_for(20), 3_276_800_000);
    assert_eq!(trials_cap_for(129), u64::MAX);
    assert_eq!(trials_cap_for(264), u64::MAX);
}

#[test]
fn a_checkpoint_refuses_a_configuration_it_was_not_written_for() {
    assert_eq!(
        check_resume("mpx6 seed=42 gen=on", "mpx6 seed=43 gen=on", 750, 750, false),
        Err(ResumeRefusal::OtherConfiguration)
    );
    assert_eq!(
        check_resume("mpx6 seed=42 gen=on", "mpx6 seed=42 gen=on", 750, 1500, false),
        Err(ResumeRefusal::OtherEvalInterval)
    );
}

#[test]
fn resuming_at_another_evaluation_interval_takes_an_explicit_decision() {
    let saved = SavedProgress {
        time: 100,
        trials_used: 1000,
        trials_since_eval: 200,
        peak_macro_population: 5,
        peak_rss: 1,
        knowledge_trials: None,
        knowledge_complete: false,
        closed_with_success: false,
    };
    let mut faster = limits();
    faster.eval_interval = limits().eval_interval * 2;
    assert_eq!(
        check_resume("mpx6", "mpx6", limits().eval_interval, faster.eval_interval, false),
        Err(ResumeRefusal::OtherEvalInterval)
    );
    assert_eq!(check_resume("mpx6", "mpx6", limits().eval_interval, faster.eval_interval, true), Ok(true));
    let (run, changed) = ReachRun::resume_checkpoint("mpx6", "mpx6", limits().eval_interval, true, faster, None, saved);
    assert!(changed);
    assert_eq!(run.trials_used, 1000);
    let (_, unchanged) = ReachRun::resume_checkpoint("mpx6", "mpx6", limits().eval_interval, false, limits(), None, saved);
    assert!(!unchanged);
}

#[test]
fn a_checkpoint_refuses_a_changed_learning_configuration() {
    let written_for = "mpx6 seed=42 do_ga=true u_max=derived variant=pyalcs";
    for changed in [
        "mpx6 seed=42 do_ga=false u_max=derived variant=pyalcs",
        "mpx6 seed=42 do_ga=true u_max=3 variant=pyalcs",
        "mpx6 seed=42 do_ga=true u_max=derived variant=butz",
    ] {
        assert_eq!(check_resume(written_for, changed, 750, 750, true), Err(ResumeRefusal::OtherConfiguration));
    }
    assert_eq!(check_resume(written_for, written_for, 750, 750, false), Ok(false));
}
