use vstd::prelude::*;

use crate::reach::{next_accuracy_trial, Verdict};
use crate::text::same_text;

verus! {

/// How many explore trials a run makes between two looks at the clock and
/// at its memory.
pub const TIME_CHECK_BATCH: u64 = 500;

/// What decides when a run towards full knowledge stops and when it
/// measures: the trial budget, the wall-clock cap of this process (in
/// nanoseconds), how many trials lie between two measurements of
/// knowledge, whether and how often answer accuracy is reported, the
/// memory cap, and whether the caps are checked again after a measurement.
#[derive(Clone, Copy, PartialEq, Eq, Debug, Structural)]
pub struct ReachLimits {
    pub trials_cap: u64,
    pub time_cap_nanos: u128,
    pub eval_interval: u64,
    pub log_accuracy: bool,
    pub accuracy_every: u64,
    pub rss_cap_bytes: u64,
    pub strict_resource_limits: bool,
}

/// The verdict the caps give for a run that has been running for
/// `elapsed_nanos` and peaked at `peak_rss` bytes.
pub open spec fn resource_verdict_of(limits: ReachLimits, elapsed_nanos: u128, peak_rss: u64) -> Option<Verdict> {
    if peak_rss > limits.rss_cap_bytes {
        Some(Verdict::MemoryLimited)
    } else if elapsed_nanos > limits.time_cap_nanos {
        Some(Verdict::TimeLimited)
    } else {
        None
    }
}

/// The number of trials between two reports of accuracy: the evaluation
/// interval times `accuracy_every`, saturating, and never fewer than the
/// evaluation interval.
pub open spec fn accuracy_step_of(limits: ReachLimits) -> u64 {
    let product = limits.eval_interval * limits.accuracy_every;
    let saturated: u64 = if product > u64::MAX {
        u64::MAX
    } else {
        product as u64
    };
    if saturated < limits.eval_interval {
        limits.eval_interval
    } else {
        saturated
    }
}

/// The first multiple of `step` after `trials_used`, saturating.
pub open spec fn next_multiple(trials_used: u64, step: u64) -> u64 {
    let next = (trials_used / step + 1) * step;
    if next > u64::MAX {
        u64::MAX
    } else {
        next as u64
    }
}

impl ReachLimits {
    /// Which cap, if any, a run has broken: memory first, then time.
    pub fn resource_verdict(&self, elapsed_nanos: u128, peak_rss: u64) -> (result: Option<Verdict>)
        ensures
            result == resource_verdict_of(*self, elapsed_nanos, peak_rss),
    {
        if peak_rss > self.rss_cap_bytes {
            Some(Verdict::MemoryLimited)
        } else if elapsed_nanos > self.time_cap_nanos {
            Some(Verdict::TimeLimited)
        } else {
            None
        }
    }

    pub fn accuracy_step(&self) -> (result: u64)
        ensures
            result == accuracy_step_of(*self),
    {
        let product = match self.eval_interval.checked_mul(self.accuracy_every) {
            Some(product) => product,
            None => u64::MAX,
        };
        if product < self.eval_interval {
            self.eval_interval
        } else {
            product
        }
    }
}

/// What a run asks of the loop that drives it.
#[derive(Clone, Copy, PartialEq, Eq, Debug, Structural)]
pub enum ReachAction {
    /// Run `TIME_CHECK_BATCH` explore trials, then report `Trained`.
    TrainBatch,
    /// Measure knowledge (and, when asked, answer accuracy), then report
    /// `Measured`.
    MeasureKnowledge { report_accuracy: bool },
    /// Save the run's progress without a verdict, then report `Saved`.
    SaveProgress,
    /// Stop with this verdict.
    Finish(Verdict),
}

/// What the loop reports back after doing what a run asked.
#[derive(Clone, Copy, PartialEq, Eq, Debug, Structural)]
pub enum ReachEvent {
    /// A batch of trials ran: the steps they took, the population size
    /// after them, and the process's peak memory and elapsed time.
    Trained { steps: u64, population: usize, rss: u64, elapsed_nanos: u128 },
    /// Knowledge was measured: whether it is complete, and the peak memory
    /// and elapsed time read after the measurement.
    Measured { complete: bool, rss: u64, elapsed_nanos: u128 },
    /// Progress was saved.
    Saved,
}

/// The counters and decisions of one run towards full knowledge, and the
/// action it waits on.
#[derive(Clone, Copy, PartialEq, Eq, Debug, Structural)]
pub struct ReachRun {
    pub limits: ReachLimits,
    /// How many trials lie between two saves of progress, where progress
    /// is saved at all.
    pub checkpoint_every: Option<u64>,
    pub time: u64,
    pub trials_used: u64,
    pub trials_since_eval: u64,
    pub trials_since_checkpoint: u64,
    pub peak_macro_population: usize,
    pub peak_rss: u64,
    /// The trial at which knowledge was last measured.
    pub knowledge_trials: Option<u64>,
    /// Whether the last measurement found knowledge complete.
    pub knowledge_complete: bool,
    pub accuracy_due_at: u64,
    /// Whether the next pass trains before it may measure; false only on
    /// a resume that owes a measurement.
    pub train_before_measuring: bool,
    /// Whether the run was closed with a verdict before this process.
    pub already_reported: bool,
    /// The action the run waits on.
    pub pending: ReachAction,
}

/// The run at the top of a pass that trains: it stops on its trial budget,
/// else it trains.
pub open spec fn train_or_stop(run: ReachRun) -> ReachRun {
    ReachRun {
        pending: if run.trials_used >= run.limits.trials_cap {
            ReachAction::Finish(Verdict::TrialsLimited)
        } else {
            ReachAction::TrainBatch
        },
        ..run
    }
}

/// Whether progress is due to be saved.
pub open spec fn save_due(run: ReachRun) -> bool {
    &&& run.checkpoint_every is Some
    &&& run.checkpoint_every->0 > 0
    &&& run.trials_since_checkpoint >= run.checkpoint_every->0
}

/// The end of a pass: save when a save is due, else go back to the top.
pub open spec fn save_or_go_on(run: ReachRun) -> ReachRun {
    if save_due(run) {
        ReachRun { trials_since_checkpoint: 0, pending: ReachAction::SaveProgress, ..run }
    } else {
        train_or_stop(run)
    }
}

/// The middle of a pass: measure when the evaluation interval has been
/// reached (reporting accuracy where it is asked for and due), else go on
/// to the end of the pass.
pub open spec fn measure_or_go_on(run: ReachRun) -> ReachRun {
    let run = ReachRun { train_before_measuring: true, ..run };
    if run.trials_since_eval >= run.limits.eval_interval {
        let report = run.limits.log_accuracy && run.trials_used >= run.accuracy_due_at;
        ReachRun {
            trials_since_eval: 0,
            accuracy_due_at: if report {
                next_multiple(run.trials_used, accuracy_step_of(run.limits))
            } else {
                run.accuracy_due_at
            },
            pending: ReachAction::MeasureKnowledge { report_accuracy: report },
            ..run
        }
    } else {
        save_or_go_on(run)
    }
}

/// The top of a pass.
pub open spec fn pass_start(run: ReachRun) -> ReachRun {
    if run.train_before_measuring {
        train_or_stop(run)
    } else {
        measure_or_go_on(run)
    }
}

pub open spec fn max_u64(a: u64, b: u64) -> u64 {
    if a >= b {
        a
    } else {
        b
    }
}

pub open spec fn max_usize(a: usize, b: usize) -> usize {
    if a >= b {
        a
    } else {
        b
    }
}

/// The run after a batch of trials: the counters move on by the batch,
/// the peaks take the new readings, and the memory and time caps are
/// checked before anything else.
pub open spec fn after_batch(run: ReachRun, steps: u64, population: usize, rss: u64, elapsed_nanos: u128) -> ReachRun {
    let run = ReachRun {
        time: (run.time + steps) as u64,
        trials_used: (run.trials_used + TIME_CHECK_BATCH) as u64,
        trials_since_eval: (run.trials_since_eval + TIME_CHECK_BATCH) as u64,
        trials_since_checkpoint: (run.trials_since_checkpoint + TIME_CHECK_BATCH) as u64,
        peak_macro_population: max_usize(run.peak_macro_population, population),
        peak_rss: max_u64(run.peak_rss, rss),
        ..run
    };
    if run.peak_rss > run.limits.rss_cap_bytes {
        ReachRun { pending: ReachAction::Finish(Verdict::MemoryLimited), ..run }
    } else if elapsed_nanos > run.limits.time_cap_nanos {
        ReachRun { pending: ReachAction::Finish(Verdict::TimeLimited), ..run }
    } else {
        measure_or_go_on(run)
    }
}

/// The run after a measurement: it records the trial and the result; under
/// strict limits it checks the caps again, which then win over success;
/// complete knowledge ends the run; otherwise the pass goes on.
pub open spec fn after_measurement(run: ReachRun, complete: bool, rss: u64, elapsed_nanos: u128) -> ReachRun {
    let run = ReachRun {
        knowledge_trials: Some(run.trials_used),
        knowledge_complete: complete,
        peak_rss: if run.limits.strict_resource_limits {
            max_u64(run.peak_rss, rss)
        } else {
            run.peak_rss
        },
        ..run
    };
    let capped = resource_verdict_of(run.limits, elapsed_nanos, run.peak_rss);
    if run.limits.strict_resource_limits && capped is Some {
        ReachRun { pending: ReachAction::Finish(capped->0), ..run }
    } else if complete {
        ReachRun { pending: ReachAction::Finish(Verdict::Success), ..run }
    } else {
        save_or_go_on(run)
    }
}

/// Whether `event` answers the action the run waits on.
pub open spec fn answers(run: ReachRun, event: ReachEvent) -> bool {
    match event {
        ReachEvent::Trained { .. } => run.pending is TrainBatch,
        ReachEvent::Measured { .. } => run.pending is MeasureKnowledge,
        ReachEvent::Saved => run.pending is SaveProgress,
    }
}

/// Whether the counters can take `event` without overflowing.
pub open spec fn fits(run: ReachRun, event: ReachEvent) -> bool {
    match event {
        ReachEvent::Trained { steps, .. } => {
            &&& run.time + steps <= u64::MAX
            &&& run.trials_used + TIME_CHECK_BATCH <= u64::MAX
            &&& run.trials_since_eval + TIME_CHECK_BATCH <= u64::MAX
            &&& run.trials_since_checkpoint + TIME_CHECK_BATCH <= u64::MAX
        },
        _ => true,
    }
}

/// The run after `event`.
pub open spec fn next_run(run: ReachRun, event: ReachEvent) -> ReachRun {
    match event {
        ReachEvent::Trained { steps, population, rss, elapsed_nanos } => after_batch(
            run,
            steps,
            population,
            rss,
            elapsed_nanos,
        ),
        ReachEvent::Measured { complete, rss, elapsed_nanos } => after_measurement(run, complete, rss, elapsed_nanos),
        ReachEvent::Saved => pass_start(run),
    }
}

/// A run that can be driven: its evaluation interval is positive (the
/// accuracy schedule divides by it); once it hands out work it trains
/// before it measures again; it asks for training only while its trial
/// budget is not spent; it measures with no trials counted since the last
/// measurement; it saves progress with fewer trials than the interval
/// since the last measurement and with the save counter reset; and only a
/// finished run can have been closed before.
pub open spec fn run_ok(run: ReachRun) -> bool {
    &&& run.limits.eval_interval > 0
    &&& (run.pending is TrainBatch || run.pending is SaveProgress || run.pending is MeasureKnowledge)
        ==> run.train_before_measuring
    &&& run.pending is TrainBatch ==> run.trials_used < run.limits.trials_cap
    &&& run.pending is MeasureKnowledge ==> run.trials_since_eval == 0
    &&& run.pending is SaveProgress ==> run.trials_since_eval < run.limits.eval_interval
        && run.trials_since_checkpoint == 0
    &&& !(run.pending is Finish) ==> !run.already_reported
}

/// A run whose last measurement lies at or before its current trial; a
/// run waiting on a save has not measured complete knowledge at its
/// current trial.
pub open spec fn progress_ok(run: ReachRun) -> bool {
    &&& run.knowledge_trials is Some ==> run.knowledge_trials->0 <= run.trials_used
    &&& run.pending is SaveProgress && run.knowledge_trials == Some(run.trials_used) ==> !run.knowledge_complete
}

/// A run that starts with nothing learned: the counters at zero, the
/// peak memory at `rss`, and the first pass under way.
pub open spec fn fresh_run(limits: ReachLimits, checkpoint_every: Option<u64>, rss: u64) -> ReachRun {
    pass_start(
        ReachRun {
            limits,
            checkpoint_every,
            time: 0,
            trials_used: 0,
            trials_since_eval: 0,
            trials_since_checkpoint: 0,
            peak_macro_population: 0,
            peak_rss: rss,
            knowledge_trials: None,
            knowledge_complete: false,
            accuracy_due_at: next_multiple(0, accuracy_step_of(limits)),
            train_before_measuring: true,
            already_reported: false,
            pending: ReachAction::TrainBatch,
        },
    )
}

/// What a saved run carries into a resume.
#[derive(Clone, Copy, PartialEq, Eq, Debug, Structural)]
pub struct SavedProgress {
    pub time: u64,
    pub trials_used: u64,
    pub trials_since_eval: u64,
    pub peak_macro_population: usize,
    pub peak_rss: u64,
    pub knowledge_trials: Option<u64>,
    /// Whether the saved knowledge is complete.
    pub knowledge_complete: bool,
    /// Whether the run was saved with the verdict of success.
    pub closed_with_success: bool,
}

/// A run resumed from `saved`: a run saved as a success is reported
/// again and learns nothing; a run that measured complete knowledge at its
/// last trial is solved at that trial; any other run owes a measurement
/// when its saved trials since the last one reached the interval, and pays
/// it before it trains.
pub open spec fn resumed_run(limits: ReachLimits, checkpoint_every: Option<u64>, saved: SavedProgress) -> ReachRun {
    let run = ReachRun {
        limits,
        checkpoint_every,
        time: saved.time,
        trials_used: saved.trials_used,
        trials_since_eval: saved.trials_since_eval,
        trials_since_checkpoint: 0,
        peak_macro_population: saved.peak_macro_population,
        peak_rss: saved.peak_rss,
        knowledge_trials: saved.knowledge_trials,
        knowledge_complete: saved.knowledge_complete,
        accuracy_due_at: next_multiple(saved.trials_used, accuracy_step_of(limits)),
        train_before_measuring: saved.trials_since_eval < limits.eval_interval,
        already_reported: saved.closed_with_success,
        pending: ReachAction::TrainBatch,
    };
    if saved.closed_with_success {
        ReachRun { pending: ReachAction::Finish(Verdict::Success), ..run }
    } else if saved.knowledge_trials == Some(saved.trials_used) && saved.knowledge_complete {
        ReachRun { pending: ReachAction::Finish(Verdict::Success), ..run }
    } else {
        pass_start(run)
    }
}

impl ReachRun {
    fn top_of_pass(&mut self) -> (action: ReachAction)
        requires
            old(self).train_before_measuring,
        ensures
            *final(self) == train_or_stop(*old(self)),
            action == final(self).pending,
    {
        self.pending = if self.trials_used >= self.limits.trials_cap {
            ReachAction::Finish(Verdict::TrialsLimited)
        } else {
            ReachAction::TrainBatch
        };
        self.pending
    }

    fn end_of_pass(&mut self) -> (action: ReachAction)
        requires
            old(self).train_before_measuring,
        ensures
            *final(self) == save_or_go_on(*old(self)),
            action == final(self).pending,
    {
        let due = match self.checkpoint_every {
            Some(every) => every > 0 && self.trials_since_checkpoint >= every,
            None => false,
        };
        if due {
            self.trials_since_checkpoint = 0;
            self.pending = ReachAction::SaveProgress;
            self.pending
        } else {
            self.top_of_pass()
        }
    }

    fn middle_of_pass(&mut self) -> (action: ReachAction)
        requires
            old(self).limits.eval_interval > 0,
        ensures
            *final(self) == measure_or_go_on(*old(self)),
            action == final(self).pending,
    {
        self.train_before_measuring = true;
        if self.trials_since_eval >= self.limits.eval_interval {
            self.trials_since_eval = 0;
            let report = self.limits.log_accuracy && self.trials_used >= self.accuracy_due_at;
            if report {
                let step = self.limits.accuracy_step();
                self.accuracy_due_at = next_accuracy_trial(self.trials_used, step);
            }
            self.pending = ReachAction::MeasureKnowledge { report_accuracy: report };
            self.pending
        } else {
            self.end_of_pass()
        }
    }

    fn start_pass(&mut self) -> (action: ReachAction)
        requires
            old(self).limits.eval_interval > 0,
        ensures
            *final(self) == pass_start(*old(self)),
            action == final(self).pending,
    {
        if self.train_before_measuring {
            self.top_of_pass()
        } else {
            self.middle_of_pass()
        }
    }

    /// A run with nothing learned yet, its peak memory read as `rss`; the
    /// action it waits on is its first.
    pub fn fresh(limits: ReachLimits, checkpoint_every: Option<u64>, rss: u64) -> (result: ReachRun)
        requires
            limits.eval_interval > 0,
        ensures
            result == fresh_run(limits, checkpoint_every, rss),
            run_ok(result),
            progress_ok(result),
    {
        let step = limits.accuracy_step();
        let mut run = ReachRun {
            limits,
            checkpoint_every,
            time: 0,
            trials_used: 0,
            trials_since_eval: 0,
            trials_since_checkpoint: 0,
            peak_macro_population: 0,
            peak_rss: rss,
            knowledge_trials: None,
            knowledge_complete: false,
            accuracy_due_at: next_accuracy_trial(0, step),
            train_before_measuring: true,
            already_reported: false,
            pending: ReachAction::TrainBatch,
        };
        run.start_pass();
        run
    }

    /// A run resumed from `saved`; the action it waits on is its first.
    pub fn resume(limits: ReachLimits, checkpoint_every: Option<u64>, saved: SavedProgress) -> (result: ReachRun)
        requires
            limits.eval_interval > 0,
        ensures
            result == resumed_run(limits, checkpoint_every, saved),
            run_ok(result),
            (saved.knowledge_trials is Some ==> saved.knowledge_trials->0 <= saved.trials_used) ==> progress_ok(
                result,
            ),
    {
        let step = limits.accuracy_step();
        let mut run = ReachRun {
            limits,
            checkpoint_every,
            time: saved.time,
            trials_used: saved.trials_used,
            trials_since_eval: saved.trials_since_eval,
            trials_since_checkpoint: 0,
            peak_macro_population: saved.peak_macro_population,
            peak_rss: saved.peak_rss,
            knowledge_trials: saved.knowledge_trials,
            knowledge_complete: saved.knowledge_complete,
            accuracy_due_at: next_accuracy_trial(saved.trials_used, step),
            train_before_measuring: saved.trials_since_eval < limits.eval_interval,
            already_reported: saved.closed_with_success,
            pending: ReachAction::TrainBatch,
        };
        let measured_complete = match saved.knowledge_trials {
            Some(trial) => trial == saved.trials_used && saved.knowledge_complete,
            None => false,
        };
        if saved.closed_with_success || measured_complete {
            run.pending = ReachAction::Finish(Verdict::Success);
        } else {
            run.start_pass();
        }
        run
    }

    /// A run resumed from a checkpoint written for `stored_identity` and
    /// measured every `stored_interval` trials, by a job of `identity` that
    /// measures every `limits.eval_interval`. The checkpoint must be one the
    /// job may resume (`check_resume` says so first): the same identity,
    /// and the same interval unless a change is allowed. The flag that comes
    /// back says whether the interval changed.
    pub fn resume_checkpoint(
        stored_identity: &str,
        identity: &str,
        stored_interval: u64,
        allow_interval_change: bool,
        limits: ReachLimits,
        checkpoint_every: Option<u64>,
        saved: SavedProgress,
    ) -> (result: (ReachRun, bool))
        requires
            limits.eval_interval > 0,
            resume_decision(
                stored_identity@,
                identity@,
                stored_interval,
                limits.eval_interval,
                allow_interval_change,
            ) is Ok,
        ensures
            result.0 == resumed_run(limits, checkpoint_every, saved),
            run_ok(result.0),
            result.1 == (stored_interval != limits.eval_interval),
            stored_identity@ == identity@,
            result.1 ==> allow_interval_change,
    {
        (ReachRun::resume(limits, checkpoint_every, saved), stored_interval != limits.eval_interval)
    }

    /// The run after `event`, which answers the action it waited on; the
    /// result is the action it waits on next.
    pub fn advance(&mut self, event: ReachEvent) -> (action: ReachAction)
        requires
            run_ok(*old(self)),
            answers(*old(self), event),
            fits(*old(self), event),
        ensures
            *final(self) == next_run(*old(self), event),
            action == final(self).pending,
            run_ok(*final(self)),
            progress_ok(*old(self)) ==> progress_ok(*final(self)),
            action == ReachAction::Finish(Verdict::Success) ==> final(self).knowledge_trials == Some(
                final(self).trials_used,
            ) && final(self).knowledge_complete,
    {
        match event {
            ReachEvent::Trained { steps, population, rss, elapsed_nanos } => {
                self.time = self.time + steps;
                self.trials_used = self.trials_used + TIME_CHECK_BATCH;
                self.trials_since_eval = self.trials_since_eval + TIME_CHECK_BATCH;
                self.trials_since_checkpoint = self.trials_since_checkpoint + TIME_CHECK_BATCH;
                if population > self.peak_macro_population {
                    self.peak_macro_population = population;
                }
                if rss > self.peak_rss {
                    self.peak_rss = rss;
                }
                if self.peak_rss > self.limits.rss_cap_bytes {
                    self.pending = ReachAction::Finish(Verdict::MemoryLimited);
                    self.pending
                } else if elapsed_nanos > self.limits.time_cap_nanos {
                    self.pending = ReachAction::Finish(Verdict::TimeLimited);
                    self.pending
                } else {
                    self.middle_of_pass()
                }
            },
            ReachEvent::Measured { complete, rss, elapsed_nanos } => {
                self.knowledge_trials = Some(self.trials_used);
                self.knowledge_complete = complete;
                let strict = self.limits.strict_resource_limits;
                if strict && rss > self.peak_rss {
                    self.peak_rss = rss;
                }
                let capped = self.limits.resource_verdict(elapsed_nanos, self.peak_rss);
                match capped {
                    Some(verdict) if strict => {
                        self.pending = ReachAction::Finish(verdict);
                        self.pending
                    },
                    _ => {
                        if complete {
                            self.pending = ReachAction::Finish(Verdict::Success);
                            self.pending
                        } else {
                            self.end_of_pass()
                        }
                    },
                }
            },
            ReachEvent::Saved => self.start_pass(),
        }
    }

    /// Whether the verdict of a run that stops now goes into its
    /// checkpoint: only where the run keeps one, and not for a run closed
    /// before, whose checkpoint stays untouched.
    pub fn saves_verdict(&self, checkpointing: bool) -> (result: bool)
        ensures
            result == (checkpointing && !self.already_reported),
    {
        checkpointing && !self.already_reported
    }

    /// Whether the knowledge last measured belongs to the trial the run
    /// stopped at, and so may be reported as its final knowledge.
    pub fn knowledge_is_current(&self) -> (result: bool)
        ensures
            result == (self.knowledge_trials == Some(self.trials_used)),
    {
        match self.knowledge_trials {
            Some(trial) => trial == self.trials_used,
            None => false,
        }
    }
}


/// Why a saved run cannot be resumed by this job.
#[derive(Clone, Copy, PartialEq, Eq, Debug, Structural)]
pub enum ResumeRefusal {
    /// The run was saved under another configuration.
    OtherConfiguration,
    /// The run was measured at another evaluation interval, and the job
    /// was not allowed to splice the two.
    OtherEvalInterval,
}

/// Whether a run saved under `stored_identity` and measured every
/// `stored_interval` trials may be resumed by a job with `identity` that
/// measures every `interval` trials: the identities must agree, and the
/// interval may change only where the job allows it. `Ok` says whether
/// the interval changes.
pub open spec fn resume_decision(
    stored_identity: Seq<char>,
    identity: Seq<char>,
    stored_interval: u64,
    interval: u64,
    allow_interval_change: bool,
) -> Result<bool, ResumeRefusal> {
    if stored_identity != identity {
        Err(ResumeRefusal::OtherConfiguration)
    } else if stored_interval != interval && !allow_interval_change {
        Err(ResumeRefusal::OtherEvalInterval)
    } else {
        Ok(stored_interval != interval)
    }
}

pub fn check_resume(
    stored_identity: &str,
    identity: &str,
    stored_interval: u64,
    interval: u64,
    allow_interval_change: bool,
) -> (result: Result<bool, ResumeRefusal>)
    ensures
        result == resume_decision(stored_identity@, identity@, stored_interval, interval, allow_interval_change),
{
    if !same_text(stored_identity, identity) {
        Err(ResumeRefusal::OtherConfiguration)
    } else if stored_interval != interval && !allow_interval_change {
        Err(ResumeRefusal::OtherEvalInterval)
    } else {
        Ok(stored_interval != interval)
    }
}

/// The run with the trial at which accuracy is next reported set to `due`.
pub open spec fn with_accuracy_due_at(run: ReachRun, due: u64) -> ReachRun {
    ReachRun { accuracy_due_at: due, ..run }
}

/// The progress a run saves while it waits on a save: its counters, its
/// last measurement, and no verdict.
pub open spec fn progress_of(run: ReachRun) -> SavedProgress {
    SavedProgress {
        time: run.time,
        trials_used: run.trials_used,
        trials_since_eval: run.trials_since_eval,
        peak_macro_population: run.peak_macro_population,
        peak_rss: run.peak_rss,
        knowledge_trials: run.knowledge_trials,
        knowledge_complete: run.knowledge_complete,
        closed_with_success: false,
    }
}

/// A run stopped right after it saved its progress and resumed from that
/// progress goes on exactly as the run that was not stopped: the same
/// counters, the same last measurement and the same next action; only the
/// trial at which accuracy is next reported is set afresh.
pub proof fn lemma_resume_continues_the_run(run: ReachRun)
    requires
        run_ok(run),
        progress_ok(run),
        run.pending is SaveProgress,
    ensures
        ({
            let resumed = resumed_run(run.limits, run.checkpoint_every, progress_of(run));
            let continued = next_run(run, ReachEvent::Saved);
            resumed == with_accuracy_due_at(continued, resumed.accuracy_due_at)
        }),
{
}

/// Where accuracy is not reported, the trial at which it would next be
/// reported changes nothing that a run does: two runs that differ only
/// there take every event to runs that differ only there.
pub proof fn lemma_accuracy_schedule_is_inert(run: ReachRun, due: u64, event: ReachEvent)
    requires
        !run.limits.log_accuracy,
    ensures
        next_run(with_accuracy_due_at(run, due), event) == with_accuracy_due_at(next_run(run, event), due),
{
}

/// A run saved as a success is reported once more and learns nothing: on
/// resume it finishes with success at once, marked as closed before, at
/// the trial it was saved at.
pub proof fn lemma_closed_run_is_not_relearned(limits: ReachLimits, checkpoint_every: Option<u64>, saved: SavedProgress)
    requires
        saved.closed_with_success,
    ensures
        ({
            let resumed = resumed_run(limits, checkpoint_every, saved);
            &&& resumed.pending == ReachAction::Finish(Verdict::Success)
            &&& resumed.already_reported
            &&& resumed.trials_used == saved.trials_used
        }),
{
}

/// A run saved after it measured complete knowledge at its last trial,
/// but before it declared success, resumes as solved at that trial and
/// is reported as a fresh result.
pub proof fn lemma_measured_complete_run_resumes_solved(
    limits: ReachLimits,
    checkpoint_every: Option<u64>,
    saved: SavedProgress,
)
    requires
        !saved.closed_with_success,
        saved.knowledge_trials == Some(saved.trials_used),
        saved.knowledge_complete,
    ensures
        ({
            let resumed = resumed_run(limits, checkpoint_every, saved);
            &&& resumed.pending == ReachAction::Finish(Verdict::Success)
            &&& !resumed.already_reported
            &&& resumed.trials_used == saved.trials_used
        }),
{
}

/// A run saved when a measurement was due (a cap stopped it first) pays
/// that measurement on resume before it trains again.
pub proof fn lemma_owed_measurement_is_paid_first(
    limits: ReachLimits,
    checkpoint_every: Option<u64>,
    saved: SavedProgress,
)
    requires
        !saved.closed_with_success,
        !(saved.knowledge_trials == Some(saved.trials_used) && saved.knowledge_complete),
        saved.trials_since_eval >= limits.eval_interval,
    ensures
        resumed_run(limits, checkpoint_every, saved).pending is MeasureKnowledge,
        resumed_run(limits, checkpoint_every, saved).trials_used == saved.trials_used,
{
}


/// The run after the events, one after the other.
pub open spec fn run_after(run: ReachRun, events: Seq<ReachEvent>) -> ReachRun
    decreases events.len(),
{
    if events.len() == 0 {
        run
    } else {
        run_after(next_run(run, events[0]), events.drop_first())
    }
}

/// An event changes nothing of a run's limits.
proof fn lemma_limits_stay(run: ReachRun, event: ReachEvent)
    ensures
        next_run(run, event).limits == run.limits,
{
}

/// Where accuracy is not reported, two runs that differ only in the trial
/// at which it would be reported next still differ only there after any
/// sequence of events.
pub proof fn lemma_accuracy_schedule_is_inert_over_events(run: ReachRun, due: u64, events: Seq<ReachEvent>)
    requires
        !run.limits.log_accuracy,
    ensures
        run_after(with_accuracy_due_at(run, due), events) == with_accuracy_due_at(run_after(run, events), due),
    decreases events.len(),
{
    if events.len() > 0 {
        lemma_accuracy_schedule_is_inert(run, due, events[0]);
        lemma_limits_stay(run, events[0]);
        lemma_accuracy_schedule_is_inert_over_events(next_run(run, events[0]), due, events.drop_first());
    }
}

/// Where accuracy is not reported, a run stopped right after it saved its
/// progress and resumed from that progress takes, event for event, the
/// actions of the run that was not stopped, and keeps the same counters.
pub proof fn lemma_resumed_run_follows_the_uninterrupted_one(run: ReachRun, events: Seq<ReachEvent>)
    requires
        run_ok(run),
        progress_ok(run),
        run.pending is SaveProgress,
        !run.limits.log_accuracy,
    ensures
        ({
            let resumed = run_after(resumed_run(run.limits, run.checkpoint_every, progress_of(run)), events);
            let continued = run_after(next_run(run, ReachEvent::Saved), events);
            resumed == with_accuracy_due_at(continued, resumed.accuracy_due_at)
        }),
{
    let start = resumed_run(run.limits, run.checkpoint_every, progress_of(run));
    let continued = next_run(run, ReachEvent::Saved);
    lemma_resume_continues_the_run(run);
    lemma_limits_stay(run, ReachEvent::Saved);
    assert(start == with_accuracy_due_at(continued, start.accuracy_due_at));
    lemma_accuracy_schedule_is_inert_over_events(continued, start.accuracy_due_at, events);
}

} // verus!
