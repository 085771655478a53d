use vstd::prelude::*;

use std::collections::VecDeque;

use crate::bench::{
    accepts_value, is_agent_flag, lemma_agent_name_injective, lemma_variant_name_injective, parse_u_max_mode,
    parse_variant, AgentChoice, AgentOptions, UMaxMode,
};
use crate::codec::{split_on, split_text};
use crate::config::AlpGenVariant;
use crate::replay::ReplayConfiguration;
use crate::text::{parse_unsigned, parses_unsigned, same_text, unsigned_value};

verus! {

/// The wall-clock cap of a reach run, in seconds, unless a flag sets it.
pub const DEFAULT_TIME_CAP_SECS: u64 = 600;

/// How many trials lie between two measurements of knowledge, unless a
/// flag sets it.
pub const DEFAULT_KNOWLEDGE_EVAL_INTERVAL: u64 = 6_000;

/// The flags of a reach run, by what they set.
#[derive(Clone, Copy, PartialEq, Eq, Debug, Structural)]
pub enum FlagKind {
    Sizes,
    NExp,
    Seed,
    TimeCapSecs,
    DoGa,
    UMax,
    AlpGenVariant,
    EvalInterval,
    LogTrajectory,
    LogDiagnostics,
    LogCoverage,
    LogQuadrantDetail,
    Epsilon,
    LogAccuracy,
    AccuracyEvery,
    StrictResourceLimits,
    IsolateRepeats,
    CheckpointPath,
    CheckpointAllowEvalChange,
    CheckpointEvery,
    RssCapGb,
    Encoding,
    Agent,
    Unknown,
}

/// What a flag on the command line of a reach run sets.
pub open spec fn flag_kind(flag: Seq<char>) -> FlagKind {
    if flag == "--sizes"@ {
        FlagKind::Sizes
    } else if flag == "--n-exp"@ {
        FlagKind::NExp
    } else if flag == "--seed"@ {
        FlagKind::Seed
    } else if flag == "--time-cap-secs"@ {
        FlagKind::TimeCapSecs
    } else if flag == "--do-ga"@ {
        FlagKind::DoGa
    } else if flag == "--u-max"@ {
        FlagKind::UMax
    } else if flag == "--alp-gen-variant"@ {
        FlagKind::AlpGenVariant
    } else if flag == "--eval-interval"@ {
        FlagKind::EvalInterval
    } else if flag == "--log-trajectory"@ {
        FlagKind::LogTrajectory
    } else if flag == "--log-diagnostics"@ {
        FlagKind::LogDiagnostics
    } else if flag == "--log-coverage"@ {
        FlagKind::LogCoverage
    } else if flag == "--log-quadrant-detail"@ {
        FlagKind::LogQuadrantDetail
    } else if flag == "--epsilon"@ {
        FlagKind::Epsilon
    } else if flag == "--log-accuracy"@ {
        FlagKind::LogAccuracy
    } else if flag == "--accuracy-every"@ {
        FlagKind::AccuracyEvery
    } else if flag == "--strict-resource-limits"@ {
        FlagKind::StrictResourceLimits
    } else if flag == "--isolate-repeats"@ {
        FlagKind::IsolateRepeats
    } else if flag == "--checkpoint-path"@ {
        FlagKind::CheckpointPath
    } else if flag == "--checkpoint-allow-eval-change"@ {
        FlagKind::CheckpointAllowEvalChange
    } else if flag == "--checkpoint-every"@ {
        FlagKind::CheckpointEvery
    } else if flag == "--rss-cap-gb"@ {
        FlagKind::RssCapGb
    } else if flag == "--encoding"@ {
        FlagKind::Encoding
    } else if is_agent_flag(flag) {
        FlagKind::Agent
    } else {
        FlagKind::Unknown
    }
}

/// A flag that stands alone and switches something on.
pub open spec fn is_switch(kind: FlagKind) -> bool {
    ||| kind == FlagKind::LogTrajectory
    ||| kind == FlagKind::LogDiagnostics
    ||| kind == FlagKind::LogCoverage
    ||| kind == FlagKind::LogQuadrantDetail
    ||| kind == FlagKind::LogAccuracy
    ||| kind == FlagKind::StrictResourceLimits
    ||| kind == FlagKind::IsolateRepeats
    ||| kind == FlagKind::CheckpointAllowEvalChange
}

/// What is wrong with the flags of a reach run.
#[derive(Clone, Copy, PartialEq, Eq, Debug, Structural)]
pub enum FlagProblem {
    /// The flag needs a value and is the last argument.
    MissingValue,
    /// The value after the flag is not one the flag accepts.
    BadValue,
    /// No such flag.
    UnknownFlag,
    /// Accuracy cannot be reported every zero measurements.
    ZeroAccuracyInterval,
    /// The flag cannot stand beside another flag that was given.
    ExcludedByAnother,
    /// The list the flag gives must increase and does not.
    NotIncreasing,
}

/// A problem with a flag, and the flag.
#[derive(Clone, Debug)]
pub struct FlagError {
    pub problem: FlagProblem,
    pub flag: String,
}

/// The settings of a reach run as its flags give them. The explore rate
/// and the memory cap in gigabytes are kept as the text the flags carry.
#[derive(Clone, Debug)]
pub struct Options {
    pub sizes: Vec<usize>,
    pub n_exp: u32,
    pub seed: u64,
    pub time_cap_secs: u64,
    pub do_ga: bool,
    pub u_max_mode: UMaxMode,
    pub alp_gen_variant: AlpGenVariant,
    pub eval_interval: u64,
    pub log_trajectory: bool,
    pub log_diagnostics: bool,
    pub log_coverage: bool,
    pub log_quadrant_detail: bool,
    pub encoding: String,
    pub epsilon: Option<String>,
    pub log_accuracy: bool,
    pub accuracy_every: u64,
    pub rss_cap_gb: Option<String>,
    pub agent: AgentOptions,
    pub strict_resource_limits: bool,
    pub isolate_repeats: bool,
    pub checkpoint_path: Option<String>,
    pub checkpoint_every: u64,
    pub checkpoint_allow_eval_change: bool,
}

/// The settings of a reach run as values.
pub struct OptionsModel {
    pub sizes: Seq<usize>,
    pub n_exp: u32,
    pub seed: u64,
    pub time_cap_secs: u64,
    pub do_ga: bool,
    pub u_max_mode: UMaxMode,
    pub alp_gen_variant: AlpGenVariant,
    pub eval_interval: u64,
    pub log_trajectory: bool,
    pub log_diagnostics: bool,
    pub log_coverage: bool,
    pub log_quadrant_detail: bool,
    pub encoding: Seq<char>,
    pub epsilon: Option<Seq<char>>,
    pub log_accuracy: bool,
    pub accuracy_every: u64,
    pub rss_cap_gb: Option<Seq<char>>,
    pub agent: AgentOptions,
    pub strict_resource_limits: bool,
    pub isolate_repeats: bool,
    pub checkpoint_path: Option<Seq<char>>,
    pub checkpoint_every: u64,
    pub checkpoint_allow_eval_change: bool,
}

/// The text of an optional text.
pub open spec fn optional_view(value: Option<String>) -> Option<Seq<char>> {
    match value {
        Some(text) => Some(text@),
        None => None,
    }
}

impl View for Options {
    type V = OptionsModel;

    open spec fn view(&self) -> OptionsModel {
        OptionsModel {
            sizes: self.sizes@,
            n_exp: self.n_exp,
            seed: self.seed,
            time_cap_secs: self.time_cap_secs,
            do_ga: self.do_ga,
            u_max_mode: self.u_max_mode,
            alp_gen_variant: self.alp_gen_variant,
            eval_interval: self.eval_interval,
            log_trajectory: self.log_trajectory,
            log_diagnostics: self.log_diagnostics,
            log_coverage: self.log_coverage,
            log_quadrant_detail: self.log_quadrant_detail,
            encoding: self.encoding@,
            epsilon: optional_view(self.epsilon),
            log_accuracy: self.log_accuracy,
            accuracy_every: self.accuracy_every,
            rss_cap_gb: optional_view(self.rss_cap_gb),
            agent: self.agent,
            strict_resource_limits: self.strict_resource_limits,
            isolate_repeats: self.isolate_repeats,
            checkpoint_path: optional_view(self.checkpoint_path),
            checkpoint_every: self.checkpoint_every,
            checkpoint_allow_eval_change: self.checkpoint_allow_eval_change,
        }
    }
}

/// The settings of a reach run before any flag: the three large sizes,
/// three repeats from seed 42, ten minutes per run, the GA on, the
/// default `u_max` and ALP variant, knowledge measured every 6000 trials,
/// nothing logged, the flip encoding, the default explore rate and memory
/// cap, accuracy on every measurement when logged, the plain agent, and
/// no checkpoint.
pub open spec fn default_model() -> OptionsModel {
    OptionsModel {
        sizes: seq![37usize, 70usize, 135usize],
        n_exp: 3,
        seed: 42,
        time_cap_secs: DEFAULT_TIME_CAP_SECS,
        do_ga: true,
        u_max_mode: UMaxMode::Default,
        alp_gen_variant: AlpGenVariant::Pyalcs,
        eval_interval: DEFAULT_KNOWLEDGE_EVAL_INTERVAL,
        log_trajectory: false,
        log_diagnostics: false,
        log_coverage: false,
        log_quadrant_detail: false,
        encoding: "flip"@,
        epsilon: None,
        log_accuracy: false,
        accuracy_every: 1,
        rss_cap_gb: None,
        agent: AgentOptions { agent: AgentChoice::Acs2, replay: ReplayConfiguration::default_protocol_spec() },
        strict_resource_limits: false,
        isolate_repeats: false,
        checkpoint_path: None,
        checkpoint_every: 0,
        checkpoint_allow_eval_change: false,
    }
}

/// The settings after a switch.
pub open spec fn switched(model: OptionsModel, kind: FlagKind) -> OptionsModel {
    match kind {
        FlagKind::LogTrajectory => OptionsModel { log_trajectory: true, ..model },
        FlagKind::LogDiagnostics => OptionsModel { log_diagnostics: true, ..model },
        FlagKind::LogCoverage => OptionsModel { log_coverage: true, ..model },
        FlagKind::LogQuadrantDetail => OptionsModel { log_quadrant_detail: true, ..model },
        FlagKind::LogAccuracy => OptionsModel { log_accuracy: true, ..model },
        FlagKind::StrictResourceLimits => OptionsModel { strict_resource_limits: true, ..model },
        FlagKind::IsolateRepeats => OptionsModel { isolate_repeats: true, ..model },
        _ => OptionsModel { checkpoint_allow_eval_change: true, ..model },
    }
}

/// A comma-separated list of sizes, each an unsigned number that fits a
/// `usize`.
pub open spec fn size_list_ok(text: Seq<char>) -> bool {
    forall|k: int| 0 <= k < split_on(text, ',').len() ==> parses_unsigned(
        #[trigger] split_on(text, ',')[k],
        usize::MAX as nat,
    )
}

/// The sizes a list names.
pub open spec fn size_list(text: Seq<char>) -> Seq<usize> {
    split_on(text, ',').map_values(|piece: Seq<char>| unsigned_value(piece) as usize)
}

/// The value text a flag that takes one accepts.
pub open spec fn value_ok(kind: FlagKind, value: Seq<char>) -> bool {
    match kind {
        FlagKind::Sizes => size_list_ok(value),
        FlagKind::NExp => parses_unsigned(value, u32::MAX as nat),
        FlagKind::Seed | FlagKind::TimeCapSecs | FlagKind::EvalInterval | FlagKind::CheckpointEvery => parses_unsigned(
            value,
            u64::MAX as nat,
        ),
        FlagKind::DoGa => value == "true"@ || value == "false"@,
        FlagKind::UMax => value == "derived"@ || parses_unsigned(value, u32::MAX as nat),
        FlagKind::AlpGenVariant => value == "pyalcs"@ || value == "butz"@,
        FlagKind::AccuracyEvery => parses_unsigned(value, u64::MAX as nat) && unsigned_value(value) > 0,
        FlagKind::Encoding => value == "flip"@ || value == "outcome"@,
        _ => true,
    }
}

/// What is wrong with a value a flag does not accept.
pub open spec fn value_problem(kind: FlagKind, value: Seq<char>) -> FlagProblem {
    if kind == FlagKind::AccuracyEvery && parses_unsigned(value, u64::MAX as nat) {
        FlagProblem::ZeroAccuracyInterval
    } else {
        FlagProblem::BadValue
    }
}

/// The settings after a flag that takes a value and the value it accepts.
pub open spec fn with_value(model: OptionsModel, kind: FlagKind, value: Seq<char>) -> OptionsModel {
    match kind {
        FlagKind::Sizes => OptionsModel { sizes: size_list(value), ..model },
        FlagKind::NExp => OptionsModel { n_exp: unsigned_value(value) as u32, ..model },
        FlagKind::Seed => OptionsModel { seed: unsigned_value(value) as u64, ..model },
        FlagKind::TimeCapSecs => OptionsModel { time_cap_secs: unsigned_value(value) as u64, ..model },
        FlagKind::DoGa => OptionsModel { do_ga: value == "true"@, ..model },
        FlagKind::UMax => OptionsModel {
            u_max_mode: if value == "derived"@ {
                UMaxMode::Derived
            } else {
                UMaxMode::Fixed(unsigned_value(value) as u32)
            },
            ..model
        },
        FlagKind::AlpGenVariant => OptionsModel {
            alp_gen_variant: if value == "pyalcs"@ {
                AlpGenVariant::Pyalcs
            } else {
                AlpGenVariant::Butz
            },
            ..model
        },
        FlagKind::EvalInterval => OptionsModel { eval_interval: unsigned_value(value) as u64, ..model },
        FlagKind::Epsilon => OptionsModel { epsilon: Some(value), ..model },
        FlagKind::AccuracyEvery => OptionsModel { accuracy_every: unsigned_value(value) as u64, ..model },
        FlagKind::CheckpointPath => OptionsModel { checkpoint_path: Some(value), ..model },
        FlagKind::CheckpointEvery => OptionsModel { checkpoint_every: unsigned_value(value) as u64, ..model },
        FlagKind::RssCapGb => OptionsModel { rss_cap_gb: Some(value), ..model },
        _ => OptionsModel { encoding: value, ..model },
    }
}

/// The settings after an agent flag and the value it accepts.
pub open spec fn with_agent_value(model: OptionsModel, flag: Seq<char>, value: Seq<char>) -> OptionsModel {
    let agent = model.agent;
    let replay = agent.replay;
    OptionsModel {
        agent: if flag == "--agent"@ {
            AgentOptions { agent: if value == "acs2"@ { AgentChoice::Acs2 } else { AgentChoice::Acs2Er }, ..agent }
        } else if flag == "--er-buffer-size"@ {
            AgentOptions { replay: ReplayConfiguration { buffer_size: unsigned_value(value) as usize, ..replay }, ..agent }
        } else if flag == "--er-min-samples"@ {
            AgentOptions { replay: ReplayConfiguration { min_samples: unsigned_value(value) as usize, ..replay }, ..agent }
        } else {
            AgentOptions {
                replay: ReplayConfiguration { samples_number: unsigned_value(value) as usize, ..replay },
                ..agent
            }
        },
        ..model
    }
}

/// The settings the flags `args` give when read from left to right on top
/// of `model`, or the first problem and its flag.
pub open spec fn parse_flags(model: OptionsModel, args: Seq<String>) -> Result<
    OptionsModel,
    (FlagProblem, Seq<char>),
>
    decreases args.len(),
{
    if args.len() == 0 {
        Ok(model)
    } else {
        let flag = args[0]@;
        let rest = args.drop_first();
        let kind = flag_kind(flag);
        if kind == FlagKind::Unknown {
            Err((FlagProblem::UnknownFlag, flag))
        } else if is_switch(kind) {
            parse_flags(switched(model, kind), rest)
        } else if rest.len() == 0 {
            Err((FlagProblem::MissingValue, flag))
        } else if kind == FlagKind::Agent {
            if accepts_value(flag, rest) {
                parse_flags(with_agent_value(model, flag, rest[0]@), rest.drop_first())
            } else {
                Err((FlagProblem::BadValue, flag))
            }
        } else if value_ok(kind, rest[0]@) {
            parse_flags(with_value(model, kind, rest[0]@), rest.drop_first())
        } else {
            Err((value_problem(kind, rest[0]@), flag))
        }
    }
}


/// What a flag sets; see `flag_kind`.
pub fn kind_of(flag: &str) -> (result: FlagKind)
    ensures
        result == flag_kind(flag@),
{
    if same_text(flag, "--sizes") {
        FlagKind::Sizes
    } else if same_text(flag, "--n-exp") {
        FlagKind::NExp
    } else if same_text(flag, "--seed") {
        FlagKind::Seed
    } else if same_text(flag, "--time-cap-secs") {
        FlagKind::TimeCapSecs
    } else if same_text(flag, "--do-ga") {
        FlagKind::DoGa
    } else if same_text(flag, "--u-max") {
        FlagKind::UMax
    } else if same_text(flag, "--alp-gen-variant") {
        FlagKind::AlpGenVariant
    } else if same_text(flag, "--eval-interval") {
        FlagKind::EvalInterval
    } else if same_text(flag, "--log-trajectory") {
        FlagKind::LogTrajectory
    } else if same_text(flag, "--log-diagnostics") {
        FlagKind::LogDiagnostics
    } else if same_text(flag, "--log-coverage") {
        FlagKind::LogCoverage
    } else if same_text(flag, "--log-quadrant-detail") {
        FlagKind::LogQuadrantDetail
    } else if same_text(flag, "--epsilon") {
        FlagKind::Epsilon
    } else if same_text(flag, "--log-accuracy") {
        FlagKind::LogAccuracy
    } else if same_text(flag, "--accuracy-every") {
        FlagKind::AccuracyEvery
    } else if same_text(flag, "--strict-resource-limits") {
        FlagKind::StrictResourceLimits
    } else if same_text(flag, "--isolate-repeats") {
        FlagKind::IsolateRepeats
    } else if same_text(flag, "--checkpoint-path") {
        FlagKind::CheckpointPath
    } else if same_text(flag, "--checkpoint-allow-eval-change") {
        FlagKind::CheckpointAllowEvalChange
    } else if same_text(flag, "--checkpoint-every") {
        FlagKind::CheckpointEvery
    } else if same_text(flag, "--rss-cap-gb") {
        FlagKind::RssCapGb
    } else if same_text(flag, "--encoding") {
        FlagKind::Encoding
    } else if same_text(flag, "--agent") || same_text(flag, "--er-buffer-size") || same_text(
        flag,
        "--er-min-samples",
    ) || same_text(flag, "--er-samples-number") {
        FlagKind::Agent
    } else {
        FlagKind::Unknown
    }
}

/// The sizes a comma-separated list names, when every item is an
/// unsigned number that fits a `usize`.
pub fn parse_size_list(text: &str) -> (result: Option<Vec<usize>>)
    ensures
        result is Some <==> size_list_ok(text@),
        result matches Some(sizes) ==> sizes@ == size_list(text@),
{
    let pieces = split_text(text, ',');
    let ghost split = split_on(text@, ',');
    let mut sizes: Vec<usize> = Vec::new();
    let mut k: usize = 0;
    while k < pieces.len()
        invariant
            split == split_on(text@, ','),
            pieces@.len() == split.len(),
            forall|j: int| 0 <= j < pieces@.len() ==> #[trigger] pieces@[j]@ == split[j],
            k <= pieces@.len(),
            sizes@.len() == k,
            forall|j: int| 0 <= j < k ==> parses_unsigned(#[trigger] split[j], usize::MAX as nat),
            forall|j: int| 0 <= j < k ==> #[trigger] sizes@[j] == unsigned_value(split[j]) as usize,
        decreases pieces@.len() - k,
    {
        match parse_unsigned(pieces[k], usize::MAX as u64) {
            Some(number) => {
                sizes.push(number as usize);
            },
            None => {
                assert(!parses_unsigned(split[k as int], usize::MAX as nat));
                return None;
            },
        }
        k += 1;
    }
    proof {
        assert(sizes@ =~= size_list(text@));
    }
    Some(sizes)
}

/// Whether the value after an agent flag is one the flag accepts.
fn agent_value_ok(flag: &str, args: &VecDeque<String>) -> (result: bool)
    ensures
        result == accepts_value(flag@, args@),
{
    if args.len() == 0 {
        return false;
    }
    let value = args[0].as_str();
    if same_text(flag, "--agent") {
        same_text(value, "acs2") || same_text(value, "acs2er")
    } else {
        parse_unsigned(value, usize::MAX as u64).is_some()
    }
}

/// The first of the arguments, which must be there, taken off them.
pub(crate) fn take_first(args: &mut VecDeque<String>) -> (result: String)
    requires
        old(args)@.len() > 0,
    ensures
        result == old(args)@[0],
        final(args)@ == old(args)@.drop_first(),
{
    match args.pop_front() {
        Some(value) => {
            proof {
                assert(old(args)@.subrange(1, old(args)@.len() as int) =~= old(args)@.drop_first());
            }
            value
        },
        None => {
            proof {
                assert(false);
            }
            String::new()
        },
    }
}

impl Options {
    /// The settings before any flag.
    pub fn defaults() -> (result: Options)
        ensures
            result@ == default_model(),
    {
        let mut sizes: Vec<usize> = Vec::new();
        sizes.push(37);
        sizes.push(70);
        sizes.push(135);
        let result = Options {
            sizes,
            n_exp: 3,
            seed: 42,
            time_cap_secs: DEFAULT_TIME_CAP_SECS,
            do_ga: true,
            u_max_mode: UMaxMode::Default,
            alp_gen_variant: AlpGenVariant::Pyalcs,
            eval_interval: DEFAULT_KNOWLEDGE_EVAL_INTERVAL,
            log_trajectory: false,
            log_diagnostics: false,
            log_coverage: false,
            log_quadrant_detail: false,
            encoding: String::from_str("flip"),
            epsilon: None,
            log_accuracy: false,
            accuracy_every: 1,
            rss_cap_gb: None,
            agent: AgentOptions { agent: AgentChoice::Acs2, replay: ReplayConfiguration::default_protocol() },
            strict_resource_limits: false,
            isolate_repeats: false,
            checkpoint_path: None,
            checkpoint_every: 0,
            checkpoint_allow_eval_change: false,
        };
        proof {
            assert(result.sizes@ =~= seq![37usize, 70usize, 135usize]);
        }
        result
    }

    fn switch_on(&mut self, kind: FlagKind)
        requires
            is_switch(kind),
        ensures
            final(self)@ == switched(old(self)@, kind),
    {
        match kind {
            FlagKind::LogTrajectory => self.log_trajectory = true,
            FlagKind::LogDiagnostics => self.log_diagnostics = true,
            FlagKind::LogCoverage => self.log_coverage = true,
            FlagKind::LogQuadrantDetail => self.log_quadrant_detail = true,
            FlagKind::LogAccuracy => self.log_accuracy = true,
            FlagKind::StrictResourceLimits => self.strict_resource_limits = true,
            FlagKind::IsolateRepeats => self.isolate_repeats = true,
            _ => self.checkpoint_allow_eval_change = true,
        }
    }

    fn set_number(&mut self, kind: FlagKind, text: &str) -> (result: Result<(), FlagProblem>)
        requires
            kind == FlagKind::NExp || kind == FlagKind::Seed || kind == FlagKind::TimeCapSecs || kind
                == FlagKind::EvalInterval || kind == FlagKind::CheckpointEvery || kind == FlagKind::AccuracyEvery,
        ensures
            result is Ok <==> value_ok(kind, text@),
            result is Ok ==> final(self)@ == with_value(old(self)@, kind, text@),
            result matches Err(problem) ==> problem == value_problem(kind, text@),
    {
        if kind == FlagKind::NExp {
            return match parse_unsigned(text, u32::MAX as u64) {
                Some(number) => {
                    self.n_exp = number as u32;
                    Ok(())
                },
                None => Err(FlagProblem::BadValue),
            };
        }
        match parse_unsigned(text, u64::MAX) {
            Some(number) => {
                if kind == FlagKind::Seed {
                    self.seed = number;
                } else if kind == FlagKind::TimeCapSecs {
                    self.time_cap_secs = number;
                } else if kind == FlagKind::EvalInterval {
                    self.eval_interval = number;
                } else if kind == FlagKind::CheckpointEvery {
                    self.checkpoint_every = number;
                } else if number == 0 {
                    return Err(FlagProblem::ZeroAccuracyInterval);
                } else {
                    self.accuracy_every = number;
                }
                Ok(())
            },
            None => Err(FlagProblem::BadValue),
        }
    }

    fn set_choice(&mut self, kind: FlagKind, value: String) -> (result: Result<(), FlagProblem>)
        requires
            kind == FlagKind::DoGa || kind == FlagKind::UMax || kind == FlagKind::AlpGenVariant || kind
                == FlagKind::Encoding,
        ensures
            result is Ok <==> value_ok(kind, value@),
            result is Ok ==> final(self)@ == with_value(old(self)@, kind, value@),
            result matches Err(problem) ==> problem == value_problem(kind, value@),
    {
        let text = value.as_str();
        if kind == FlagKind::DoGa {
            if same_text(text, "true") {
                self.do_ga = true;
                Ok(())
            } else if same_text(text, "false") {
                self.do_ga = false;
                proof {
                    reveal_strlit("true");
                    reveal_strlit("false");
                    assert("true"@.len() != "false"@.len());
                }
                Ok(())
            } else {
                Err(FlagProblem::BadValue)
            }
        } else if kind == FlagKind::UMax {
            if same_text(text, "derived") || parse_unsigned(text, u32::MAX as u64).is_some() {
                self.u_max_mode = parse_u_max_mode(text);
                Ok(())
            } else {
                Err(FlagProblem::BadValue)
            }
        } else if kind == FlagKind::AlpGenVariant {
            if same_text(text, "pyalcs") || same_text(text, "butz") {
                let variant = parse_variant(text);
                proof {
                    if text@ == "pyalcs"@ {
                        lemma_variant_name_injective(variant, AlpGenVariant::Pyalcs);
                    } else {
                        lemma_variant_name_injective(variant, AlpGenVariant::Butz);
                        lemma_variant_name_injective(AlpGenVariant::Pyalcs, AlpGenVariant::Butz);
                    }
                }
                self.alp_gen_variant = variant;
                Ok(())
            } else {
                Err(FlagProblem::BadValue)
            }
        } else if same_text(text, "flip") || same_text(text, "outcome") {
            self.encoding = value;
            Ok(())
        } else {
            Err(FlagProblem::BadValue)
        }
    }

    fn set_value(&mut self, kind: FlagKind, value: String) -> (result: Result<(), FlagProblem>)
        requires
            kind != FlagKind::Unknown,
            kind != FlagKind::Agent,
            !is_switch(kind),
        ensures
            result is Ok <==> value_ok(kind, value@),
            result is Ok ==> final(self)@ == with_value(old(self)@, kind, value@),
            result matches Err(problem) ==> problem == value_problem(kind, value@),
    {
        if kind == FlagKind::Sizes {
            match parse_size_list(value.as_str()) {
                Some(sizes) => {
                    self.sizes = sizes;
                    Ok(())
                },
                None => Err(FlagProblem::BadValue),
            }
        } else if kind == FlagKind::NExp || kind == FlagKind::Seed || kind == FlagKind::TimeCapSecs || kind
            == FlagKind::EvalInterval || kind == FlagKind::CheckpointEvery || kind == FlagKind::AccuracyEvery {
            self.set_number(kind, value.as_str())
        } else if kind == FlagKind::DoGa || kind == FlagKind::UMax || kind == FlagKind::AlpGenVariant || kind
            == FlagKind::Encoding {
            self.set_choice(kind, value)
        } else if kind == FlagKind::Epsilon {
            self.epsilon = Some(value);
            Ok(())
        } else if kind == FlagKind::RssCapGb {
            self.rss_cap_gb = Some(value);
            Ok(())
        } else {
            self.checkpoint_path = Some(value);
            Ok(())
        }
    }

    /// Reads the first flag of `args`, and its value where it takes one.
    fn read_flag(&mut self, args: &mut VecDeque<String>) -> (result: Option<FlagError>)
        requires
            old(args)@.len() > 0,
        ensures
            result is None ==> parse_flags(old(self)@, old(args)@) == parse_flags(final(self)@, final(args)@)
                && final(args)@.len() < old(args)@.len(),
            result matches Some(error) ==> parse_flags(old(self)@, old(args)@) == Err::<
                OptionsModel,
                (FlagProblem, Seq<char>),
            >((error.problem, error.flag@)),
    {
        let ghost before = self@;
        let ghost remaining = args@;
        let flag = take_first(args);
        let kind = kind_of(flag.as_str());
        assert(remaining[0]@ == flag@);
        assert(remaining.drop_first() == args@);
        if kind == FlagKind::Unknown {
            return Some(FlagError { problem: FlagProblem::UnknownFlag, flag });
        }
        if kind == FlagKind::LogTrajectory || kind == FlagKind::LogDiagnostics || kind == FlagKind::LogCoverage
            || kind == FlagKind::LogQuadrantDetail || kind == FlagKind::LogAccuracy || kind
            == FlagKind::StrictResourceLimits || kind == FlagKind::IsolateRepeats || kind
            == FlagKind::CheckpointAllowEvalChange {
            self.switch_on(kind);
            None
        } else if args.len() == 0 {
            Some(FlagError { problem: FlagProblem::MissingValue, flag })
        } else if kind == FlagKind::Agent {
            if !agent_value_ok(flag.as_str(), args) {
                return Some(FlagError { problem: FlagProblem::BadValue, flag });
            }
            let ghost value = args@[0]@;
            let _ = self.agent.try_parse_flag(flag.as_str(), args);
            proof {
                if flag@ == "--agent"@ {
                    reveal_strlit("acs2");
                    reveal_strlit("acs2er");
                    if value == "acs2"@ {
                        lemma_agent_name_injective(self.agent.agent, AgentChoice::Acs2);
                    } else {
                        lemma_agent_name_injective(self.agent.agent, AgentChoice::Acs2Er);
                    }
                }
                assert(self@ == with_agent_value(before, flag@, value));
            }
            None
        } else {
            let value = take_first(args);
            match self.set_value(kind, value) {
                Ok(()) => None,
                Err(problem) => Some(FlagError { problem, flag }),
            }
        }
    }

    /// The settings the flags `args` give, read from left to right onto
    /// the defaults, or the first problem with them.
    pub fn parse(arguments: VecDeque<String>) -> (result: Result<Options, FlagError>)
        ensures
            (match parse_flags(default_model(), arguments@) {
                Ok(model) => result matches Ok(options) && options@ == model,
                Err((problem, flag)) => result matches Err(error) && error.problem == problem && error.flag@ == flag,
            }),
    {
        let mut options = Options::defaults();
        let ghost initial = arguments@;
        let mut args = arguments;
        while args.len() > 0
            invariant
                initial == arguments@,
                parse_flags(default_model(), initial) == parse_flags(options@, args@),
            decreases args@.len(),
        {
            match options.read_flag(&mut args) {
                Some(error) => {
                    return Err(error);
                },
                None => {},
            }
        }
        Ok(options)
    }
}

} // verus!
