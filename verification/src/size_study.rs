use vstd::prelude::*;

use std::collections::VecDeque;

use crate::bench::{lemma_variant_name_injective, parse_u_max_mode, parse_variant, UMaxMode};
use crate::config::AlpGenVariant;
use crate::reach_options::{parse_size_list, size_list, size_list_ok, take_first, FlagError, FlagProblem};
use crate::text::{parse_unsigned, parses_unsigned, same_text, unsigned_value};

verus! {

/// The flags of the multiplexer size study, by what they set.
#[derive(Clone, Copy, PartialEq, Eq, Debug, Structural)]
pub enum StudyFlag {
    Sizes,
    NExp,
    Seed,
    ExploreTrials,
    ExploitTrials,
    ExploitPhases,
    SkipKnowledge,
    DoGa,
    UMax,
    AlpGenVariant,
    Out,
    Unknown,
}

/// What a flag on the command line of the size study sets.
pub open spec fn study_flag(flag: Seq<char>) -> StudyFlag {
    if flag == "--sizes"@ {
        StudyFlag::Sizes
    } else if flag == "--n-exp"@ {
        StudyFlag::NExp
    } else if flag == "--seed"@ {
        StudyFlag::Seed
    } else if flag == "--explore-trials"@ {
        StudyFlag::ExploreTrials
    } else if flag == "--exploit-trials"@ {
        StudyFlag::ExploitTrials
    } else if flag == "--exploit-phases"@ {
        StudyFlag::ExploitPhases
    } else if flag == "--skip-knowledge"@ {
        StudyFlag::SkipKnowledge
    } else if flag == "--do-ga"@ {
        StudyFlag::DoGa
    } else if flag == "--u-max"@ {
        StudyFlag::UMax
    } else if flag == "--alp-gen-variant"@ {
        StudyFlag::AlpGenVariant
    } else if flag == "--out"@ {
        StudyFlag::Out
    } else {
        StudyFlag::Unknown
    }
}

/// The settings of the size study: which multiplexers, how many repeats
/// from which seed, an explore budget that replaces the study's own,
/// how many exploit phases of how many trials, whether knowledge is left
/// unmeasured, whether the GA runs, how `u_max` is chosen, the ALP
/// variant, and the file of the results.
#[derive(Clone, Debug)]
pub struct Options {
    pub sizes: Vec<usize>,
    pub n_exp: u32,
    pub seed: u64,
    pub explore_trials_override: Option<u32>,
    pub exploit_trials: u32,
    pub exploit_phases: u32,
    pub skip_knowledge: bool,
    pub do_ga: bool,
    pub u_max_mode: UMaxMode,
    pub alp_gen_variant: AlpGenVariant,
    pub out: String,
}

/// The settings of the size study as values.
pub struct OptionsModel {
    pub sizes: Seq<usize>,
    pub n_exp: u32,
    pub seed: u64,
    pub explore_trials_override: Option<u32>,
    pub exploit_trials: u32,
    pub exploit_phases: u32,
    pub skip_knowledge: bool,
    pub do_ga: bool,
    pub u_max_mode: UMaxMode,
    pub alp_gen_variant: AlpGenVariant,
    pub out: Seq<char>,
}

impl View for Options {
    type V = OptionsModel;

    open spec fn view(&self) -> OptionsModel {
        OptionsModel {
            sizes: self.sizes@,
            n_exp: self.n_exp,
            seed: self.seed,
            explore_trials_override: self.explore_trials_override,
            exploit_trials: self.exploit_trials,
            exploit_phases: self.exploit_phases,
            skip_knowledge: self.skip_knowledge,
            do_ga: self.do_ga,
            u_max_mode: self.u_max_mode,
            alp_gen_variant: self.alp_gen_variant,
            out: self.out@,
        }
    }
}

/// The settings before any flag: the 6- and 11-bit multiplexers, ten
/// repeats from seed 42, the study's own explore budgets, three exploit
/// phases of 200 trials, knowledge measured, no GA, the default `u_max`
/// and ALP variant, and the report file under `reports/`.
pub open spec fn default_study_model() -> OptionsModel {
    OptionsModel {
        sizes: seq![6usize, 11usize],
        n_exp: 10,
        seed: 42,
        explore_trials_override: None,
        exploit_trials: 200,
        exploit_phases: 3,
        skip_knowledge: false,
        do_ga: false,
        u_max_mode: UMaxMode::Default,
        alp_gen_variant: AlpGenVariant::Pyalcs,
        out: "reports/mpx_rust.csv"@,
    }
}

/// The value text a flag that takes one accepts.
pub open spec fn study_value_ok(kind: StudyFlag, value: Seq<char>) -> bool {
    match kind {
        StudyFlag::Sizes => size_list_ok(value),
        StudyFlag::NExp | StudyFlag::ExploreTrials | StudyFlag::ExploitTrials | StudyFlag::ExploitPhases => parses_unsigned(
            value,
            u32::MAX as nat,
        ),
        StudyFlag::Seed => parses_unsigned(value, u64::MAX as nat),
        StudyFlag::UMax => value == "derived"@ || parses_unsigned(value, u32::MAX as nat),
        StudyFlag::AlpGenVariant => value == "pyalcs"@ || value == "butz"@,
        _ => true,
    }
}

/// The settings after a flag that takes a value and the value it accepts.
pub open spec fn with_study_value(model: OptionsModel, kind: StudyFlag, value: Seq<char>) -> OptionsModel {
    match kind {
        StudyFlag::Sizes => OptionsModel { sizes: size_list(value), ..model },
        StudyFlag::NExp => OptionsModel { n_exp: unsigned_value(value) as u32, ..model },
        StudyFlag::Seed => OptionsModel { seed: unsigned_value(value) as u64, ..model },
        StudyFlag::ExploreTrials => OptionsModel {
            explore_trials_override: Some(unsigned_value(value) as u32),
            ..model
        },
        StudyFlag::ExploitTrials => OptionsModel { exploit_trials: unsigned_value(value) as u32, ..model },
        StudyFlag::ExploitPhases => OptionsModel { exploit_phases: unsigned_value(value) as u32, ..model },
        StudyFlag::UMax => OptionsModel {
            u_max_mode: if value == "derived"@ {
                UMaxMode::Derived
            } else {
                UMaxMode::Fixed(unsigned_value(value) as u32)
            },
            ..model
        },
        StudyFlag::AlpGenVariant => OptionsModel {
            alp_gen_variant: if value == "pyalcs"@ {
                AlpGenVariant::Pyalcs
            } else {
                AlpGenVariant::Butz
            },
            ..model
        },
        _ => OptionsModel { out: value, ..model },
    }
}

/// The settings the flags `args` give when read from left to right on top
/// of `model`, or the first problem and its flag.
pub open spec fn parse_study_flags(model: OptionsModel, args: Seq<String>) -> Result<
    OptionsModel,
    (FlagProblem, Seq<char>),
>
    decreases args.len(),
{
    if args.len() == 0 {
        Ok(model)
    } else {
        let flag = args[0]@;
        let rest = args.drop_first();
        let kind = study_flag(flag);
        if kind == StudyFlag::Unknown {
            Err((FlagProblem::UnknownFlag, flag))
        } else if kind == StudyFlag::SkipKnowledge {
            parse_study_flags(OptionsModel { skip_knowledge: true, ..model }, rest)
        } else if kind == StudyFlag::DoGa {
            parse_study_flags(OptionsModel { do_ga: true, ..model }, rest)
        } else if rest.len() == 0 {
            Err((FlagProblem::MissingValue, flag))
        } else if study_value_ok(kind, rest[0]@) {
            parse_study_flags(with_study_value(model, kind, rest[0]@), rest.drop_first())
        } else {
            Err((FlagProblem::BadValue, flag))
        }
    }
}

/// What a flag sets; see `study_flag`.
pub fn study_flag_of(flag: &str) -> (result: StudyFlag)
    ensures
        result == study_flag(flag@),
{
    if same_text(flag, "--sizes") {
        StudyFlag::Sizes
    } else if same_text(flag, "--n-exp") {
        StudyFlag::NExp
    } else if same_text(flag, "--seed") {
        StudyFlag::Seed
    } else if same_text(flag, "--explore-trials") {
        StudyFlag::ExploreTrials
    } else if same_text(flag, "--exploit-trials") {
        StudyFlag::ExploitTrials
    } else if same_text(flag, "--exploit-phases") {
        StudyFlag::ExploitPhases
    } else if same_text(flag, "--skip-knowledge") {
        StudyFlag::SkipKnowledge
    } else if same_text(flag, "--do-ga") {
        StudyFlag::DoGa
    } else if same_text(flag, "--u-max") {
        StudyFlag::UMax
    } else if same_text(flag, "--alp-gen-variant") {
        StudyFlag::AlpGenVariant
    } else if same_text(flag, "--out") {
        StudyFlag::Out
    } else {
        StudyFlag::Unknown
    }
}

impl Options {
    /// The settings before any flag.
    pub fn defaults() -> (result: Options)
        ensures
            result@ == default_study_model(),
    {
        let mut sizes: Vec<usize> = Vec::new();
        sizes.push(6);
        sizes.push(11);
        let result = Options {
            sizes,
            n_exp: 10,
            seed: 42,
            explore_trials_override: None,
            exploit_trials: 200,
            exploit_phases: 3,
            skip_knowledge: false,
            do_ga: false,
            u_max_mode: UMaxMode::Default,
            alp_gen_variant: AlpGenVariant::Pyalcs,
            out: String::from_str("reports/mpx_rust.csv"),
        };
        proof {
            assert(result.sizes@ =~= seq![6usize, 11usize]);
        }
        result
    }

    fn set_count(&mut self, kind: StudyFlag, text: &str) -> (result: bool)
        requires
            kind == StudyFlag::NExp || kind == StudyFlag::ExploreTrials || kind == StudyFlag::ExploitTrials || kind
                == StudyFlag::ExploitPhases,
        ensures
            result == study_value_ok(kind, text@),
            result ==> final(self)@ == with_study_value(old(self)@, kind, text@),
    {
        match parse_unsigned(text, u32::MAX as u64) {
            Some(number) => {
                let count = number as u32;
                if kind == StudyFlag::NExp {
                    self.n_exp = count;
                } else if kind == StudyFlag::ExploreTrials {
                    self.explore_trials_override = Some(count);
                } else if kind == StudyFlag::ExploitTrials {
                    self.exploit_trials = count;
                } else {
                    self.exploit_phases = count;
                }
                true
            },
            None => false,
        }
    }

    fn set_value(&mut self, kind: StudyFlag, value: String) -> (result: bool)
        requires
            kind != StudyFlag::Unknown,
            kind != StudyFlag::SkipKnowledge,
            kind != StudyFlag::DoGa,
        ensures
            result == study_value_ok(kind, value@),
            result ==> final(self)@ == with_study_value(old(self)@, kind, value@),
    {
        let text = value.as_str();
        if kind == StudyFlag::Sizes {
            match parse_size_list(text) {
                Some(sizes) => {
                    self.sizes = sizes;
                    true
                },
                None => false,
            }
        } else if kind == StudyFlag::Seed {
            match parse_unsigned(text, u64::MAX) {
                Some(number) => {
                    self.seed = number;
                    true
                },
                None => false,
            }
        } else if kind == StudyFlag::UMax {
            if same_text(text, "derived") || parse_unsigned(text, u32::MAX as u64).is_some() {
                self.u_max_mode = parse_u_max_mode(text);
                true
            } else {
                false
            }
        } else if kind == StudyFlag::AlpGenVariant {
            if same_text(text, "pyalcs") || same_text(text, "butz") {
                let variant = parse_variant(text);
                proof {
                    if text@ == "pyalcs"@ {
                        lemma_variant_name_injective(variant, AlpGenVariant::Pyalcs);
                    } else {
                        lemma_variant_name_injective(variant, AlpGenVariant::Butz);
                        lemma_variant_name_injective(AlpGenVariant::Pyalcs, AlpGenVariant::Butz);
                    }
                }
                self.alp_gen_variant = variant;
                true
            } else {
                false
            }
        } else if kind == StudyFlag::Out {
            self.out = value;
            true
        } else {
            self.set_count(kind, text)
        }
    }

    fn read_flag(&mut self, args: &mut VecDeque<String>) -> (result: Option<FlagError>)
        requires
            old(args)@.len() > 0,
        ensures
            result is None ==> parse_study_flags(old(self)@, old(args)@) == parse_study_flags(
                final(self)@,
                final(args)@,
            ) && final(args)@.len() < old(args)@.len(),
            result matches Some(error) ==> parse_study_flags(old(self)@, old(args)@) == Err::<
                OptionsModel,
                (FlagProblem, Seq<char>),
            >((error.problem, error.flag@)),
    {
        let ghost remaining = args@;
        let flag = take_first(args);
        let kind = study_flag_of(flag.as_str());
        assert(remaining[0]@ == flag@);
        assert(remaining.drop_first() == args@);
        if kind == StudyFlag::Unknown {
            Some(FlagError { problem: FlagProblem::UnknownFlag, flag })
        } else if kind == StudyFlag::SkipKnowledge {
            self.skip_knowledge = true;
            None
        } else if kind == StudyFlag::DoGa {
            self.do_ga = true;
            None
        } else if args.len() == 0 {
            Some(FlagError { problem: FlagProblem::MissingValue, flag })
        } else {
            let value = take_first(args);
            if self.set_value(kind, value) {
                None
            } else {
                Some(FlagError { problem: FlagProblem::BadValue, flag })
            }
        }
    }

    /// The settings the flags `arguments` give, read from left to right
    /// onto the defaults, or the first problem with them.
    pub fn parse(arguments: VecDeque<String>) -> (result: Result<Options, FlagError>)
        ensures
            (match parse_study_flags(default_study_model(), arguments@) {
                Ok(model) => result matches Ok(options) && options@ == model,
                Err((problem, flag)) => result matches Err(error) && error.problem == problem && error.flag@ == flag,
            }),
    {
        let mut options = Options::defaults();
        let ghost initial = arguments@;
        let mut args = arguments;
        while args.len() > 0
            invariant
                initial == arguments@,
                parse_study_flags(default_study_model(), initial) == parse_study_flags(options@, args@),
            decreases args@.len(),
        {
            match options.read_flag(&mut args) {
                Some(error) => {
                    return Err(error);
                },
                None => {},
            }
        }
        Ok(options)
    }
}

/// The explore budget of the size study for each multiplexer it runs, or
/// `None` for a size it does not run.
pub open spec fn explore_budget(size: nat) -> Option<u32> {
    if size == 6 {
        Some(20_000)
    } else if size == 11 {
        Some(200_000)
    } else if size == 20 {
        Some(300_000)
    } else if size == 37 {
        Some(150_000)
    } else if size == 70 {
        Some(400_000)
    } else if size == 135 {
        Some(1_000_000)
    } else {
        None
    }
}

/// The explore budget of the size study for `size` input bits; the size
/// must be one it runs.
pub fn explore_budget_for(size: usize) -> (result: u32)
    requires
        explore_budget(size as nat) is Some,
    ensures
        explore_budget(size as nat) == Some(result),
{
    match size {
        6 => 20_000,
        11 => 200_000,
        20 => 300_000,
        37 => 150_000,
        70 => 400_000,
        _ => 1_000_000,
    }
}

/// The header line of the size study's table.
pub fn csv_header() -> (result: String)
    ensures
        result@ == "size,explore_trials,n_exp,knowledge_mean,knowledge_min,reached_full,macro_pop_mean,macro_pop_std,reliable_mean,reliable_std,reliable_spec_mean,reliable_spec_std,explore_time_total_s,exploit_time_total_s,total_time_s,u_max,alp_gen_variant"@,
{
    String::from_str(
        "size,explore_trials,n_exp,knowledge_mean,knowledge_min,reached_full,macro_pop_mean,macro_pop_std,reliable_mean,reliable_std,reliable_spec_mean,reliable_spec_std,explore_time_total_s,exploit_time_total_s,total_time_s,u_max,alp_gen_variant",
    )
}

} // verus!
