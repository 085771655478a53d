use vstd::prelude::*;

use std::collections::VecDeque;

use crate::codec::{split_on, split_text};
use crate::reach_options::{take_first, FlagError, FlagProblem};
use crate::text::{parse_unsigned, parses_unsigned, same_text, unsigned_value};

verus! {

/// The flags of the maze benchmark, by what they set.
#[derive(Clone, Copy, PartialEq, Eq, Debug, Structural)]
pub enum BenchFlag {
    Mazes,
    NExp,
    Seed,
    DoGa,
    ExploreTrials,
    ExploitTrials,
    ExploitPhases,
    Out,
    Unknown,
}

/// What a flag on the command line of the maze benchmark sets.
pub open spec fn bench_flag(flag: Seq<char>) -> BenchFlag {
    if flag == "--mazes"@ {
        BenchFlag::Mazes
    } else if flag == "--n-exp"@ {
        BenchFlag::NExp
    } else if flag == "--seed"@ {
        BenchFlag::Seed
    } else if flag == "--do-ga"@ {
        BenchFlag::DoGa
    } else if flag == "--explore-trials"@ {
        BenchFlag::ExploreTrials
    } else if flag == "--exploit-trials"@ {
        BenchFlag::ExploitTrials
    } else if flag == "--exploit-phases"@ {
        BenchFlag::ExploitPhases
    } else if flag == "--out"@ {
        BenchFlag::Out
    } else {
        BenchFlag::Unknown
    }
}

/// The settings of the maze benchmark: which mazes, how many repeats from
/// which seed, whether the GA runs, how many explore trials, how many
/// exploit phases of how many trials, and the file of the results.
#[derive(Clone, Debug)]
pub struct Options {
    pub mazes: Vec<String>,
    pub n_exp: u32,
    pub seed: u64,
    pub do_ga: bool,
    pub explore_trials: u32,
    pub exploit_trials: u32,
    pub exploit_phases: u32,
    pub out: String,
}

/// The settings of the maze benchmark as values.
pub struct OptionsModel {
    pub mazes: Seq<Seq<char>>,
    pub n_exp: u32,
    pub seed: u64,
    pub do_ga: bool,
    pub explore_trials: u32,
    pub exploit_trials: u32,
    pub exploit_phases: u32,
    pub out: Seq<char>,
}

impl View for Options {
    type V = OptionsModel;

    open spec fn view(&self) -> OptionsModel {
        OptionsModel {
            mazes: self.mazes@.map_values(|maze: String| maze@),
            n_exp: self.n_exp,
            seed: self.seed,
            do_ga: self.do_ga,
            explore_trials: self.explore_trials,
            exploit_trials: self.exploit_trials,
            exploit_phases: self.exploit_phases,
            out: self.out@,
        }
    }
}

/// The settings before any flag: the five mazes of the benchmark, ten
/// repeats from seed 42, no GA, 500 explore trials, three exploit phases
/// of 200 trials, and the report file under `reports/`.
pub open spec fn default_bench_model() -> OptionsModel {
    OptionsModel {
        mazes: seq!["Maze4-v0"@, "Maze5-v0"@, "Maze7-v0"@, "Woods1-v0"@, "Woods100-v0"@],
        n_exp: 10,
        seed: 42,
        do_ga: false,
        explore_trials: 500,
        exploit_trials: 200,
        exploit_phases: 3,
        out: "reports/bench_rust.csv"@,
    }
}

/// The value text a flag that takes one accepts.
pub open spec fn bench_value_ok(kind: BenchFlag, value: Seq<char>) -> bool {
    match kind {
        BenchFlag::NExp | BenchFlag::ExploreTrials | BenchFlag::ExploitTrials | BenchFlag::ExploitPhases => parses_unsigned(
            value,
            u32::MAX as nat,
        ),
        BenchFlag::Seed => parses_unsigned(value, u64::MAX as nat),
        _ => true,
    }
}

/// The settings after a flag that takes a value and the value it accepts.
pub open spec fn with_bench_value(model: OptionsModel, kind: BenchFlag, value: Seq<char>) -> OptionsModel {
    match kind {
        BenchFlag::Mazes => OptionsModel { mazes: split_on(value, ','), ..model },
        BenchFlag::NExp => OptionsModel { n_exp: unsigned_value(value) as u32, ..model },
        BenchFlag::Seed => OptionsModel { seed: unsigned_value(value) as u64, ..model },
        BenchFlag::ExploreTrials => OptionsModel { explore_trials: unsigned_value(value) as u32, ..model },
        BenchFlag::ExploitTrials => OptionsModel { exploit_trials: unsigned_value(value) as u32, ..model },
        BenchFlag::ExploitPhases => OptionsModel { exploit_phases: unsigned_value(value) as u32, ..model },
        _ => OptionsModel { out: value, ..model },
    }
}

/// The settings the flags `args` give when read from left to right on top
/// of `model`, or the first problem and its flag.
pub open spec fn parse_bench_flags(model: OptionsModel, args: Seq<String>) -> Result<
    OptionsModel,
    (FlagProblem, Seq<char>),
>
    decreases args.len(),
{
    if args.len() == 0 {
        Ok(model)
    } else {
        let flag = args[0]@;
        let rest = args.drop_first();
        let kind = bench_flag(flag);
        if kind == BenchFlag::Unknown {
            Err((FlagProblem::UnknownFlag, flag))
        } else if kind == BenchFlag::DoGa {
            parse_bench_flags(OptionsModel { do_ga: true, ..model }, rest)
        } else if rest.len() == 0 {
            Err((FlagProblem::MissingValue, flag))
        } else if bench_value_ok(kind, rest[0]@) {
            parse_bench_flags(with_bench_value(model, kind, rest[0]@), rest.drop_first())
        } else {
            Err((FlagProblem::BadValue, flag))
        }
    }
}

/// What a flag sets; see `bench_flag`.
pub fn bench_flag_of(flag: &str) -> (result: BenchFlag)
    ensures
        result == bench_flag(flag@),
{
    if same_text(flag, "--mazes") {
        BenchFlag::Mazes
    } else if same_text(flag, "--n-exp") {
        BenchFlag::NExp
    } else if same_text(flag, "--seed") {
        BenchFlag::Seed
    } else if same_text(flag, "--do-ga") {
        BenchFlag::DoGa
    } else if same_text(flag, "--explore-trials") {
        BenchFlag::ExploreTrials
    } else if same_text(flag, "--exploit-trials") {
        BenchFlag::ExploitTrials
    } else if same_text(flag, "--exploit-phases") {
        BenchFlag::ExploitPhases
    } else if same_text(flag, "--out") {
        BenchFlag::Out
    } else {
        BenchFlag::Unknown
    }
}

/// The names a comma-separated list holds, in order.
pub fn name_list(text: &str) -> (result: Vec<String>)
    ensures
        result@.map_values(|name: String| name@) == split_on(text@, ','),
{
    let pieces = split_text(text, ',');
    let mut names: Vec<String> = Vec::new();
    let mut k: usize = 0;
    while k < pieces.len()
        invariant
            pieces@.len() == split_on(text@, ',').len(),
            forall|j: int| 0 <= j < pieces@.len() ==> #[trigger] pieces@[j]@ == split_on(text@, ',')[j],
            k <= pieces@.len(),
            names@.len() == k,
            forall|j: int| 0 <= j < k ==> #[trigger] names@[j]@ == split_on(text@, ',')[j],
        decreases pieces@.len() - k,
    {
        names.push(pieces[k].to_string());
        k += 1;
    }
    proof {
        assert(names@.map_values(|name: String| name@) =~= split_on(text@, ','));
    }
    names
}

impl Options {
    /// The settings before any flag.
    pub fn defaults() -> (result: Options)
        ensures
            result@ == default_bench_model(),
    {
        let mut mazes: Vec<String> = Vec::new();
        mazes.push(String::from_str("Maze4-v0"));
        mazes.push(String::from_str("Maze5-v0"));
        mazes.push(String::from_str("Maze7-v0"));
        mazes.push(String::from_str("Woods1-v0"));
        mazes.push(String::from_str("Woods100-v0"));
        let result = Options {
            mazes,
            n_exp: 10,
            seed: 42,
            do_ga: false,
            explore_trials: 500,
            exploit_trials: 200,
            exploit_phases: 3,
            out: String::from_str("reports/bench_rust.csv"),
        };
        proof {
            assert(result.mazes@.map_values(|maze: String| maze@) =~= default_bench_model().mazes);
        }
        result
    }

    fn set_value(&mut self, kind: BenchFlag, value: String) -> (result: bool)
        requires
            kind != BenchFlag::Unknown,
            kind != BenchFlag::DoGa,
        ensures
            result == bench_value_ok(kind, value@),
            result ==> final(self)@ == with_bench_value(old(self)@, kind, value@),
    {
        let text = value.as_str();
        if kind == BenchFlag::Mazes {
            self.mazes = name_list(text);
            true
        } else if kind == BenchFlag::Seed {
            match parse_unsigned(text, u64::MAX) {
                Some(number) => {
                    self.seed = number;
                    true
                },
                None => false,
            }
        } else if kind == BenchFlag::Out {
            self.out = value;
            true
        } else {
            match parse_unsigned(text, u32::MAX as u64) {
                Some(number) => {
                    let count = number as u32;
                    if kind == BenchFlag::NExp {
                        self.n_exp = count;
                    } else if kind == BenchFlag::ExploreTrials {
                        self.explore_trials = count;
                    } else if kind == BenchFlag::ExploitTrials {
                        self.exploit_trials = count;
                    } else {
                        self.exploit_phases = count;
                    }
                    true
                },
                None => false,
            }
        }
    }

    fn read_flag(&mut self, args: &mut VecDeque<String>) -> (result: Option<FlagError>)
        requires
            old(args)@.len() > 0,
        ensures
            result is None ==> parse_bench_flags(old(self)@, old(args)@) == parse_bench_flags(
                final(self)@,
                final(args)@,
            ) && final(args)@.len() < old(args)@.len(),
            result matches Some(error) ==> parse_bench_flags(old(self)@, old(args)@) == Err::<
                OptionsModel,
                (FlagProblem, Seq<char>),
            >((error.problem, error.flag@)),
    {
        let ghost remaining = args@;
        let flag = take_first(args);
        let kind = bench_flag_of(flag.as_str());
        assert(remaining[0]@ == flag@);
        assert(remaining.drop_first() == args@);
        if kind == BenchFlag::Unknown {
            Some(FlagError { problem: FlagProblem::UnknownFlag, flag })
        } else if kind == BenchFlag::DoGa {
            self.do_ga = true;
            None
        } else if args.len() == 0 {
            Some(FlagError { problem: FlagProblem::MissingValue, flag })
        } else {
            let value = take_first(args);
            if self.set_value(kind, value) {
                None
            } else {
                Some(FlagError { problem: FlagProblem::BadValue, flag })
            }
        }
    }

    /// The settings the flags `arguments` give, read from left to right
    /// onto the defaults, or the first problem with them.
    pub fn parse(arguments: VecDeque<String>) -> (result: Result<Options, FlagError>)
        ensures
            (match parse_bench_flags(default_bench_model(), arguments@) {
                Ok(model) => result matches Ok(options) && options@ == model,
                Err((problem, flag)) => result matches Err(error) && error.problem == problem && error.flag@ == flag,
            }),
    {
        let mut options = Options::defaults();
        let ghost initial = arguments@;
        let mut args = arguments;
        while args.len() > 0
            invariant
                initial == arguments@,
                parse_bench_flags(default_bench_model(), initial) == parse_bench_flags(options@, args@),
            decreases args@.len(),
        {
            match options.read_flag(&mut args) {
                Some(error) => {
                    return Err(error);
                },
                None => {},
            }
        }
        Ok(options)
    }
}

/// The header line of the maze benchmark's table.
pub fn csv_header() -> (result: String)
    ensures
        result@ == "maze,n_exp,exploit_steps_mean,exploit_steps_std,macro_pop_mean,numerosity_mean,reliable_mean,explore_time_total_s,exploit_time_total_s,total_time_s"@,
{
    String::from_str(
        "maze,n_exp,exploit_steps_mean,exploit_steps_std,macro_pop_mean,numerosity_mean,reliable_mean,explore_time_total_s,exploit_time_total_s,total_time_s",
    )
}

} // verus!
