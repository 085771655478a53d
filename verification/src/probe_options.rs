use vstd::prelude::*;

use std::collections::VecDeque;

use crate::codec::{split_on, split_text};
use crate::goal_task::{encoding_name, GoalEncoding};
use crate::reach_options::{take_first, FlagError, FlagProblem};
use crate::text::{parse_unsigned, parses_unsigned, same_text, trim, trimmed, unsigned_value};

verus! {

/// How a goal-maze learner learns: online from each step, or with
/// hindsight relabelling of its episodes.
#[derive(Clone, Copy, PartialEq, Eq, Debug, Structural)]
pub enum Regime {
    Online,
    Hindsight,
}

/// The name of a regime on the command line.
pub open spec fn regime_name(regime: Regime) -> Seq<char> {
    match regime {
        Regime::Online => "acs2"@,
        Regime::Hindsight => "her"@,
    }
}

/// Different regimes have different names.
pub proof fn lemma_regime_name_injective(a: Regime, b: Regime)
    ensures
        regime_name(a) == regime_name(b) ==> a == b,
{
    reveal_strlit("acs2");
    reveal_strlit("her");
    assert("acs2"@.len() != "her"@.len());
}

/// Different encodings have different names.
pub proof fn lemma_encoding_name_injective(a: GoalEncoding, b: GoalEncoding)
    ensures
        encoding_name(a) == encoding_name(b) ==> a == b,
{
    reveal_strlit("perception");
    reveal_strlit("coordinates");
    assert("perception"@.len() != "coordinates"@.len());
}

impl Regime {
    /// The regime a name stands for; the name must be one of the two.
    pub fn parse(value: &str) -> (result: Self)
        requires
            value@ == "acs2"@ || value@ == "her"@,
        ensures
            regime_name(result) == value@,
    {
        if same_text(value, "acs2") {
            Regime::Online
        } else {
            Regime::Hindsight
        }
    }

    /// The name of the regime.
    pub fn label(self) -> (result: &'static str)
        ensures
            result@ == regime_name(self),
    {
        match self {
            Regime::Online => "acs2",
            Regime::Hindsight => "her",
        }
    }
}

/// The flags of the goal-maze probe, by what they set.
#[derive(Clone, Copy, PartialEq, Eq, Debug, Structural)]
pub enum ProbeFlag {
    Maze,
    Regimes,
    Encodings,
    Seeds,
    Checkpoints,
    HerGoals,
    HerReplays,
    HerBuffer,
    TimeCapSecs,
    FixedGoal,
    GoalPoolSize,
    Unknown,
}

/// What a flag on the command line of the probe sets.
pub open spec fn probe_flag(flag: Seq<char>) -> ProbeFlag {
    if flag == "--maze"@ {
        ProbeFlag::Maze
    } else if flag == "--regimes"@ {
        ProbeFlag::Regimes
    } else if flag == "--encodings"@ {
        ProbeFlag::Encodings
    } else if flag == "--seeds"@ {
        ProbeFlag::Seeds
    } else if flag == "--checkpoints"@ {
        ProbeFlag::Checkpoints
    } else if flag == "--her-goals"@ {
        ProbeFlag::HerGoals
    } else if flag == "--her-replays"@ {
        ProbeFlag::HerReplays
    } else if flag == "--her-buffer"@ {
        ProbeFlag::HerBuffer
    } else if flag == "--time-cap-secs"@ {
        ProbeFlag::TimeCapSecs
    } else if flag == "--fixed-goal"@ {
        ProbeFlag::FixedGoal
    } else if flag == "--goal-pool-size"@ {
        ProbeFlag::GoalPoolSize
    } else {
        ProbeFlag::Unknown
    }
}

/// The settings of the goal-maze probe: the maze, the learning regimes,
/// the goal encodings and the seeds it runs, the episode counts at which
/// it takes a snapshot, the hindsight learner's goals, replays and buffer
/// per step, the wall-clock cap of a run, and whether the goal is fixed to
/// the reward cells or drawn from a pool of a given size.
#[derive(Clone, Debug)]
pub struct Options {
    pub maze: String,
    pub regimes: Vec<Regime>,
    pub encodings: Vec<GoalEncoding>,
    pub seeds: Vec<u64>,
    pub checkpoints: Vec<usize>,
    pub her_goals: usize,
    pub her_replays: usize,
    pub her_buffer: usize,
    pub time_cap_secs: u64,
    pub fixed_goal: bool,
    pub goal_pool_size: Option<usize>,
}

/// The settings of the probe as values.
pub struct OptionsModel {
    pub maze: Seq<char>,
    pub regimes: Seq<Regime>,
    pub encodings: Seq<GoalEncoding>,
    pub seeds: Seq<u64>,
    pub checkpoints: Seq<usize>,
    pub her_goals: usize,
    pub her_replays: usize,
    pub her_buffer: usize,
    pub time_cap_secs: u64,
    pub fixed_goal: bool,
    pub goal_pool_size: Option<usize>,
}

impl View for Options {
    type V = OptionsModel;

    open spec fn view(&self) -> OptionsModel {
        OptionsModel {
            maze: self.maze@,
            regimes: self.regimes@,
            encodings: self.encodings@,
            seeds: self.seeds@,
            checkpoints: self.checkpoints@,
            her_goals: self.her_goals,
            her_replays: self.her_replays,
            her_buffer: self.her_buffer,
            time_cap_secs: self.time_cap_secs,
            fixed_goal: self.fixed_goal,
            goal_pool_size: self.goal_pool_size,
        }
    }
}

/// The settings before any flag: Maze4, both regimes, both encodings,
/// seeds 42 to 44, snapshots after 125, 250, 500, 1000 and 2000 episodes,
/// two relabelled goals and four replays per step from a buffer of
/// 10 000, a cap of 90 seconds, and goals drawn from every cell.
pub open spec fn default_probe_model() -> OptionsModel {
    OptionsModel {
        maze: "Maze4-v0"@,
        regimes: seq![Regime::Online, Regime::Hindsight],
        encodings: seq![GoalEncoding::Perception, GoalEncoding::Coordinates],
        seeds: seq![42u64, 43u64, 44u64],
        checkpoints: seq![125usize, 250usize, 500usize, 1000usize, 2000usize],
        her_goals: 2,
        her_replays: 4,
        her_buffer: 10_000,
        time_cap_secs: 90,
        fixed_goal: false,
        goal_pool_size: None,
    }
}

/// The items of a comma-separated list, each without surrounding
/// whitespace.
pub open spec fn list_items(text: Seq<char>) -> Seq<Seq<char>> {
    split_on(text, ',').map_values(|piece: Seq<char>| trimmed(piece))
}

/// An item a list flag accepts.
pub open spec fn item_ok(kind: ProbeFlag, item: Seq<char>) -> bool {
    match kind {
        ProbeFlag::Regimes => item == "acs2"@ || item == "her"@,
        ProbeFlag::Encodings => item == "perception"@ || item == "coordinates"@,
        ProbeFlag::Seeds => parses_unsigned(item, u64::MAX as nat),
        _ => parses_unsigned(item, usize::MAX as nat),
    }
}

/// A list flag that takes every one of its items.
pub open spec fn list_ok(kind: ProbeFlag, text: Seq<char>) -> bool {
    forall|k: int| 0 <= k < list_items(text).len() ==> item_ok(kind, #[trigger] list_items(text)[k])
}

/// Whether a flag takes a list.
pub open spec fn is_list_flag(kind: ProbeFlag) -> bool {
    kind == ProbeFlag::Regimes || kind == ProbeFlag::Encodings || kind == ProbeFlag::Seeds || kind
        == ProbeFlag::Checkpoints
}

/// The value text a flag that takes one accepts.
pub open spec fn probe_value_ok(kind: ProbeFlag, value: Seq<char>) -> bool {
    if is_list_flag(kind) {
        list_ok(kind, value)
    } else if kind == ProbeFlag::TimeCapSecs {
        parses_unsigned(value, u64::MAX as nat)
    } else if kind == ProbeFlag::Maze {
        true
    } else {
        parses_unsigned(value, usize::MAX as nat)
    }
}

/// The regime an accepted name stands for.
pub open spec fn regime_of(name: Seq<char>) -> Regime {
    if name == "acs2"@ {
        Regime::Online
    } else {
        Regime::Hindsight
    }
}

/// The encoding an accepted name stands for.
pub open spec fn encoding_of(name: Seq<char>) -> GoalEncoding {
    if name == "perception"@ {
        GoalEncoding::Perception
    } else {
        GoalEncoding::Coordinates
    }
}

/// The settings after a flag that takes a value and the value it accepts.
pub open spec fn with_probe_value(model: OptionsModel, kind: ProbeFlag, value: Seq<char>) -> OptionsModel {
    match kind {
        ProbeFlag::Maze => OptionsModel { maze: value, ..model },
        ProbeFlag::Regimes => OptionsModel {
            regimes: list_items(value).map_values(|item: Seq<char>| regime_of(item)),
            ..model
        },
        ProbeFlag::Encodings => OptionsModel {
            encodings: list_items(value).map_values(|item: Seq<char>| encoding_of(item)),
            ..model
        },
        ProbeFlag::Seeds => OptionsModel {
            seeds: list_items(value).map_values(|item: Seq<char>| unsigned_value(item) as u64),
            ..model
        },
        ProbeFlag::Checkpoints => OptionsModel {
            checkpoints: list_items(value).map_values(|item: Seq<char>| unsigned_value(item) as usize),
            ..model
        },
        ProbeFlag::HerGoals => OptionsModel { her_goals: unsigned_value(value) as usize, ..model },
        ProbeFlag::HerReplays => OptionsModel { her_replays: unsigned_value(value) as usize, ..model },
        ProbeFlag::HerBuffer => OptionsModel { her_buffer: unsigned_value(value) as usize, ..model },
        ProbeFlag::TimeCapSecs => OptionsModel { time_cap_secs: unsigned_value(value) as u64, ..model },
        _ => OptionsModel { goal_pool_size: Some(unsigned_value(value) as usize), ..model },
    }
}

/// The settings the flags `args` give when read from left to right on top
/// of `model`, or the first problem and its flag.
pub open spec fn parse_probe_flags(model: OptionsModel, args: Seq<String>) -> Result<
    OptionsModel,
    (FlagProblem, Seq<char>),
>
    decreases args.len(),
{
    if args.len() == 0 {
        Ok(model)
    } else {
        let flag = args[0]@;
        let rest = args.drop_first();
        let kind = probe_flag(flag);
        if kind == ProbeFlag::Unknown {
            Err((FlagProblem::UnknownFlag, flag))
        } else if kind == ProbeFlag::FixedGoal {
            parse_probe_flags(OptionsModel { fixed_goal: true, ..model }, rest)
        } else if rest.len() == 0 {
            Err((FlagProblem::MissingValue, flag))
        } else if probe_value_ok(kind, rest[0]@) {
            parse_probe_flags(with_probe_value(model, kind, rest[0]@), rest.drop_first())
        } else {
            Err((FlagProblem::BadValue, flag))
        }
    }
}

/// The snapshot episodes increase strictly.
pub open spec fn increasing(checkpoints: Seq<usize>) -> bool {
    forall|i: int| 0 <= i < checkpoints.len() - 1 ==> #[trigger] checkpoints[i] < checkpoints[i + 1]
}

/// The settings of the probe from its flags: those the flags give, where
/// a fixed goal and a goal pool are not both asked for and the snapshot
/// episodes increase.
pub open spec fn probe_settings(args: Seq<String>) -> Result<OptionsModel, (FlagProblem, Seq<char>)> {
    match parse_probe_flags(default_probe_model(), args) {
        Ok(model) => if model.fixed_goal && model.goal_pool_size is Some {
            Err((FlagProblem::ExcludedByAnother, "--fixed-goal"@))
        } else if !increasing(model.checkpoints) {
            Err((FlagProblem::NotIncreasing, "--checkpoints"@))
        } else {
            Ok(model)
        },
        Err(problem) => Err(problem),
    }
}

/// What a flag sets; see `probe_flag`.
pub fn probe_flag_of(flag: &str) -> (result: ProbeFlag)
    ensures
        result == probe_flag(flag@),
{
    if same_text(flag, "--maze") {
        ProbeFlag::Maze
    } else if same_text(flag, "--regimes") {
        ProbeFlag::Regimes
    } else if same_text(flag, "--encodings") {
        ProbeFlag::Encodings
    } else if same_text(flag, "--seeds") {
        ProbeFlag::Seeds
    } else if same_text(flag, "--checkpoints") {
        ProbeFlag::Checkpoints
    } else if same_text(flag, "--her-goals") {
        ProbeFlag::HerGoals
    } else if same_text(flag, "--her-replays") {
        ProbeFlag::HerReplays
    } else if same_text(flag, "--her-buffer") {
        ProbeFlag::HerBuffer
    } else if same_text(flag, "--time-cap-secs") {
        ProbeFlag::TimeCapSecs
    } else if same_text(flag, "--fixed-goal") {
        ProbeFlag::FixedGoal
    } else if same_text(flag, "--goal-pool-size") {
        ProbeFlag::GoalPoolSize
    } else {
        ProbeFlag::Unknown
    }
}

/// The trimmed items of a comma-separated list.
pub fn list_of(text: &str) -> (result: Vec<&str>)
    ensures
        result@.len() == list_items(text@).len(),
        forall|k: int| 0 <= k < result@.len() ==> #[trigger] result@[k]@ == list_items(text@)[k],
{
    let pieces = split_text(text, ',');
    let mut items: Vec<&str> = Vec::new();
    let mut k: usize = 0;
    while k < pieces.len()
        invariant
            pieces@.len() == split_on(text@, ',').len(),
            forall|j: int| 0 <= j < pieces@.len() ==> #[trigger] pieces@[j]@ == split_on(text@, ',')[j],
            k <= pieces@.len(),
            items@.len() == k,
            forall|j: int| 0 <= j < k ==> #[trigger] items@[j]@ == list_items(text@)[j],
        decreases pieces@.len() - k,
    {
        items.push(trim(pieces[k]));
        k += 1;
    }
    items
}

impl Options {
    /// The settings before any flag.
    pub fn defaults() -> (result: Options)
        ensures
            result@ == default_probe_model(),
    {
        let result = Options {
            maze: String::from_str("Maze4-v0"),
            regimes: vec![Regime::Online, Regime::Hindsight],
            encodings: vec![GoalEncoding::Perception, GoalEncoding::Coordinates],
            seeds: vec![42u64, 43u64, 44u64],
            checkpoints: vec![125usize, 250usize, 500usize, 1000usize, 2000usize],
            her_goals: 2,
            her_replays: 4,
            her_buffer: 10_000,
            time_cap_secs: 90,
            fixed_goal: false,
            goal_pool_size: None,
        };
        proof {
            assert(result.regimes@ =~= default_probe_model().regimes);
            assert(result.encodings@ =~= default_probe_model().encodings);
            assert(result.seeds@ =~= default_probe_model().seeds);
            assert(result.checkpoints@ =~= default_probe_model().checkpoints);
        }
        result
    }

    fn set_names(&mut self, kind: ProbeFlag, text: &str) -> (result: bool)
        requires
            kind == ProbeFlag::Regimes || kind == ProbeFlag::Encodings,
        ensures
            result == probe_value_ok(kind, text@),
            result ==> final(self)@ == with_probe_value(old(self)@, kind, text@),
    {
        let items = list_of(text);
        let ghost wanted = list_items(text@);
        let mut regimes: Vec<Regime> = Vec::new();
        let mut encodings: Vec<GoalEncoding> = Vec::new();
        let mut k: usize = 0;
        while k < items.len()
            invariant
                kind == ProbeFlag::Regimes || kind == ProbeFlag::Encodings,
                wanted == list_items(text@),
                items@.len() == wanted.len(),
                forall|j: int| 0 <= j < items@.len() ==> #[trigger] items@[j]@ == wanted[j],
                k <= items@.len(),
                forall|j: int| 0 <= j < k ==> item_ok(kind, #[trigger] wanted[j]),
                kind == ProbeFlag::Regimes ==> regimes@.len() == k,
                kind == ProbeFlag::Encodings ==> encodings@.len() == k,
                forall|j: int| 0 <= j < k && kind == ProbeFlag::Regimes ==> #[trigger] regimes@[j] == regime_of(wanted[j]),
                forall|j: int| 0 <= j < k && kind == ProbeFlag::Encodings ==> #[trigger] encodings@[j] == encoding_of(
                    wanted[j],
                ),
            decreases items@.len() - k,
        {
            let item = items[k];
            if kind == ProbeFlag::Regimes {
                if !(same_text(item, "acs2") || same_text(item, "her")) {
                    return false;
                }
                let regime = Regime::parse(item);
                proof {
                    lemma_regime_name_injective(regime, regime_of(item@));
                    reveal_strlit("acs2");
                    reveal_strlit("her");
                }
                regimes.push(regime);
            } else {
                if !(same_text(item, "perception") || same_text(item, "coordinates")) {
                    return false;
                }
                let encoding = GoalEncoding::parse(item);
                proof {
                    lemma_encoding_name_injective(encoding, encoding_of(item@));
                    reveal_strlit("perception");
                    reveal_strlit("coordinates");
                }
                encodings.push(encoding);
            }
            k += 1;
        }
        if kind == ProbeFlag::Regimes {
            proof {
                assert(regimes@ =~= wanted.map_values(|item: Seq<char>| regime_of(item)));
            }
            self.regimes = regimes;
        } else {
            proof {
                assert(encodings@ =~= wanted.map_values(|item: Seq<char>| encoding_of(item)));
            }
            self.encodings = encodings;
        }
        true
    }

    fn set_numbers(&mut self, kind: ProbeFlag, text: &str) -> (result: bool)
        requires
            kind == ProbeFlag::Seeds || kind == ProbeFlag::Checkpoints,
        ensures
            result == probe_value_ok(kind, text@),
            result ==> final(self)@ == with_probe_value(old(self)@, kind, text@),
    {
        let items = list_of(text);
        let ghost wanted = list_items(text@);
        let max: u64 = if kind == ProbeFlag::Seeds {
            u64::MAX
        } else {
            usize::MAX as u64
        };
        let mut numbers: Vec<u64> = Vec::new();
        let mut k: usize = 0;
        while k < items.len()
            invariant
                kind == ProbeFlag::Seeds || kind == ProbeFlag::Checkpoints,
                max == (if kind == ProbeFlag::Seeds { u64::MAX } else { usize::MAX as u64 }),
                wanted == list_items(text@),
                items@.len() == wanted.len(),
                forall|j: int| 0 <= j < items@.len() ==> #[trigger] items@[j]@ == wanted[j],
                k <= items@.len(),
                numbers@.len() == k,
                forall|j: int| 0 <= j < k ==> item_ok(kind, #[trigger] wanted[j]),
                forall|j: int| 0 <= j < k ==> #[trigger] numbers@[j] == unsigned_value(wanted[j]),
            decreases items@.len() - k,
        {
            match parse_unsigned(items[k], max) {
                Some(number) => {
                    numbers.push(number);
                },
                None => {
                    return false;
                },
            }
            k += 1;
        }
        if kind == ProbeFlag::Seeds {
            proof {
                assert(numbers@ =~= wanted.map_values(|item: Seq<char>| unsigned_value(item) as u64));
            }
            self.seeds = numbers;
        } else {
            let mut checkpoints: Vec<usize> = Vec::new();
            let mut j: usize = 0;
            while j < numbers.len()
                invariant
                    kind == ProbeFlag::Checkpoints,
                    j <= numbers@.len(),
                    numbers@.len() == wanted.len(),
                    checkpoints@.len() == j,
                    forall|i: int| 0 <= i < numbers@.len() ==> #[trigger] numbers@[i] <= usize::MAX,
                    forall|i: int| 0 <= i < numbers@.len() ==> #[trigger] numbers@[i] == unsigned_value(wanted[i]),
                    forall|i: int| 0 <= i < j ==> #[trigger] checkpoints@[i] == numbers@[i] as usize,
                decreases numbers@.len() - j,
            {
                checkpoints.push(numbers[j] as usize);
                j += 1;
            }
            proof {
                assert(checkpoints@ =~= wanted.map_values(|item: Seq<char>| unsigned_value(item) as usize));
            }
            self.checkpoints = checkpoints;
        }
        true
    }

    fn set_value(&mut self, kind: ProbeFlag, value: String) -> (result: bool)
        requires
            kind != ProbeFlag::Unknown,
            kind != ProbeFlag::FixedGoal,
        ensures
            result == probe_value_ok(kind, value@),
            result ==> final(self)@ == with_probe_value(old(self)@, kind, value@),
    {
        let text = value.as_str();
        if kind == ProbeFlag::Maze {
            self.maze = value;
            true
        } else if kind == ProbeFlag::Regimes || kind == ProbeFlag::Encodings {
            self.set_names(kind, text)
        } else if kind == ProbeFlag::Seeds || kind == ProbeFlag::Checkpoints {
            self.set_numbers(kind, text)
        } else if kind == ProbeFlag::TimeCapSecs {
            match parse_unsigned(text, u64::MAX) {
                Some(number) => {
                    self.time_cap_secs = number;
                    true
                },
                None => false,
            }
        } else {
            match parse_unsigned(text, usize::MAX as u64) {
                Some(number) => {
                    let count = number as usize;
                    if kind == ProbeFlag::HerGoals {
                        self.her_goals = count;
                    } else if kind == ProbeFlag::HerReplays {
                        self.her_replays = count;
                    } else if kind == ProbeFlag::HerBuffer {
                        self.her_buffer = count;
                    } else {
                        self.goal_pool_size = Some(count);
                    }
                    true
                },
                None => false,
            }
        }
    }

    fn read_flag(&mut self, args: &mut VecDeque<String>) -> (result: Option<FlagError>)
        requires
            old(args)@.len() > 0,
        ensures
            result is None ==> parse_probe_flags(old(self)@, old(args)@) == parse_probe_flags(
                final(self)@,
                final(args)@,
            ) && final(args)@.len() < old(args)@.len(),
            result matches Some(error) ==> parse_probe_flags(old(self)@, old(args)@) == Err::<
                OptionsModel,
                (FlagProblem, Seq<char>),
            >((error.problem, error.flag@)),
    {
        let ghost remaining = args@;
        let flag = take_first(args);
        let kind = probe_flag_of(flag.as_str());
        assert(remaining[0]@ == flag@);
        assert(remaining.drop_first() == args@);
        if kind == ProbeFlag::Unknown {
            Some(FlagError { problem: FlagProblem::UnknownFlag, flag })
        } else if kind == ProbeFlag::FixedGoal {
            self.fixed_goal = true;
            None
        } else if args.len() == 0 {
            Some(FlagError { problem: FlagProblem::MissingValue, flag })
        } else {
            let value = take_first(args);
            if self.set_value(kind, value) {
                None
            } else {
                Some(FlagError { problem: FlagProblem::BadValue, flag })
            }
        }
    }

    /// Whether the snapshot episodes increase strictly.
    fn checkpoints_increase(&self) -> (result: bool)
        ensures
            result == increasing(self.checkpoints@),
    {
        let length = self.checkpoints.len();
        let mut i: usize = 1;
        while i < length
            invariant
                length == self.checkpoints@.len(),
                1 <= i,
                forall|j: int| 0 <= j < i - 1 && j + 1 < length ==> #[trigger] self.checkpoints@[j]
                    < self.checkpoints@[j + 1],
            decreases length - i,
        {
            if self.checkpoints[i - 1] >= self.checkpoints[i] {
                return false;
            }
            i += 1;
        }
        true
    }

    /// The settings the flags `arguments` give, read from left to right
    /// onto the defaults and then checked as a whole, or the first
    /// problem with them.
    pub fn parse(arguments: VecDeque<String>) -> (result: Result<Options, FlagError>)
        ensures
            (match probe_settings(arguments@) {
                Ok(model) => result matches Ok(options) && options@ == model,
                Err((problem, flag)) => result matches Err(error) && error.problem == problem && error.flag@ == flag,
            }),
    {
        let mut options = Options::defaults();
        let ghost initial = arguments@;
        let mut args = arguments;
        while args.len() > 0
            invariant
                initial == arguments@,
                parse_probe_flags(default_probe_model(), initial) == parse_probe_flags(options@, args@),
            decreases args@.len(),
        {
            match options.read_flag(&mut args) {
                Some(error) => {
                    return Err(error);
                },
                None => {},
            }
        }
        if options.fixed_goal && options.goal_pool_size.is_some() {
            return Err(FlagError { problem: FlagProblem::ExcludedByAnother, flag: String::from_str("--fixed-goal") });
        }
        if !options.checkpoints_increase() {
            return Err(FlagError { problem: FlagProblem::NotIncreasing, flag: String::from_str("--checkpoints") });
        }
        Ok(options)
    }
}

} // verus!
