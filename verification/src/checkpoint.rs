use vstd::prelude::*;

use std::path::PathBuf;

use crate::checkpoint_fields::{
    bits_string, bits_text, bits_value, decimal_string, parse_rng_line, decoded_optional, decodes_bits, decodes_optional, ends_clean,
    field_text, keyword_line, lemma_bits_round_trip, lemma_decimal_plain, lemma_keyword_line, lemma_optional_round_trip,
    lemma_plain_field, opens_with, opens_with_keyword, optional_string, optional_text, optional_value, plain,
    plain_line, texts_view, u64_option,
};
use crate::classifier::Classifier;
use crate::checkpoint_fields::{
    append_line, classifier_decoded, classifier_fields, classifier_strings, decodes_classifier, decodes_sample,
    parse_classifier_line, parse_sample_line, rng_decoded, sample_decoded, sample_fields, sample_strings,
};
use crate::codec::{
    decodes_rng, encode_rng, find_char, first_index_of, free_of, join, key_of, keyed_fields, lemma_first_index_of,
    lemma_first_is_first, lemma_split_nonempty, line_fields, mark_groups, mark_text, rng_fields, rng_text, split_on, split_text, tail, value_of,
};
use crate::mark::{lemma_sorted_unique_by_set, Mark};
use crate::replay::ReplaySample;
use crate::rng::RngState;
use crate::text::{decimal, lemma_decimal_round_trip, parse_unsigned, parses_unsigned, radix_value, same_text, unsigned_value};

verus! {

#[verifier::external_type_specification]
#[verifier::external_body]
pub struct ExPathBuf(PathBuf);

/// `PathBuf::clone`: a copy of the path; nothing is stated of it.
pub assume_specification[ <PathBuf as Clone>::clone ](path: &PathBuf) -> PathBuf;

/// Where and how often a run saves its state, and whether a resumed run may
/// change its evaluation interval.
#[derive(Clone, Debug)]
pub struct CheckpointSettings {
    pub path: PathBuf,
    pub every: u64,
    pub allow_eval_interval_change: bool,
}

/// The floating-point statistics of a classifier as a checkpoint stores
/// them: the bit patterns of its quality, reward, immediate reward and
/// average application interval.
#[derive(Clone, Copy, PartialEq, Eq, Debug, Structural)]
pub struct StoredStats {
    pub q: u64,
    pub r: u64,
    pub ir: u64,
    pub tav: u64,
}

/// What an agent carries from one run segment to the next: its population,
/// its random stream, and its replay memory if it has one.
#[derive(Clone, Debug)]
pub struct AgentState<const N: usize, Q, F> {
    pub population: Vec<Classifier<N, Q>>,
    pub rng: RngState,
    pub replay: Option<Vec<ReplaySample<N, F>>>,
}

/// An agent whose learning state can be taken out and put back.
pub trait Checkpointed<const N: usize, Q, F> {
    fn capture(&self) -> AgentState<N, Q, F>;

    fn restore(&mut self, state: AgentState<N, Q, F>);
}

/// Everything a resumed run needs: which run it is, how far it got, what
/// it measured so far, the environment's random stream and the agent.
#[derive(Clone, Debug)]
pub struct RunState<const N: usize, Q, F> {
    pub identity: String,
    pub eval_interval: u64,
    pub trials_used: u64,
    pub time: u64,
    pub trials_since_eval: u64,
    pub peak_macro_population: usize,
    pub peak_rss_bytes: u64,
    pub wall_seconds: F,
    pub final_knowledge: F,
    pub knowledge_trials: Option<u64>,
    pub verdict: Option<String>,
    pub env_rng: RngState,
    pub agent: AgentState<N, Q, F>,
}


/// A run state as a checkpoint stores it: statistics and measurements as
/// the bit patterns of their floating-point values.
pub type StoredRun<const N: usize> = RunState<N, StoredStats, u64>;

/// A `key=value` field.
pub open spec fn keyed_text(key: Seq<char>, value: Seq<char>) -> Seq<char> {
    key.push('=') + value
}

/// The position of the first field named `key`, or -1 when none is.
pub open spec fn first_key(fields: Seq<Seq<char>>, key: Seq<char>) -> int
    decreases fields.len(),
{
    if fields.len() == 0 {
        -1
    } else if first_key(fields.drop_last(), key) >= 0 {
        first_key(fields.drop_last(), key)
    } else if key_of(fields.last()) == key {
        fields.len() - 1
    } else {
        -1
    }
}

/// The value of the first field named `key`.
pub open spec fn keyed_value(fields: Seq<Seq<char>>, key: Seq<char>) -> Seq<char> {
    value_of(fields[first_key(fields, key)])
}

/// The first field named `key` is the earliest such field.
proof fn lemma_first_key(fields: Seq<Seq<char>>, key: Seq<char>)
    ensures
        first_key(fields, key) < 0 ==> forall|j: int| 0 <= j < fields.len() ==> key_of(#[trigger] fields[j]) != key,
        first_key(fields, key) >= 0 ==> {
            let k = first_key(fields, key);
            &&& k < fields.len()
            &&& key_of(fields[k]) == key
            &&& forall|j: int| 0 <= j < k ==> key_of(#[trigger] fields[j]) != key
        },
    decreases fields.len(),
{
    if fields.len() > 0 {
        let front = fields.drop_last();
        lemma_first_key(front, key);
        let k = first_key(front, key);
        if k >= 0 {
            assert forall|j: int| 0 <= j < k implies key_of(#[trigger] fields[j]) != key by {
                assert(fields[j] == front[j]);
            }
            assert(fields[k] == front[k]);
        } else {
            assert forall|j: int| 0 <= j < front.len() implies key_of(#[trigger] fields[j]) != key by {
                assert(fields[j] == front[j]);
            }
        }
    }
}

/// How a verdict is written: its name, or `-` when there is none.
pub open spec fn verdict_text(verdict: Option<String>) -> Seq<char> {
    match verdict {
        Some(label) => label@,
        None => seq!['-'],
    }
}

/// `verdict` is the verdict a text stands for.
pub open spec fn verdict_decoded(text: Seq<char>, verdict: Option<String>) -> bool {
    if text == seq!['-'] {
        verdict is None
    } else {
        verdict matches Some(label) && label@ == text
    }
}

/// The fields of the `run` line: trials used, time, trials since the last
/// evaluation, peak population, peak memory, wall time, knowledge, the
/// trial the knowledge was reached at, evaluation interval and verdict.
pub open spec fn run_fields<const N: usize>(state: StoredRun<N>) -> Seq<Seq<char>> {
    seq![
        keyed_text("trials"@, decimal(state.trials_used as nat)),
        keyed_text("time"@, decimal(state.time as nat)),
        keyed_text("since_eval"@, decimal(state.trials_since_eval as nat)),
        keyed_text("peak_pop"@, decimal(state.peak_macro_population as nat)),
        keyed_text("peak_rss"@, decimal(state.peak_rss_bytes as nat)),
        keyed_text("wall"@, bits_text(state.wall_seconds)),
        keyed_text("knowledge"@, bits_text(state.final_knowledge)),
        keyed_text("knowledge_trials"@, optional_text(u64_option(state.knowledge_trials))),
        keyed_text("eval_interval"@, decimal(state.eval_interval as nat)),
        keyed_text("verdict"@, verdict_text(state.verdict)),
    ]
}

/// The field named `key` is present and holds a number no greater than
/// `max`.
pub open spec fn has_number(fields: Seq<Seq<char>>, key: Seq<char>, max: nat) -> bool {
    first_key(fields, key) >= 0 && parses_unsigned(keyed_value(fields, key), max)
}

/// The field named `key` is present and holds a bit pattern.
pub open spec fn has_bits(fields: Seq<Seq<char>>, key: Seq<char>) -> bool {
    first_key(fields, key) >= 0 && decodes_bits(keyed_value(fields, key))
}

/// A `run` line that reads: every field is `key=value`, and each field the
/// state needs is present and well formed. Unknown fields are allowed, and
/// of two fields with one name the first counts.
pub open spec fn decodes_run(line: Seq<char>) -> bool {
    let f = line_fields(line);
    &&& opens_with(line, "run"@)
    &&& forall|k: int| 0 <= k < f.len() ==> first_index_of(#[trigger] f[k], '=') >= 0
    &&& has_number(f, "trials"@, u64::MAX as nat)
    &&& has_number(f, "time"@, u64::MAX as nat)
    &&& has_number(f, "since_eval"@, u64::MAX as nat)
    &&& has_number(f, "peak_pop"@, usize::MAX as nat)
    &&& has_number(f, "peak_rss"@, u64::MAX as nat)
    &&& has_bits(f, "wall"@)
    &&& has_bits(f, "knowledge"@)
    &&& first_key(f, "knowledge_trials"@) >= 0
    &&& decodes_optional(keyed_value(f, "knowledge_trials"@), u64::MAX as nat)
    &&& has_number(f, "eval_interval"@, u64::MAX as nat)
    &&& first_key(f, "verdict"@) >= 0
}

/// The measurements of `state` are those the `run` fields stand for.
pub open spec fn run_fields_decoded<const N: usize>(f: Seq<Seq<char>>, state: StoredRun<N>) -> bool {
    &&& state.trials_used == unsigned_value(keyed_value(f, "trials"@))
    &&& state.time == unsigned_value(keyed_value(f, "time"@))
    &&& state.trials_since_eval == unsigned_value(keyed_value(f, "since_eval"@))
    &&& state.peak_macro_population == unsigned_value(keyed_value(f, "peak_pop"@))
    &&& state.peak_rss_bytes == unsigned_value(keyed_value(f, "peak_rss"@))
    &&& state.wall_seconds == radix_value(keyed_value(f, "wall"@), 16)
    &&& state.final_knowledge == radix_value(keyed_value(f, "knowledge"@), 16)
    &&& u64_option(state.knowledge_trials) == decoded_optional(keyed_value(f, "knowledge_trials"@))
    &&& state.eval_interval == unsigned_value(keyed_value(f, "eval_interval"@))
    &&& verdict_decoded(keyed_value(f, "verdict"@), state.verdict)
}

/// The measurements of a `run` line.
struct RunLine {
    trials_used: u64,
    time: u64,
    trials_since_eval: u64,
    peak_macro_population: usize,
    peak_rss_bytes: u64,
    wall_seconds: u64,
    final_knowledge: u64,
    knowledge_trials: Option<u64>,
    eval_interval: u64,
    verdict: Option<String>,
}

/// `run` holds what the fields stand for.
spec fn run_line_decoded(f: Seq<Seq<char>>, run: RunLine) -> bool {
    &&& run.trials_used == unsigned_value(keyed_value(f, "trials"@))
    &&& run.time == unsigned_value(keyed_value(f, "time"@))
    &&& run.trials_since_eval == unsigned_value(keyed_value(f, "since_eval"@))
    &&& run.peak_macro_population == unsigned_value(keyed_value(f, "peak_pop"@))
    &&& run.peak_rss_bytes == unsigned_value(keyed_value(f, "peak_rss"@))
    &&& run.wall_seconds == radix_value(keyed_value(f, "wall"@), 16)
    &&& run.final_knowledge == radix_value(keyed_value(f, "knowledge"@), 16)
    &&& u64_option(run.knowledge_trials) == decoded_optional(keyed_value(f, "knowledge_trials"@))
    &&& run.eval_interval == unsigned_value(keyed_value(f, "eval_interval"@))
    &&& verdict_decoded(keyed_value(f, "verdict"@), run.verdict)
}

/// The value of the first pair named `key`, when one is.
fn lookup<'a>(pairs: &Vec<(&'a str, &'a str)>, key: &str, Ghost(f): Ghost<Seq<Seq<char>>>) -> (result: Option<&'a str>)
    requires
        pairs_of(pairs@, f),
    ensures
        result is Some <==> first_key(f, key@) >= 0,
        result matches Some(value) ==> value@ == keyed_value(f, key@),
{
    let mut k: usize = 0;
    while k < pairs.len()
        invariant
            k <= pairs@.len(),
            pairs@.len() == f.len(),
            forall|i: int|
                0 <= i < pairs@.len() ==> #[trigger] pairs@[i].0@ == key_of(f[i]) && pairs@[i].1@ == value_of(f[i]),
            forall|j: int| 0 <= j < k ==> key_of(#[trigger] f[j]) != key@,
        decreases pairs@.len() - k,
    {
        if same_text(pairs[k].0, key) {
            proof {
                assert(pairs@[k as int].0@ == key_of(f[k as int]));
                lemma_first_key(f, key@);
            }
            return Some(pairs[k].1);
        }
        proof {
            assert(pairs@[k as int].0@ == key_of(f[k as int]));
        }
        k += 1;
    }
    proof {
        lemma_first_key(f, key@);
    }
    None
}

/// `pairs` are the `key=value` fields `f`, split at their first `=`.
spec fn pairs_of(pairs: Seq<(&str, &str)>, f: Seq<Seq<char>>) -> bool {
    &&& pairs.len() == f.len()
    &&& forall|k: int| 0 <= k < pairs.len() ==> #[trigger] pairs[k].0@ == key_of(f[k]) && pairs[k].1@ == value_of(f[k])
}

/// The number in the field named `key`, if it is present and reads as
/// one no greater than `max`.
fn number_field(pairs: &Vec<(&str, &str)>, key: &str, max: u64, Ghost(f): Ghost<Seq<Seq<char>>>) -> (result: Option<u64>)
    requires
        pairs_of(pairs@, f),
    ensures
        result is Some <==> has_number(f, key@, max as nat),
        result matches Some(value) ==> value == unsigned_value(keyed_value(f, key@)),
{
    match lookup(pairs, key, Ghost(f)) {
        Some(text) => parse_unsigned(text, max),
        None => None,
    }
}

/// The bit pattern in the field named `key`, if it is present and reads
/// as one.
fn bits_field(pairs: &Vec<(&str, &str)>, key: &str, Ghost(f): Ghost<Seq<Seq<char>>>) -> (result: Option<u64>)
    requires
        pairs_of(pairs@, f),
    ensures
        result is Some <==> has_bits(f, key@),
        result matches Some(value) ==> value == radix_value(keyed_value(f, key@), 16),
{
    match lookup(pairs, key, Ghost(f)) {
        Some(text) => bits_value(text),
        None => None,
    }
}

/// The measurements a `run` line stands for, if it reads.
fn parse_run_line(line: &str) -> (result: Option<RunLine>)
    ensures
        result is Some <==> decodes_run(line@),
        result matches Some(run) ==> run_line_decoded(line_fields(line@), run),
{
    if !opens_with_keyword(line, "run") {
        return None;
    }
    let fields = tail(line, "run");
    let ghost f = line_fields(line@);
    let mut k: usize = 0;
    while k < fields.len()
        invariant
            k <= fields@.len(),
            fields@.len() == f.len(),
            forall|i: int| 0 <= i < fields@.len() ==> #[trigger] fields@[i]@ == f[i],
            forall|j: int| 0 <= j < k ==> first_index_of(#[trigger] f[j], '=') >= 0,
            f == line_fields(line@),
        decreases fields@.len() - k,
    {
        if find_char(fields[k], '=').is_none() {
            proof {
                assert(fields@[k as int]@ == f[k as int]);
                assert(first_index_of(f[k as int], '=') < 0);
            }
            return None;
        }
        k += 1;
    }
    let pairs = keyed_fields(line, "run");
    proof {
        assert(pairs_of(pairs@, f));
    }
    let trials_used = match number_field(&pairs, "trials", u64::MAX, Ghost(f)) {
        Some(value) => value,
        None => return None,
    };
    let time = match number_field(&pairs, "time", u64::MAX, Ghost(f)) {
        Some(value) => value,
        None => return None,
    };
    let trials_since_eval = match number_field(&pairs, "since_eval", u64::MAX, Ghost(f)) {
        Some(value) => value,
        None => return None,
    };
    let peak_macro_population = match number_field(&pairs, "peak_pop", usize::MAX as u64, Ghost(f)) {
        Some(value) => value as usize,
        None => return None,
    };
    let peak_rss_bytes = match number_field(&pairs, "peak_rss", u64::MAX, Ghost(f)) {
        Some(value) => value,
        None => return None,
    };
    let wall_seconds = match bits_field(&pairs, "wall", Ghost(f)) {
        Some(value) => value,
        None => return None,
    };
    let final_knowledge = match bits_field(&pairs, "knowledge", Ghost(f)) {
        Some(value) => value,
        None => return None,
    };
    let knowledge_trials = match lookup(&pairs, "knowledge_trials", Ghost(f)) {
        Some(text) => match optional_value(text, u64::MAX) {
            Some(value) => value,
            None => return None,
        },
        None => return None,
    };
    let eval_interval = match number_field(&pairs, "eval_interval", u64::MAX, Ghost(f)) {
        Some(value) => value,
        None => return None,
    };
    let verdict = match lookup(&pairs, "verdict", Ghost(f)) {
        Some(text) => {
            proof {
                reveal_strlit("-");
                assert("-"@ =~= seq!['-']);
            }
            if same_text(text, "-") {
                None
            } else {
                Some(String::from_str(text))
            }
        },
        None => return None,
    };
    Some(
        RunLine {
            trials_used,
            time,
            trials_since_eval,
            peak_macro_population,
            peak_rss_bytes,
            wall_seconds,
            final_knowledge,
            knowledge_trials,
            eval_interval,
            verdict,
        },
    )
}


/// A `key=value` field, as written.
fn keyed_string(key: &str, value: String) -> (result: String)
    ensures
        result@ == keyed_text(key@, value@),
{
    let mut text = String::from_str(key);
    text.append("=");
    text.append(value.as_str());
    proof {
        reveal_strlit("=");
        assert(text@ =~= keyed_text(key@, value@));
    }
    text
}

/// The fields of the `run` line, as written.
fn run_strings<const N: usize>(state: &StoredRun<N>) -> (result: Vec<String>)
    ensures
        texts_view(result@) == run_fields(*state),
{
    let mut fields: Vec<String> = Vec::new();
    fields.push(keyed_string("trials", decimal_string(state.trials_used as u128)));
    fields.push(keyed_string("time", decimal_string(state.time as u128)));
    fields.push(keyed_string("since_eval", decimal_string(state.trials_since_eval as u128)));
    fields.push(keyed_string("peak_pop", decimal_string(state.peak_macro_population as u128)));
    fields.push(keyed_string("peak_rss", decimal_string(state.peak_rss_bytes as u128)));
    fields.push(keyed_string("wall", bits_string(state.wall_seconds)));
    fields.push(keyed_string("knowledge", bits_string(state.final_knowledge)));
    fields.push(keyed_string("knowledge_trials", optional_string(state.knowledge_trials)));
    fields.push(keyed_string("eval_interval", decimal_string(state.eval_interval as u128)));
    let verdict = match &state.verdict {
        Some(label) => String::from_str(label.as_str()),
        None => {
            proof {
                reveal_strlit("-");
                assert("-"@ =~= seq!['-']);
            }
            String::from_str("-")
        },
    };
    fields.push(keyed_string("verdict", verdict));
    proof {
        assert(texts_view(fields@) =~= run_fields(*state));
    }
    fields
}

/// A verdict that a checkpoint gives back: it holds no space and no line
/// feed, does not end with a carriage return, and is not `-`.
pub open spec fn verdict_ok(verdict: Option<String>) -> bool {
    match verdict {
        Some(label) => field_text(label@) && ends_clean(label@) && label@ != seq!['-'],
        None => true,
    }
}

/// A `key=value` field splits back at its first `=` when the key holds
/// none.
proof fn lemma_keyed_text(key: Seq<char>, value: Seq<char>)
    requires
        free_of(key, '='),
        field_text(key),
        field_text(value),
        ends_clean(value),
    ensures
        first_index_of(keyed_text(key, value), '=') >= 0,
        key_of(keyed_text(key, value)) == key,
        value_of(keyed_text(key, value)) == value,
        field_text(keyed_text(key, value)),
        ends_clean(keyed_text(key, value)),
{
    let t = keyed_text(key, value);
    let k = key.len() as int;
    assert(t[k] == '=');
    assert forall|i: int| 0 <= i < k implies #[trigger] t[i] != '=' by {
        assert(t[i] == key[i]);
    }
    lemma_first_is_first(t, '=', k);
    assert(t.take(k) =~= key);
    assert(t.skip(k + 1) =~= value);
    assert forall|i: int| 0 <= i < t.len() implies #[trigger] t[i] != ' ' && t[i] != '\n' by {
        if i < k {
            assert(t[i] == key[i]);
        } else if i > k {
            assert(t[i] == value[i - k - 1]);
        }
    }
    if value.len() > 0 {
        assert(t.last() == value.last());
    }
}

/// The first field named `key` is at `k` when the fields before `k` have
/// other names.
proof fn lemma_first_key_at(fields: Seq<Seq<char>>, key: Seq<char>, k: int)
    requires
        0 <= k < fields.len(),
        key_of(fields[k]) == key,
        forall|j: int| 0 <= j < k ==> key_of(#[trigger] fields[j]) != key,
    ensures
        first_key(fields, key) == k,
{
    lemma_first_key(fields, key);
    let m = first_key(fields, key);
    if m >= 0 && m < k {
        assert(key_of(fields[m]) != key);
    }
}

/// The `run` line of a state reads back as the state's measurements.
proof fn lemma_run_round_trip<const N: usize>(state: StoredRun<N>)
    requires
        verdict_ok(state.verdict),
    ensures
        decodes_run(keyword_line("run"@, run_fields(state))),
        line_fields(keyword_line("run"@, run_fields(state))) == run_fields(state),
        run_fields_decoded(run_fields(state), state),
        plain_line(keyword_line("run"@, run_fields(state))),
{
    reveal_strlit("run");
    reveal_strlit("trials");
    reveal_strlit("time");
    reveal_strlit("since_eval");
    reveal_strlit("peak_pop");
    reveal_strlit("peak_rss");
    reveal_strlit("wall");
    reveal_strlit("knowledge");
    reveal_strlit("knowledge_trials");
    reveal_strlit("eval_interval");
    reveal_strlit("verdict");
    let keys = seq![
        "trials"@,
        "time"@,
        "since_eval"@,
        "peak_pop"@,
        "peak_rss"@,
        "wall"@,
        "knowledge"@,
        "knowledge_trials"@,
        "eval_interval"@,
        "verdict"@,
    ];
    let values = seq![
        decimal(state.trials_used as nat),
        decimal(state.time as nat),
        decimal(state.trials_since_eval as nat),
        decimal(state.peak_macro_population as nat),
        decimal(state.peak_rss_bytes as nat),
        bits_text(state.wall_seconds),
        bits_text(state.final_knowledge),
        optional_text(u64_option(state.knowledge_trials)),
        decimal(state.eval_interval as nat),
        verdict_text(state.verdict),
    ];
    let f = run_fields(state);
    lemma_decimal_plain(state.trials_used as nat);
    lemma_decimal_plain(state.time as nat);
    lemma_decimal_plain(state.trials_since_eval as nat);
    lemma_decimal_plain(state.peak_macro_population as nat);
    lemma_decimal_plain(state.peak_rss_bytes as nat);
    lemma_decimal_plain(state.eval_interval as nat);
    lemma_bits_round_trip(state.wall_seconds);
    lemma_bits_round_trip(state.final_knowledge);
    lemma_optional_round_trip(u64_option(state.knowledge_trials), u64::MAX as nat);
    lemma_decimal_round_trip(state.trials_used as nat, u64::MAX as nat);
    lemma_decimal_round_trip(state.time as nat, u64::MAX as nat);
    lemma_decimal_round_trip(state.trials_since_eval as nat, u64::MAX as nat);
    lemma_decimal_round_trip(state.peak_macro_population as nat, usize::MAX as nat);
    lemma_decimal_round_trip(state.peak_rss_bytes as nat, u64::MAX as nat);
    lemma_decimal_round_trip(state.eval_interval as nat, u64::MAX as nat);
    assert forall|i: int| 0 <= i < 10 implies field_text(#[trigger] values[i]) && ends_clean(values[i]) by {
        if i < 9 {
            lemma_plain_field(values[i]);
        } else if state.verdict is None {
            assert(values[i] == seq!['-']);
        }
    }
    assert forall|i: int| 0 <= i < 10 implies free_of(#[trigger] keys[i], '=') && field_text(keys[i]) by {}
    assert forall|i: int| 0 <= i < 10 implies #[trigger] f[i] == keyed_text(keys[i], values[i]) by {}
    assert forall|i: int| 0 <= i < 10 implies key_of(#[trigger] f[i]) == keys[i] && value_of(f[i]) == values[i]
        && first_index_of(f[i], '=') >= 0 && field_text(f[i]) && ends_clean(f[i]) by {
        lemma_keyed_text(keys[i], values[i]);
    }
    assert(field_text("run"@));
    lemma_keyword_line("run"@, f);
    assert("time"@[0] != "wall"@[0]);
    assert("peak_pop"@[5] != "peak_rss"@[5]);
    assert forall|i: int, j: int| 0 <= j < i < 10 implies #[trigger] keys[j] != #[trigger] keys[i] by {
        if keys[j] == keys[i] {
            assert(keys[j].len() == keys[i].len());
            assert(keys[j][0] == keys[i][0]);
            assert(keys[j][5] == keys[i][5]);
        }
    }
    assert forall|i: int| 0 <= i < 10 implies first_key(f, #[trigger] keys[i]) == i by {
        assert forall|j: int| 0 <= j < i implies key_of(#[trigger] f[j]) != keys[i] by {
            assert(keys[j] != keys[i]);
        }
        lemma_first_key_at(f, keys[i], i);
    }
    assert(first_key(f, "trials"@) == 0 && first_key(f, "time"@) == 1);
    assert(first_key(f, "since_eval"@) == 2 && first_key(f, "peak_pop"@) == 3);
    assert(first_key(f, "peak_rss"@) == 4 && first_key(f, "wall"@) == 5);
    assert(first_key(f, "knowledge"@) == 6 && first_key(f, "knowledge_trials"@) == 7);
    assert(first_key(f, "eval_interval"@) == 8 && first_key(f, "verdict"@) == 9);
}


/// The first line of every checkpoint: the format and its version. A
/// version-2 file ends with the `end` line, so a file cut short is refused
/// rather than read as a complete one.
pub open spec fn format_line() -> Seq<char> {
    "acs2-checkpoint 2"@
}

/// A line without the carriage return that ends it, when a line feed
/// follows.
pub open spec fn without_cr(line: Seq<char>, terminated: bool) -> Seq<char> {
    if terminated && line.len() > 0 && line.last() == '\r' {
        line.drop_last()
    } else {
        line
    }
}

/// The lines of a text as `str::lines` gives them: split at each line
/// feed, a carriage return before it dropped, and no empty line after a
/// final line feed.
pub open spec fn text_lines(s: Seq<char>) -> Seq<Seq<char>> {
    let pieces = split_on(s, '\n');
    let kept = if pieces.last().len() == 0 {
        pieces.drop_last()
    } else {
        pieces
    };
    Seq::new(kept.len(), |k: int| without_cr(kept[k], k < pieces.len() - 1))
}

/// Lines, each followed by a line feed.
pub open spec fn terminated_text(lines: Seq<Seq<char>>) -> Seq<char>
    decreases lines.len(),
{
    if lines.len() == 0 {
        Seq::empty()
    } else {
        terminated_text(lines.drop_last()) + lines.last().push('\n')
    }
}

/// The line that names the run.
pub open spec fn identity_line(identity: Seq<char>) -> Seq<char> {
    "identity "@ + identity
}

/// One `c` line per classifier.
pub open spec fn population_lines<const N: usize>(population: Seq<Classifier<N, StoredStats>>) -> Seq<Seq<char>> {
    Seq::new(population.len(), |k: int| keyword_line(seq!['c'], classifier_fields(population[k])))
}

/// One `s` line per remembered step.
pub open spec fn sample_lines<const N: usize>(samples: Seq<ReplaySample<N, u64>>) -> Seq<Seq<char>> {
    Seq::new(samples.len(), |k: int| keyword_line(seq!['s'], sample_fields(samples[k])))
}

/// The replay section: `replay -` without a memory, else the number of
/// steps and a line for each.
pub open spec fn replay_lines<const N: usize>(replay: Option<Vec<ReplaySample<N, u64>>>) -> Seq<Seq<char>> {
    match replay {
        Some(samples) => seq![keyword_line("replay"@, seq![decimal(samples@.len())])] + sample_lines(samples@),
        None => seq![keyword_line("replay"@, seq![seq!['-']])],
    }
}

/// The lines of a checkpoint: format, identity, measurements, the two
/// random streams, the population with its size, the replay section, and
/// `end`.
pub open spec fn checkpoint_lines<const N: usize>(state: StoredRun<N>) -> Seq<Seq<char>> {
    seq![
        format_line(),
        identity_line(state.identity@),
        keyword_line("run"@, run_fields(state)),
        keyword_line("env_rng"@, rng_fields(state.env_rng)),
        keyword_line("agent_rng"@, rng_fields(state.agent.rng)),
        keyword_line("population"@, seq![decimal(state.agent.population@.len())]),
    ] + population_lines(state.agent.population@) + replay_lines(state.agent.replay) + seq!["end"@]
}

/// The text of a checkpoint.
pub open spec fn checkpoint_text<const N: usize>(state: StoredRun<N>) -> Seq<char> {
    terminated_text(checkpoint_lines(state))
}

/// Splits `text` into lines as `str::lines` does.
pub fn split_lines(text: &str) -> (result: Vec<&str>)
    ensures
        result@.len() == text_lines(text@).len(),
        forall|k: int| 0 <= k < result@.len() ==> #[trigger] result@[k]@ == text_lines(text@)[k],
{
    let pieces = split_text(text, '\n');
    proof {
        lemma_split_nonempty(text@, '\n');
    }
    let ghost all = split_on(text@, '\n');
    let count = if pieces[pieces.len() - 1].unicode_len() == 0 {
        pieces.len() - 1
    } else {
        pieces.len()
    };
    let mut lines: Vec<&str> = Vec::new();
    let mut k: usize = 0;
    while k < count
        invariant
            k <= count,
            count <= pieces@.len(),
            pieces@.len() == all.len(),
            all == split_on(text@, '\n'),
            count == text_lines(text@).len(),
            forall|j: int| 0 <= j < pieces@.len() ==> #[trigger] pieces@[j]@ == all[j],
            lines@.len() == k,
            forall|j: int| 0 <= j < k ==> #[trigger] lines@[j]@ == text_lines(text@)[j],
        decreases count - k,
    {
        let piece = pieces[k];
        let length = piece.unicode_len();
        let line = if k + 1 < pieces.len() && length > 0 && piece.get_char(length - 1) == '\r' {
            piece.substring_char(0, length - 1)
        } else {
            piece
        };
        proof {
            assert(piece@ == all[k as int]);
            assert(line@ =~= without_cr(all[k as int], k < all.len() - 1));
        }
        lines.push(line);
        k += 1;
    }
    lines
}

/// Joining a keyword to the text of joined fields gives the line of those
/// fields.
proof fn lemma_join_prepend(keyword: Seq<char>, fields: Seq<Seq<char>>, sep: char)
    requires
        fields.len() >= 1,
    ensures
        join(seq![keyword] + fields, sep) == keyword.push(sep) + join(fields, sep),
    decreases fields.len(),
{
    let all = seq![keyword] + fields;
    assert(all.drop_last() =~= seq![keyword] + fields.drop_last());
    assert(all.last() == fields.last());
    if fields.len() == 1 {
        assert(all.drop_last() =~= seq![keyword]);
        assert(join(seq![keyword], sep) == keyword);
        assert(join(fields, sep) == fields[0]);
        assert(join(all, sep) == keyword.push(sep) + fields[0]);
    } else {
        let front = fields.drop_last();
        lemma_join_prepend(keyword, front, sep);
        assert(join(all, sep) == join(seq![keyword] + front, sep).push(sep) + fields.last());
        assert(join(fields, sep) == join(front, sep).push(sep) + fields.last());
        assert((keyword.push(sep) + join(front, sep)).push(sep) + fields.last() =~= keyword.push(sep) + (join(
            front,
            sep,
        ).push(sep) + fields.last()));
    }
}

/// A keyword line of one field that holds joined fields is the keyword
/// line of those fields.
proof fn lemma_joined_field(keyword: Seq<char>, fields: Seq<Seq<char>>)
    requires
        fields.len() >= 1,
    ensures
        keyword_line(keyword, seq![join(fields, ' ')]) == keyword_line(keyword, fields),
{
    lemma_join_prepend(keyword, fields, ' ');
    lemma_join_prepend(keyword, seq![join(fields, ' ')], ' ');
    assert(join(seq![join(fields, ' ')], ' ') == join(fields, ' '));
}

/// Appending one more line to terminated lines.
proof fn lemma_terminated_push(lines: Seq<Seq<char>>, line: Seq<char>)
    ensures
        terminated_text(lines.push(line)) == terminated_text(lines) + line.push('\n'),
{
    assert(lines.push(line).drop_last() =~= lines);
}

/// The text of two runs of lines is the text of the first and then of the
/// second.
proof fn lemma_terminated_concat(first: Seq<Seq<char>>, second: Seq<Seq<char>>)
    ensures
        terminated_text(first + second) == terminated_text(first) + terminated_text(second),
    decreases second.len(),
{
    if second.len() == 0 {
        assert(first + second =~= first);
        assert(terminated_text(first) + Seq::<char>::empty() =~= terminated_text(first));
    } else {
        let front = second.drop_last();
        lemma_terminated_concat(first, front);
        assert((first + second).drop_last() =~= first + front);
        assert((first + second).last() == second.last());
        assert(terminated_text(first) + terminated_text(second) =~= terminated_text(first) + terminated_text(front)
            + second.last().push('\n'));
    }
}

/// The first six lines of a checkpoint.
pub open spec fn header_lines<const N: usize>(state: StoredRun<N>) -> Seq<Seq<char>> {
    seq![
        format_line(),
        identity_line(state.identity@),
        keyword_line("run"@, run_fields(state)),
        keyword_line("env_rng"@, rng_fields(state.env_rng)),
        keyword_line("agent_rng"@, rng_fields(state.agent.rng)),
        keyword_line("population"@, seq![decimal(state.agent.population@.len())]),
    ]
}

/// Writes the first six lines.
fn append_header<const N: usize>(text: &mut String, state: &StoredRun<N>)
    ensures
        final(text)@ == old(text)@ + terminated_text(header_lines(*state)),
{
    let ghost start = text@;
    let ghost mut lines: Seq<Seq<char>> = Seq::empty();
    let no_fields: Vec<String> = Vec::new();
    proof {
        reveal_strlit("acs2-checkpoint 2");
        reveal_strlit("identity ");
        reveal_strlit("\n");
        assert(texts_view(no_fields@) =~= Seq::<Seq<char>>::empty());
        assert(seq![format_line()] + Seq::<Seq<char>>::empty() =~= seq![format_line()]);
        assert(text@ =~= start + terminated_text(lines));
    }
    append_line(text, "acs2-checkpoint 2", &no_fields);
    proof {
        lemma_terminated_push(lines, format_line());
        lines = lines.push(format_line());
        assert(text@ =~= start + terminated_text(lines));
    }
    text.append("identity ");
    text.append(state.identity.as_str());
    text.append("\n");
    proof {
        lemma_terminated_push(lines, identity_line(state.identity@));
        lines = lines.push(identity_line(state.identity@));
        assert(text@ =~= start + terminated_text(lines));
    }
    append_line(text, "run", &run_strings(state));
    proof {
        lemma_terminated_push(lines, keyword_line("run"@, run_fields(*state)));
        lines = lines.push(keyword_line("run"@, run_fields(*state)));
        assert(text@ =~= start + terminated_text(lines));
    }
    let env = vec![encode_rng(&state.env_rng)];
    append_line(text, "env_rng", &env);
    proof {
        assert(texts_view(env@) =~= seq![rng_text(state.env_rng)]);
        lemma_joined_field("env_rng"@, rng_fields(state.env_rng));
        lemma_terminated_push(lines, keyword_line("env_rng"@, rng_fields(state.env_rng)));
        lines = lines.push(keyword_line("env_rng"@, rng_fields(state.env_rng)));
        assert(text@ =~= start + terminated_text(lines));
    }
    let agent = vec![encode_rng(&state.agent.rng)];
    append_line(text, "agent_rng", &agent);
    proof {
        assert(texts_view(agent@) =~= seq![rng_text(state.agent.rng)]);
        lemma_joined_field("agent_rng"@, rng_fields(state.agent.rng));
        lemma_terminated_push(lines, keyword_line("agent_rng"@, rng_fields(state.agent.rng)));
        lines = lines.push(keyword_line("agent_rng"@, rng_fields(state.agent.rng)));
        assert(text@ =~= start + terminated_text(lines));
    }
    let size = vec![decimal_string(state.agent.population.len() as u128)];
    append_line(text, "population", &size);
    proof {
        let line = keyword_line("population"@, seq![decimal(state.agent.population@.len())]);
        assert(texts_view(size@) =~= seq![decimal(state.agent.population@.len())]);
        lemma_terminated_push(lines, line);
        lines = lines.push(line);
        assert(lines =~= header_lines(*state));
        assert(text@ =~= start + terminated_text(lines));
    }
}

/// Writes a `c` line for each classifier.
fn append_population<const N: usize>(text: &mut String, population: &Vec<Classifier<N, StoredStats>>)
    ensures
        final(text)@ == old(text)@ + terminated_text(population_lines(population@)),
{
    let ghost start = text@;
    let ghost all = population_lines(population@);
    proof {
        reveal_strlit("c");
        assert("c"@ =~= seq!['c']);
        assert(text@ =~= start + terminated_text(all.take(0)));
    }
    let mut k: usize = 0;
    while k < population.len()
        invariant
            k <= population@.len(),
            all == population_lines(population@),
            "c"@ == seq!['c'],
            text@ == start + terminated_text(all.take(k as int)),
        decreases population@.len() - k,
    {
        append_line(text, "c", &classifier_strings(&population[k]));
        proof {
            let line = keyword_line(seq!['c'], classifier_fields(population@[k as int]));
            lemma_terminated_push(all.take(k as int), line);
            assert(all.take(k as int).push(line) =~= all.take(k as int + 1));
            assert(text@ =~= start + terminated_text(all.take(k as int + 1)));
        }
        k += 1;
    }
    proof {
        assert(all.take(population@.len() as int) =~= all);
    }
}

/// Writes the replay section.
fn append_replay<const N: usize>(text: &mut String, replay: &Option<Vec<ReplaySample<N, u64>>>)
    ensures
        final(text)@ == old(text)@ + terminated_text(replay_lines(*replay)),
{
    let ghost start = text@;
    proof {
        reveal_strlit("-");
        reveal_strlit("s");
        assert("-"@ =~= seq!['-']);
        assert("s"@ =~= seq!['s']);
    }
    match replay {
        Some(samples) => {
            let count = vec![decimal_string(samples.len() as u128)];
            append_line(text, "replay", &count);
            let ghost header = seq![keyword_line("replay"@, seq![decimal(samples@.len())])];
            let ghost all = sample_lines(samples@);
            proof {
                assert(texts_view(count@) =~= seq![decimal(samples@.len())]);
                lemma_terminated_push(Seq::empty(), header[0]);
                assert(Seq::<Seq<char>>::empty().push(header[0]) =~= header);
                assert(terminated_text(Seq::<Seq<char>>::empty()) =~= Seq::<char>::empty());
                assert(header + all.take(0) =~= header);
                assert(text@ =~= start + terminated_text(header + all.take(0)));
            }
            let mut j: usize = 0;
            while j < samples.len()
                invariant
                    j <= samples@.len(),
                    all == sample_lines(samples@),
                    "s"@ == seq!['s'],
                    text@ == start + terminated_text(header + all.take(j as int)),
                decreases samples@.len() - j,
            {
                append_line(text, "s", &sample_strings(&samples[j]));
                proof {
                    let line = keyword_line(seq!['s'], sample_fields(samples@[j as int]));
                    lemma_terminated_push(header + all.take(j as int), line);
                    assert((header + all.take(j as int)).push(line) =~= header + all.take(j as int + 1));
                    assert(text@ =~= start + terminated_text(header + all.take(j as int + 1)));
                }
                j += 1;
            }
            proof {
                assert(all.take(samples@.len() as int) =~= all);
            }
        },
        None => {
            let dash = vec![String::from_str("-")];
            append_line(text, "replay", &dash);
            proof {
                let line = keyword_line("replay"@, seq![seq!['-']]);
                assert(texts_view(dash@) =~= seq![seq!['-']]);
                lemma_terminated_push(Seq::empty(), line);
                assert(Seq::<Seq<char>>::empty().push(line) =~= replay_lines(*replay));
                assert(terminated_text(Seq::<Seq<char>>::empty()) =~= Seq::<char>::empty());
                assert(text@ =~= start + terminated_text(replay_lines(*replay)));
            }
        },
    }
}

/// Writes a checkpoint: each line of `checkpoint_lines`, followed by a
/// line feed.
pub fn render<const N: usize>(state: &StoredRun<N>) -> (result: String)
    ensures
        result@ == checkpoint_text(*state),
{
    let mut text = String::new();
    append_header(&mut text, state);
    append_population(&mut text, &state.agent.population);
    append_replay(&mut text, &state.agent.replay);
    let no_fields: Vec<String> = Vec::new();
    append_line(&mut text, "end", &no_fields);
    proof {
        reveal_strlit("end");
        assert(texts_view(no_fields@) =~= Seq::<Seq<char>>::empty());
        assert(seq!["end"@] + Seq::<Seq<char>>::empty() =~= seq!["end"@]);
        let h = header_lines(*state);
        let p = population_lines(state.agent.population@);
        let r = replay_lines(state.agent.replay);
        let e = seq!["end"@];
        lemma_terminated_concat(h, p);
        lemma_terminated_concat(h + p, r);
        lemma_terminated_concat(h + p + r, e);
        lemma_terminated_push(Seq::empty(), "end"@);
        assert(Seq::<Seq<char>>::empty().push("end"@) =~= e);
        assert(terminated_text(Seq::<Seq<char>>::empty()) =~= Seq::<char>::empty());
        assert(checkpoint_lines(*state) =~= h + p + r + e);
        assert(text@ =~= terminated_text(h + p + r + e));
    }
    text
}


/// A `c` line that reads as a classifier of `n` attributes.
pub open spec fn classifier_line_ok(line: Seq<char>, n: nat) -> bool {
    opens_with(line, seq!['c']) && decodes_classifier(line_fields(line), n)
}

/// An `s` line that reads as a remembered step of `n` attributes.
pub open spec fn sample_line_ok(line: Seq<char>, n: nat) -> bool {
    opens_with(line, seq!['s']) && decodes_sample(line_fields(line), n)
}

/// A line that opens with `keyword` and holds at least one field.
pub open spec fn counted_line(line: Seq<char>, keyword: Seq<char>) -> bool {
    opens_with(line, keyword) && line_fields(line).len() >= 1
}

/// The number of classifiers the `population` line announces.
pub open spec fn population_count(lines: Seq<Seq<char>>) -> int {
    unsigned_value(line_fields(lines[5])[0]) as int
}

/// The first field of the replay header, which follows the population.
pub open spec fn replay_field(lines: Seq<Seq<char>>) -> Seq<char> {
    line_fields(lines[6 + population_count(lines)])[0]
}

/// The lines after the header read: as many `c` lines as announced, a
/// replay header, as many `s` lines as it announces, `end`, and nothing
/// more. A field after the count on the `population` or `replay` line is
/// not read.
pub open spec fn decodes_body(lines: Seq<Seq<char>>, n: nat) -> bool {
    let h = 6 + population_count(lines);
    &&& lines.len() > h
    &&& forall|i: int| 6 <= i < h ==> classifier_line_ok(#[trigger] lines[i], n)
    &&& counted_line(lines[h], "replay"@)
    &&& if replay_field(lines) == seq!['-'] {
        &&& lines.len() == h + 2
        &&& lines[h + 1] == "end"@
    } else {
        let m = unsigned_value(replay_field(lines)) as int;
        &&& parses_unsigned(replay_field(lines), usize::MAX as nat)
        &&& lines.len() == h + m + 2
        &&& forall|i: int| h + 1 <= i < h + 1 + m ==> sample_line_ok(#[trigger] lines[i], n)
        &&& lines[h + 1 + m] == "end"@
    }
}

/// A text that reads as a checkpoint for states of `n` attributes.
pub open spec fn decodes_checkpoint(text: Seq<char>, n: nat) -> bool {
    let lines = text_lines(text);
    &&& lines.len() >= 6
    &&& lines[0] == format_line()
    &&& lines[1].len() >= 9 && lines[1].take(9) == "identity "@
    &&& decodes_run(lines[2])
    &&& opens_with(lines[3], "env_rng"@) && decodes_rng(line_fields(lines[3]))
    &&& opens_with(lines[4], "agent_rng"@) && decodes_rng(line_fields(lines[4]))
    &&& counted_line(lines[5], "population"@)
    &&& parses_unsigned(line_fields(lines[5])[0], usize::MAX as nat)
    &&& decodes_body(lines, n)
}

/// `state` is the state a checkpoint text stands for.
pub open spec fn run_decoded<const N: usize>(text: Seq<char>, state: StoredRun<N>) -> bool {
    let lines = text_lines(text);
    let h = 6 + population_count(lines);
    let population = state.agent.population@;
    &&& state.identity@ == lines[1].skip(9)
    &&& run_fields_decoded(line_fields(lines[2]), state)
    &&& rng_decoded(line_fields(lines[3]), state.env_rng)
    &&& rng_decoded(line_fields(lines[4]), state.agent.rng)
    &&& population.len() == population_count(lines)
    &&& forall|k: int| 0 <= k < population.len() ==> classifier_decoded(line_fields(lines[6 + k]), #[trigger] population[k])
    &&& if replay_field(lines) == seq!['-'] {
        state.agent.replay is None
    } else {
        &&& state.agent.replay is Some
        &&& state.agent.replay.unwrap()@.len() == unsigned_value(replay_field(lines))
        &&& forall|j: int|
            0 <= j < state.agent.replay.unwrap()@.len() ==> sample_decoded(
                line_fields(lines[h + 1 + j]),
                #[trigger] state.agent.replay.unwrap()@[j],
            )
    }
}

/// The count a line announces after its keyword, if it opens with the
/// keyword and the count reads.
fn count_field(line: &str, keyword: &str) -> (result: Option<usize>)
    ensures
        result is Some <==> counted_line(line@, keyword@) && parses_unsigned(line_fields(line@)[0], usize::MAX as nat),
        result matches Some(count) ==> count == unsigned_value(line_fields(line@)[0]),
{
    if !opens_with_keyword(line, keyword) {
        return None;
    }
    let fields = tail(line, keyword);
    if fields.len() == 0 {
        return None;
    }
    match parse_unsigned(fields[0], usize::MAX as u64) {
        Some(value) => Some(value as usize),
        None => None,
    }
}

/// The identity a line names, if it starts with `identity `.
fn identity_field(line: &str) -> (result: Option<String>)
    ensures
        result is Some <==> line@.len() >= 9 && line@.take(9) == "identity "@,
        result matches Some(identity) ==> identity@ == line@.skip(9),
{
    let length = line.unicode_len();
    if length < 9 {
        return None;
    }
    if !same_text(line.substring_char(0, 9), "identity ") {
        return None;
    }
    proof {
        assert(line@.subrange(0, 9) =~= line@.take(9));
        assert(line@.subrange(9, length as int) =~= line@.skip(9));
    }
    Some(String::from_str(line.substring_char(9, length)))
}

/// The classifiers of the `c` lines from position 6 on.
fn parse_population<const N: usize>(lines: &Vec<&str>, count: usize) -> (result: Option<Vec<Classifier<N, StoredStats>>>)
    requires
        2 * N <= usize::MAX,
        6 + count < lines@.len(),
    ensures
        result is Some <==> forall|i: int| 6 <= i < 6 + count ==> classifier_line_ok(#[trigger] lines@[i]@, N as nat),
        result matches Some(population) ==> population@.len() == count && forall|k: int|
            0 <= k < count ==> classifier_decoded(line_fields(lines@[6 + k]@), #[trigger] population@[k]),
        result matches Some(population) ==> forall|k: int|
            0 <= k < count ==> (#[trigger] population@[k]).mark.marks_sorted(),
{
    let total = lines.len();
    let mut population: Vec<Classifier<N, StoredStats>> = Vec::new();
    let mut k: usize = 0;
    while k < count
        invariant
            total == lines@.len(),
            k <= count,
            2 * N <= usize::MAX,
            6 + count < lines@.len(),
            population@.len() == k,
            forall|i: int| 6 <= i < 6 + k ==> classifier_line_ok(#[trigger] lines@[i]@, N as nat),
            forall|j: int| 0 <= j < k ==> classifier_decoded(line_fields(lines@[6 + j]@), #[trigger] population@[j]),
            forall|j: int| 0 <= j < k ==> (#[trigger] population@[j]).mark.marks_sorted(),
        decreases count - k,
    {
        match parse_classifier_line::<N>(lines[6 + k]) {
            Some(classifier) => {
                population.push(classifier);
            },
            None => {
                proof {
                    assert(!classifier_line_ok(lines@[6 + k]@, N as nat));
                }
                return None;
            },
        }
        k += 1;
    }
    Some(population)
}

/// The remembered steps of the `s` lines after the replay header at `h`.
fn parse_samples<const N: usize>(lines: &Vec<&str>, h: usize, count: usize) -> (result: Option<Vec<ReplaySample<N, u64>>>)
    requires
        2 * N <= usize::MAX,
        h + 1 + count <= lines@.len(),
    ensures
        result is Some <==> forall|i: int| h + 1 <= i < h + 1 + count ==> sample_line_ok(#[trigger] lines@[i]@, N as nat),
        result matches Some(samples) ==> samples@.len() == count && forall|j: int|
            0 <= j < count ==> sample_decoded(line_fields(lines@[h + 1 + j]@), #[trigger] samples@[j]),
{
    let total = lines.len();
    let mut samples: Vec<ReplaySample<N, u64>> = Vec::new();
    let mut j: usize = 0;
    while j < count
        invariant
            total == lines@.len(),
            j <= count,
            2 * N <= usize::MAX,
            h + 1 + count <= lines@.len(),
            samples@.len() == j,
            forall|i: int| h + 1 <= i < h + 1 + j ==> sample_line_ok(#[trigger] lines@[i]@, N as nat),
            forall|i: int| 0 <= i < j ==> sample_decoded(line_fields(lines@[h + 1 + i]@), #[trigger] samples@[i]),
        decreases count - j,
    {
        match parse_sample_line::<N>(lines[h + 1 + j]) {
            Some(sample) => {
                samples.push(sample);
            },
            None => {
                proof {
                    assert(!sample_line_ok(lines@[h + 1 + j]@, N as nat));
                }
                return None;
            },
        }
        j += 1;
    }
    Some(samples)
}


/// Every classifier of the run keeps its marks in increasing order, as
/// every mark does.
pub open spec fn marks_sorted_run<const N: usize>(state: StoredRun<N>) -> bool {
    forall|k: int| 0 <= k < state.agent.population@.len() ==> (#[trigger] state.agent.population@[k]).mark.marks_sorted()
}

/// Reads a checkpoint for states of `N` attributes. The text must be one
/// in every respect (`try_parse` tells): the format line, every field well
/// formed, counts that match their records, and the `end` line last.
pub fn parse<const N: usize>(text: &str) -> (result: StoredRun<N>)
    requires
        2 * N <= usize::MAX,
        decodes_checkpoint(text@, N as nat),
    ensures
        run_decoded(text@, result),
        marks_sorted_run(result),
{
    let parsed = try_parse::<N>(text);
    parsed.unwrap()
}

/// Reads a checkpoint for states of `N` attributes, or tells that the
/// text is not one: a text that is not one in every respect (a different
/// format line, a missing or malformed field, a count that does not match
/// its records, a missing `end` line or anything after it) gives `None`.
pub fn try_parse<const N: usize>(text: &str) -> (result: Option<StoredRun<N>>)
    requires
        2 * N <= usize::MAX,
    ensures
        result is Some <==> decodes_checkpoint(text@, N as nat),
        result matches Some(state) ==> run_decoded(text@, state),
        result matches Some(state) ==> marks_sorted_run(state),
{
    let lines = split_lines(text);
    let ghost ls = text_lines(text@);
    proof {
        assert forall|k: int| 0 <= k < lines@.len() implies #[trigger] lines@[k]@ == ls[k] by {}
    }
    if lines.len() < 6 || !same_text(lines[0], "acs2-checkpoint 2") {
        return None;
    }
    let identity = match identity_field(lines[1]) {
        Some(identity) => identity,
        None => return None,
    };
    let run = match parse_run_line(lines[2]) {
        Some(run) => run,
        None => return None,
    };
    let env_rng = match parse_rng_line(lines[3], "env_rng") {
        Some(state) => state,
        None => return None,
    };
    let agent_rng = match parse_rng_line(lines[4], "agent_rng") {
        Some(state) => state,
        None => return None,
    };
    let count = match count_field(lines[5], "population") {
        Some(count) => count,
        None => return None,
    };
    if count >= lines.len() - 6 {
        return None;
    }
    let h = 6 + count;
    proof {
        assert(population_count(ls) == count);
        assert forall|i: int| 6 <= i < h implies #[trigger] lines@[i]@ == ls[i] by {}
    }
    let population = match parse_population::<N>(&lines, count) {
        Some(population) => population,
        None => {
            proof {
                let i = choose|i: int| 6 <= i < h && !classifier_line_ok(#[trigger] lines@[i]@, N as nat);
                assert(lines@[i]@ == ls[i]);
            }
            return None;
        },
    };
    proof {
        assert forall|i: int| 6 <= i < h implies classifier_line_ok(#[trigger] ls[i], N as nat) by {
            assert(lines@[i]@ == ls[i]);
        }
        assert forall|k: int| 0 <= k < count implies classifier_decoded(
            line_fields(ls[6 + k]),
            #[trigger] population@[k],
        ) by {
            assert(lines@[6 + k]@ == ls[6 + k]);
        }
        reveal_strlit("-");
        assert("-"@ =~= seq!['-']);
        reveal_strlit("end");
    }
    if !opens_with_keyword(lines[h], "replay") {
        return None;
    }
    let header = tail(lines[h], "replay");
    if header.len() == 0 {
        return None;
    }
    proof {
        assert(lines@[h as int]@ == ls[h as int]);
        assert(header@[0]@ == replay_field(ls));
    }
    let replay = if same_text(header[0], "-") {
        if lines.len() - h != 2 || !same_text(lines[h + 1], "end") {
            return None;
        }
        None
    } else {
        let m = match parse_unsigned(header[0], usize::MAX as u64) {
            Some(value) => value as usize,
            None => return None,
        };
        if lines.len() - h < 2 || lines.len() - h - 2 != m {
            return None;
        }
        proof {
            assert forall|i: int| h + 1 <= i < h + 1 + m implies #[trigger] lines@[i]@ == ls[i] by {}
        }
        let samples = match parse_samples::<N>(&lines, h, m) {
            Some(samples) => samples,
            None => {
                proof {
                    let i = choose|i: int| h + 1 <= i < h + 1 + m && !sample_line_ok(#[trigger] lines@[i]@, N as nat);
                    assert(lines@[i]@ == ls[i]);
                }
                return None;
            },
        };
        proof {
            assert forall|i: int| h + 1 <= i < h + 1 + m implies sample_line_ok(#[trigger] ls[i], N as nat) by {
                assert(lines@[i]@ == ls[i]);
            }
            assert forall|j: int| 0 <= j < m implies sample_decoded(
                line_fields(ls[h + 1 + j]),
                #[trigger] samples@[j],
            ) by {
                assert(lines@[h + 1 + j]@ == ls[h + 1 + j]);
            }
        }
        if !same_text(lines[h + 1 + m], "end") {
            return None;
        }
        Some(samples)
    };
    Some(
        RunState {
            identity,
            eval_interval: run.eval_interval,
            trials_used: run.trials_used,
            time: run.time,
            trials_since_eval: run.trials_since_eval,
            peak_macro_population: run.peak_macro_population,
            peak_rss_bytes: run.peak_rss_bytes,
            wall_seconds: run.wall_seconds,
            final_knowledge: run.final_knowledge,
            knowledge_trials: run.knowledge_trials,
            verdict: run.verdict,
            env_rng,
            agent: AgentState { population, rng: agent_rng, replay },
        },
    )
}


/// Terminated lines are the lines joined by line feeds, with one more at
/// the end.
proof fn lemma_terminated_join(lines: Seq<Seq<char>>)
    ensures
        terminated_text(lines) == join(lines.push(Seq::empty()), '\n'),
    decreases lines.len(),
{
    let all = lines.push(Seq::<char>::empty());
    assert(all.drop_last() =~= lines);
    if lines.len() == 0 {
        assert(join(all, '\n') == all[0]);
    } else {
        let front = lines.drop_last();
        lemma_terminated_join(front);
        assert(front.push(Seq::<char>::empty()).drop_last() =~= front);
        if lines.len() == 1 {
            assert(join(lines, '\n') == lines[0]);
            assert(terminated_text(front) == Seq::<char>::empty());
            assert(terminated_text(lines) =~= Seq::<char>::empty() + lines.last().push('\n'));
        } else {
            assert(join(front.push(Seq::<char>::empty()), '\n') =~= join(front, '\n').push('\n'));
        }
        assert(join(all, '\n') =~= join(lines, '\n').push('\n'));
        assert(terminated_text(lines) =~= join(lines, '\n').push('\n'));
    }
}

/// Lines that hold no line feed and do not end with a carriage return
/// read back from their text as themselves.
pub proof fn lemma_lines_round_trip(lines: Seq<Seq<char>>)
    requires
        forall|k: int| 0 <= k < lines.len() ==> plain_line(#[trigger] lines[k]),
    ensures
        text_lines(terminated_text(lines)) == lines,
{
    let all = lines.push(Seq::<char>::empty());
    assert forall|k: int| 0 <= k < all.len() implies free_of(#[trigger] all[k], '\n') by {
        if k < lines.len() {
            assert(plain_line(lines[k]));
        }
    }
    lemma_terminated_join(lines);
    crate::codec::lemma_split_join(all, '\n');
    let text = terminated_text(lines);
    assert(split_on(text, '\n') == all);
    assert(all.drop_last() =~= lines);
    assert forall|k: int| 0 <= k < lines.len() implies #[trigger] text_lines(text)[k] == lines[k] by {
        assert(plain_line(lines[k]));
    }
    assert(text_lines(text) =~= lines);
}

/// The classifier lines are clean lines that read back as the classifiers.
proof fn lemma_population_lines<const N: usize>(population: Seq<Classifier<N, StoredStats>>)
    ensures
        forall|k: int| 0 <= k < population.len() ==> {
            let line = #[trigger] population_lines(population)[k];
            &&& plain_line(line)
            &&& classifier_line_ok(line, N as nat)
            &&& classifier_decoded(line_fields(line), population[k])
        },
{
    assert forall|k: int| 0 <= k < population.len() implies {
        let line = #[trigger] population_lines(population)[k];
        &&& plain_line(line)
        &&& classifier_line_ok(line, N as nat)
        &&& classifier_decoded(line_fields(line), population[k])
    } by {
        crate::checkpoint_fields::lemma_classifier_round_trip(population[k]);
        crate::checkpoint_fields::lemma_plain_line(seq!['c'], classifier_fields(population[k]));
    }
}

/// The step lines are clean lines that read back as the steps.
proof fn lemma_sample_lines<const N: usize>(samples: Seq<ReplaySample<N, u64>>)
    ensures
        forall|k: int| 0 <= k < samples.len() ==> {
            let line = #[trigger] sample_lines(samples)[k];
            &&& plain_line(line)
            &&& sample_line_ok(line, N as nat)
            &&& sample_decoded(line_fields(line), samples[k])
        },
{
    assert forall|k: int| 0 <= k < samples.len() implies {
        let line = #[trigger] sample_lines(samples)[k];
        &&& plain_line(line)
        &&& sample_line_ok(line, N as nat)
        &&& sample_decoded(line_fields(line), samples[k])
    } by {
        crate::checkpoint_fields::lemma_sample_round_trip(samples[k]);
        crate::checkpoint_fields::lemma_plain_line(seq!['s'], sample_fields(samples[k]));
    }
}

/// An identity a checkpoint gives back: it holds no line feed and does not
/// end with a carriage return.
pub open spec fn identity_ok(identity: Seq<char>) -> bool {
    free_of(identity, '\n') && ends_clean(identity)
}

/// A state a checkpoint can hold and give back unchanged.
pub open spec fn renderable<const N: usize>(state: StoredRun<N>) -> bool {
    identity_ok(state.identity@) && verdict_ok(state.verdict)
}

/// The header lines of a state are clean and read back as its header.
proof fn lemma_header_round_trip<const N: usize>(state: StoredRun<N>)
    requires
        renderable(state),
    ensures
        forall|k: int| 0 <= k < 6 ==> plain_line(#[trigger] header_lines(state)[k]),
        header_lines(state)[0] == format_line(),
        header_lines(state)[1].len() >= 9,
        header_lines(state)[1].take(9) == "identity "@,
        header_lines(state)[1].skip(9) == state.identity@,
        decodes_run(header_lines(state)[2]),
        run_fields_decoded(line_fields(header_lines(state)[2]), state),
        opens_with(header_lines(state)[3], "env_rng"@),
        decodes_rng(line_fields(header_lines(state)[3])),
        rng_decoded(line_fields(header_lines(state)[3]), state.env_rng),
        opens_with(header_lines(state)[4], "agent_rng"@),
        decodes_rng(line_fields(header_lines(state)[4])),
        rng_decoded(line_fields(header_lines(state)[4]), state.agent.rng),
        counted_line(header_lines(state)[5], "population"@),
        parses_unsigned(line_fields(header_lines(state)[5])[0], usize::MAX as nat),
        unsigned_value(line_fields(header_lines(state)[5])[0]) == state.agent.population@.len(),
{
    let h = header_lines(state);
    reveal_strlit("acs2-checkpoint 2");
    reveal_strlit("identity ");
    reveal_strlit("env_rng");
    reveal_strlit("agent_rng");
    reveal_strlit("population");
    assert(plain_line(h[0])) by {
        assert(format_line().last() == '2');
    }
    let identity = state.identity@;
    let line = identity_line(identity);
    assert(line.take(9) =~= "identity "@);
    assert(line.skip(9) =~= identity);
    assert(plain_line(line)) by {
        assert forall|i: int| 0 <= i < line.len() implies #[trigger] line[i] != '\n' by {
            if i >= 9 {
                assert(line[i] == identity[i - 9]);
            }
        }
        if identity.len() > 0 {
            assert(line.last() == identity.last());
        }
    }
    lemma_run_round_trip(state);
    crate::checkpoint_fields::lemma_rng_fields_round_trip(state.env_rng);
    crate::checkpoint_fields::lemma_rng_fields_round_trip(state.agent.rng);
    assert(plain("env_rng"@));
    assert(plain("agent_rng"@));
    assert(plain("population"@));
    crate::checkpoint_fields::lemma_plain_line("env_rng"@, rng_fields(state.env_rng));
    crate::checkpoint_fields::lemma_plain_line("agent_rng"@, rng_fields(state.agent.rng));
    let size = state.agent.population@.len();
    assert(state.agent.population.len() == size);
    lemma_decimal_plain(size);
    lemma_decimal_round_trip(size, usize::MAX as nat);
    crate::checkpoint_fields::lemma_plain_line("population"@, seq![decimal(size)]);
}

/// The replay section of a state is clean and reads back as its memory.
proof fn lemma_replay_round_trip<const N: usize>(replay: Option<Vec<ReplaySample<N, u64>>>)
    ensures
        replay_lines(replay).len() >= 1,
        forall|k: int| 0 <= k < replay_lines(replay).len() ==> plain_line(#[trigger] replay_lines(replay)[k]),
        counted_line(replay_lines(replay)[0], "replay"@),
        replay is None ==> replay_lines(replay).len() == 1 && line_fields(replay_lines(replay)[0])[0] == seq!['-'],
        replay matches Some(samples) ==> {
            let field = line_fields(replay_lines(replay)[0])[0];
            &&& field != seq!['-']
            &&& parses_unsigned(field, usize::MAX as nat)
            &&& unsigned_value(field) == samples@.len()
            &&& replay_lines(replay).len() == 1 + samples@.len()
            &&& forall|j: int|
                0 <= j < samples@.len() ==> sample_line_ok(#[trigger] replay_lines(replay)[1 + j], N as nat)
                    && sample_decoded(line_fields(replay_lines(replay)[1 + j]), samples@[j])
        },
{
    reveal_strlit("replay");
    assert(plain("replay"@));
    let r = replay_lines(replay);
    match replay {
        Some(samples) => {
            let size = samples@.len();
            assert(samples.len() == size);
            lemma_decimal_plain(size);
            lemma_decimal_round_trip(size, usize::MAX as nat);
            crate::text::lemma_decimal_parses(size);
            assert(decimal(size) != seq!['-']) by {
                assert(crate::text::is_digit(decimal(size)[0]));
            }
            crate::checkpoint_fields::lemma_plain_line("replay"@, seq![decimal(size)]);
            lemma_sample_lines(samples@);
            let steps = sample_lines(samples@);
            assert forall|k: int| 0 <= k < r.len() implies plain_line(#[trigger] r[k]) by {
                if k > 0 {
                    assert(r[k] == steps[k - 1]);
                }
            }
            assert forall|j: int| 0 <= j < size implies sample_line_ok(#[trigger] r[1 + j], N as nat)
                && sample_decoded(line_fields(r[1 + j]), samples@[j]) by {
                assert(r[1 + j] == steps[j]);
            }
        },
        None => {
            assert(plain(seq!['-']));
            crate::checkpoint_fields::lemma_plain_line("replay"@, seq![seq!['-']]);
        },
    }
}


/// A state a checkpoint can hold reads back from its text: the text is
/// accepted, and the state is one it decodes to.
pub proof fn lemma_checkpoint_round_trip<const N: usize>(state: StoredRun<N>)
    requires
        renderable(state),
    ensures
        decodes_checkpoint(checkpoint_text(state), N as nat),
        run_decoded(checkpoint_text(state), state),
{
    let population = state.agent.population@;
    let count = population.len() as int;
    let head = header_lines(state);
    let body = population_lines(population);
    let replay = replay_lines(state.agent.replay);
    let end = seq!["end"@];
    lemma_header_round_trip(state);
    lemma_population_lines(population);
    lemma_replay_round_trip(state.agent.replay);
    reveal_strlit("end");
    let lines = checkpoint_lines(state);
    assert(lines =~= head + body + replay + end);
    let h = 6 + count;
    assert forall|i: int| 0 <= i < 6 implies #[trigger] lines[i] == head[i] by {}
    assert forall|k: int| 0 <= k < count implies #[trigger] lines[6 + k] == body[k] by {}
    assert forall|j: int| 0 <= j < replay.len() implies #[trigger] lines[h + j] == replay[j] by {}
    assert(lines[h + replay.len()] == "end"@);
    assert(lines.len() == h + replay.len() + 1);
    assert forall|i: int| 0 <= i < lines.len() implies plain_line(#[trigger] lines[i]) by {
        if i < 6 {
            assert(lines[i] == head[i]);
        } else if i < h {
            assert(lines[6 + (i - 6)] == body[i - 6]);
        } else if i < h + replay.len() {
            assert(lines[h + (i - h)] == replay[i - h]);
        } else {
            assert(lines[i] == "end"@);
        }
    }
    lemma_lines_round_trip(lines);
    let text = checkpoint_text(state);
    assert(text_lines(text) == lines);
    assert(lines[5] == head[5]);
    assert(population_count(lines) == count);
    assert forall|i: int| 6 <= i < h implies classifier_line_ok(#[trigger] lines[i], N as nat) by {
        assert(lines[6 + (i - 6)] == body[i - 6]);
    }
    assert forall|k: int| 0 <= k < count implies classifier_decoded(line_fields(lines[6 + k]), #[trigger] population[k]) by {
        assert(lines[6 + k] == body[k]);
    }
    assert(lines[h + 0] == replay[0]);
    match state.agent.replay {
        Some(samples) => {
            let m = samples@.len() as int;
            assert forall|i: int| h + 1 <= i < h + 1 + m implies sample_line_ok(#[trigger] lines[i], N as nat) by {
                assert(lines[h + (i - h)] == replay[i - h]);
                assert(replay[1 + (i - h - 1)] == replay[i - h]);
            }
            assert forall|j: int| 0 <= j < m implies sample_decoded(
                line_fields(lines[h + 1 + j]),
                #[trigger] samples@[j],
            ) by {
                assert(lines[h + (1 + j)] == replay[1 + j]);
            }
        },
        None => {},
    }
}

/// Two classifiers are the same rule with the same marks and statistics.
pub open spec fn same_classifier<const N: usize>(a: Classifier<N, StoredStats>, b: Classifier<N, StoredStats>) -> bool {
    &&& a.condition.symbols@ == b.condition.symbols@
    &&& a.action == b.action
    &&& a.effect.symbols@ == b.effect.symbols@
    &&& forall|p: int| 0 <= p < N ==> (#[trigger] a.mark.marked(p)).to_set() == b.mark.marked(p).to_set()
    &&& a.num == b.num
    &&& a.exp == b.exp
    &&& a.talp == b.talp
    &&& a.tga == b.tga
    &&& a.ee == b.ee
    &&& a.stats == b.stats
}

/// Two remembered steps are the same.
pub open spec fn same_sample<const N: usize>(a: ReplaySample<N, u64>, b: ReplaySample<N, u64>) -> bool {
    &&& a.state.symbols@ == b.state.symbols@
    &&& a.action == b.action
    &&& a.reward == b.reward
    &&& a.next_state.symbols@ == b.next_state.symbols@
    &&& a.done == b.done
}

/// Two generator states are the same.
pub open spec fn same_rng(a: RngState, b: RngState) -> bool {
    a.seed@ == b.seed@ && a.stream == b.stream && a.word_pos == b.word_pos
}

/// Two run states hold the same run.
pub open spec fn same_run<const N: usize>(a: StoredRun<N>, b: StoredRun<N>) -> bool {
    &&& a.identity@ == b.identity@
    &&& a.eval_interval == b.eval_interval
    &&& a.trials_used == b.trials_used
    &&& a.time == b.time
    &&& a.trials_since_eval == b.trials_since_eval
    &&& a.peak_macro_population == b.peak_macro_population
    &&& a.peak_rss_bytes == b.peak_rss_bytes
    &&& a.wall_seconds == b.wall_seconds
    &&& a.final_knowledge == b.final_knowledge
    &&& a.knowledge_trials == b.knowledge_trials
    &&& a.verdict is None <==> b.verdict is None
    &&& verdict_text(a.verdict) == verdict_text(b.verdict)
    &&& same_rng(a.env_rng, b.env_rng)
    &&& same_rng(a.agent.rng, b.agent.rng)
    &&& a.agent.population@.len() == b.agent.population@.len()
    &&& forall|k: int|
        0 <= k < a.agent.population@.len() ==> same_classifier(
            #[trigger] a.agent.population@[k],
            b.agent.population@[k],
        )
    &&& a.agent.replay is None <==> b.agent.replay is None
    &&& (a.agent.replay is Some ==> {
        let x = a.agent.replay.unwrap()@;
        let y = b.agent.replay.unwrap()@;
        &&& x.len() == y.len()
        &&& forall|j: int| 0 <= j < x.len() ==> same_sample(#[trigger] x[j], y[j])
    })
}

/// A text decodes to one run only.
pub proof fn lemma_decoded_unique<const N: usize>(text: Seq<char>, a: StoredRun<N>, b: StoredRun<N>)
    requires
        run_decoded(text, a),
        run_decoded(text, b),
    ensures
        same_run(a, b),
{
    let lines = text_lines(text);
    let fa = line_fields(lines[2]);
    assert(a.knowledge_trials == b.knowledge_trials) by {
        assert(u64_option(a.knowledge_trials) == u64_option(b.knowledge_trials));
    }
    assert(a.agent.rng.seed@ =~= b.agent.rng.seed@);
    assert(a.env_rng.seed@ =~= b.env_rng.seed@);
    assert forall|k: int| 0 <= k < a.agent.population@.len() implies same_classifier(
        #[trigger] a.agent.population@[k],
        b.agent.population@[k],
    ) by {
        let x = a.agent.population@[k];
        let y = b.agent.population@[k];
        assert(classifier_decoded(line_fields(lines[6 + k]), x));
        assert(classifier_decoded(line_fields(lines[6 + k]), y));
        assert(x.condition.symbols@ =~= y.condition.symbols@);
        assert(x.effect.symbols@ =~= y.effect.symbols@);
        assert(x.action == y.action) by {
            assert(crate::checkpoint_fields::usize_option(x.action) == crate::checkpoint_fields::usize_option(
                y.action,
            ));
        }
        assert(x.talp == y.talp) by {
            assert(u64_option(x.talp) == u64_option(y.talp));
        }
    }
    if a.agent.replay is Some {
        let x = a.agent.replay.unwrap()@;
        let y = b.agent.replay.unwrap()@;
        let h = 6 + population_count(lines);
        assert forall|j: int| 0 <= j < x.len() implies same_sample(#[trigger] x[j], y[j]) by {
            assert(sample_decoded(line_fields(lines[h + 1 + j]), x[j]));
            assert(sample_decoded(line_fields(lines[h + 1 + j]), y[j]));
            assert(x[j].state.symbols@ =~= y[j].state.symbols@);
            assert(x[j].next_state.symbols@ =~= y[j].next_state.symbols@);
        }
    }
}

/// What a checkpoint reads back is the state that was written, for every
/// state a checkpoint can hold: `parse(render(state))` gives the same run.
pub proof fn lemma_checkpoint_restores<const N: usize>(state: StoredRun<N>, restored: StoredRun<N>)
    requires
        renderable(state),
        run_decoded(checkpoint_text(state), restored),
    ensures
        same_run(state, restored),
{
    lemma_checkpoint_round_trip(state);
    lemma_decoded_unique(checkpoint_text(state), state, restored);
}


/// Marks that hold the same symbols at every position are written alike.
proof fn lemma_mark_groups_agree<const N: usize>(a: Mark<N>, b: Mark<N>, n: nat)
    requires
        forall|p: int| 0 <= p < n ==> #[trigger] a.marked(p) == b.marked(p),
    ensures
        mark_groups(a, n) == mark_groups(b, n),
    decreases n,
{
    if n > 0 {
        lemma_mark_groups_agree(a, b, (n - 1) as nat);
        assert(a.marked(n - 1) == b.marked(n - 1));
    }
}

/// Two classifiers that are the same rule, with marks kept in order, are
/// written alike.
proof fn lemma_same_classifier_fields<const N: usize>(a: Classifier<N, StoredStats>, b: Classifier<N, StoredStats>)
    requires
        same_classifier(a, b),
        a.mark.marks_sorted(),
        b.mark.marks_sorted(),
    ensures
        classifier_fields(a) == classifier_fields(b),
{
    assert forall|p: int| 0 <= p < N implies #[trigger] a.mark.marked(p) == b.mark.marked(p) by {
        lemma_sorted_unique_by_set(a.mark.marked(p), b.mark.marked(p));
    }
    lemma_mark_groups_agree(a.mark, b.mark, N as nat);
    assert(mark_text(a.mark) == mark_text(b.mark));
    assert(classifier_fields(a) =~= classifier_fields(b));
}

/// Rendering what a checkpoint reads back gives the checkpoint's text
/// again, for every state a checkpoint can hold: `render(parse(render(s)))`
/// is `render(s)`. (Marks are kept in order, as every mark is.)
pub proof fn lemma_checkpoint_renders_again<const N: usize>(state: StoredRun<N>, restored: StoredRun<N>)
    requires
        renderable(state),
        marks_sorted_run(state),
        marks_sorted_run(restored),
        run_decoded(checkpoint_text(state), restored),
    ensures
        checkpoint_text(restored) == checkpoint_text(state),
{
    lemma_checkpoint_restores(state, restored);
    let a = state.agent.population@;
    let b = restored.agent.population@;
    assert forall|k: int| 0 <= k < a.len() implies #[trigger] classifier_fields(a[k]) == classifier_fields(b[k]) by {
        assert(same_classifier(a[k], b[k]));
        assert(a[k].mark.marks_sorted());
        assert(b[k].mark.marks_sorted());
        lemma_same_classifier_fields(a[k], b[k]);
    }
    assert(population_lines(a) =~= population_lines(b));
    assert(state.env_rng.seed@ == restored.env_rng.seed@);
    assert(state.agent.rng.seed@ == restored.agent.rng.seed@);
    assert(rng_fields(state.env_rng) == rng_fields(restored.env_rng));
    assert(rng_fields(state.agent.rng) == rng_fields(restored.agent.rng));
    assert(run_fields(state) =~= run_fields(restored));
    match state.agent.replay {
        Some(x) => {
            let y = restored.agent.replay.unwrap();
            assert forall|j: int| 0 <= j < x@.len() implies #[trigger] sample_fields(x@[j]) == sample_fields(y@[j]) by {
                assert(same_sample(x@[j], y@[j]));
                assert(sample_fields(x@[j]) =~= sample_fields(y@[j]));
            }
            assert(sample_lines(x@) =~= sample_lines(y@));
        },
        None => {},
    }
    assert(replay_lines(state.agent.replay) == replay_lines(restored.agent.replay));
    assert(checkpoint_lines(state) =~= checkpoint_lines(restored));
}

/// The name of the file a checkpoint named `name` is staged in by process
/// `process` before it is renamed into place.
pub open spec fn staging_text(name: Seq<char>, process: nat) -> Seq<char> {
    name + ".partial."@ + decimal(process)
}

/// The staging file name: the whole destination name, then `.partial.`
/// and the process id. Appending to the whole name keeps a destination
/// that already ends in `.partial` off itself and two destinations that
/// share a stem off one staging file.
pub fn staging_file_name(name: &str, process: u32) -> (result: String)
    ensures
        result@ == staging_text(name@, process as nat),
{
    let mut text = String::from_str(name);
    text.append(".partial.");
    crate::text::append_decimal(&mut text, process as u128);
    text
}

/// A staging name never is its destination, and different destinations
/// of one process never share a staging name.
pub proof fn lemma_staging_is_distinct(name: Seq<char>, other: Seq<char>, process: nat)
    ensures
        staging_text(name, process) != name,
        staging_text(name, process) == staging_text(other, process) ==> name == other,
{
    reveal_strlit(".partial.");
    let suffix = ".partial."@ + decimal(process);
    assert(staging_text(name, process) =~= name + suffix);
    assert(staging_text(other, process) =~= other + suffix);
    assert(staging_text(name, process).len() > name.len());
    if staging_text(name, process) == staging_text(other, process) {
        assert(name.len() == other.len());
        assert(name =~= (name + suffix).take(name.len() as int));
        assert(other =~= (other + suffix).take(other.len() as int));
    }
}

} // verus!
