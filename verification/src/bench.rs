use vstd::prelude::*;

use std::collections::VecDeque;

use crate::config::AlpGenVariant;
use crate::multiplexer::{control_bits_for, control_bits_of, is_mpx_length, lemma_control_bits_unique};
use crate::replay::ReplayConfiguration;
use crate::text::{append_decimal, decimal, parse_unsigned, parses_unsigned, same_text, unsigned_value};

verus! {

/// How the generalization limit `u_max` of a run is chosen: the
/// configuration's default, a fixed value, or derived from the size of the
/// multiplexer.
#[derive(Clone, Copy, PartialEq, Eq, Debug, Structural)]
pub enum UMaxMode {
    Default,
    Fixed(u32),
    Derived,
}

/// The name of an ALP variant on the command line.
pub open spec fn variant_name(variant: AlpGenVariant) -> Seq<char> {
    match variant {
        AlpGenVariant::Pyalcs => "pyalcs"@,
        AlpGenVariant::Butz => "butz"@,
    }
}

/// The variant a name stands for; the name must be one of the two.
pub fn parse_variant(value: &str) -> (result: AlpGenVariant)
    requires
        value@ == "pyalcs"@ || value@ == "butz"@,
    ensures
        variant_name(result) == value@,
{
    if same_text(value, "pyalcs") {
        AlpGenVariant::Pyalcs
    } else {
        AlpGenVariant::Butz
    }
}

pub fn variant_label(variant: AlpGenVariant) -> (result: &'static str)
    ensures
        result@ == variant_name(variant),
{
    match variant {
        AlpGenVariant::Pyalcs => "pyalcs",
        AlpGenVariant::Butz => "butz",
    }
}

/// Different variants have different names, so a label parses back to
/// its variant.
pub proof fn lemma_variant_name_injective(a: AlpGenVariant, b: AlpGenVariant)
    ensures
        variant_name(a) == variant_name(b) ==> a == b,
{
    reveal_strlit("pyalcs");
    reveal_strlit("butz");
    assert("pyalcs"@.len() != "butz"@.len());
}

/// How many attributes beyond the address bits the derived `u_max` allows.
pub open spec fn variant_offset(variant: AlpGenVariant) -> nat {
    match variant {
        AlpGenVariant::Pyalcs => 2,
        AlpGenVariant::Butz => 3,
    }
}

/// The generalization limit derived from a multiplexer of `size` input
/// bits: its address bits plus the variant's offset.
pub fn derived_u_max(size: usize, variant: AlpGenVariant) -> (result: u32)
    requires
        size < usize::MAX,
        is_mpx_length((size + 1) as nat),
    ensures
        result == control_bits_of((size + 1) as nat) + variant_offset(variant),
{
    let address_bits = control_bits_for(size + 1);
    proof {
        lemma_control_bits_unique(address_bits as nat, (size + 1) as nat);
    }
    let offset: usize = match variant {
        AlpGenVariant::Pyalcs => 2,
        AlpGenVariant::Butz => 3,
    };
    (address_bits + offset) as u32
}

/// The `u_max` a run uses.
pub fn resolve_u_max(mode: UMaxMode, default: u32, size: usize, variant: AlpGenVariant) -> (result: u32)
    requires
        mode is Derived ==> size < usize::MAX && is_mpx_length((size + 1) as nat),
    ensures
        result == match mode {
            UMaxMode::Default => default as nat,
            UMaxMode::Fixed(value) => value as nat,
            UMaxMode::Derived => control_bits_of((size + 1) as nat) + variant_offset(variant),
        },
{
    match mode {
        UMaxMode::Default => default,
        UMaxMode::Fixed(value) => value,
        UMaxMode::Derived => derived_u_max(size, variant),
    }
}

/// `derived`, or a number that fits a `u32`.
pub fn parse_u_max_mode(value: &str) -> (result: UMaxMode)
    requires
        value@ == "derived"@ || parses_unsigned(value@, u32::MAX as nat),
    ensures
        value@ == "derived"@ ==> result == UMaxMode::Derived,
        value@ != "derived"@ ==> result == UMaxMode::Fixed(unsigned_value(value@) as u32),
{
    if same_text(value, "derived") {
        UMaxMode::Derived
    } else {
        match parse_unsigned(value, u32::MAX as u64) {
            Some(number) => UMaxMode::Fixed(number as u32),
            None => {
                proof {
                    assert(false);
                }
                UMaxMode::Derived
            },
        }
    }
}

/// The learning agent a run uses.
#[derive(Clone, Copy, PartialEq, Eq, Debug, Structural)]
pub enum AgentChoice {
    Acs2,
    Acs2Er,
}

/// The name of an agent on the command line.
pub open spec fn agent_name(agent: AgentChoice) -> Seq<char> {
    match agent {
        AgentChoice::Acs2 => "acs2"@,
        AgentChoice::Acs2Er => "acs2er"@,
    }
}

/// The agent a name stands for; the name must be one of the two.
pub fn parse_agent(value: &str) -> (result: AgentChoice)
    requires
        value@ == "acs2"@ || value@ == "acs2er"@,
    ensures
        agent_name(result) == value@,
{
    if same_text(value, "acs2") {
        AgentChoice::Acs2
    } else {
        AgentChoice::Acs2Er
    }
}

pub fn agent_label(agent: AgentChoice) -> (result: &'static str)
    ensures
        result@ == agent_name(agent),
{
    match agent {
        AgentChoice::Acs2 => "acs2",
        AgentChoice::Acs2Er => "acs2er",
    }
}

/// Different agents have different names, so a label parses back to its
/// agent.
pub proof fn lemma_agent_name_injective(a: AgentChoice, b: AgentChoice)
    ensures
        agent_name(a) == agent_name(b) ==> a == b,
{
    reveal_strlit("acs2");
    reveal_strlit("acs2er");
    assert("acs2"@.len() != "acs2er"@.len());
}

/// The agent of a run and its replay settings.
#[derive(Clone, Copy, Debug)]
pub struct AgentOptions {
    pub agent: AgentChoice,
    pub replay: ReplayConfiguration,
}

impl Default for AgentOptions {
    fn default() -> (result: Self)
        ensures
            result.agent == AgentChoice::Acs2,
            result.replay == ReplayConfiguration::default_protocol_spec(),
    {
        Self { agent: AgentChoice::Acs2, replay: ReplayConfiguration::default_protocol() }
    }
}

/// The flags `try_parse_flag` reads, each followed by one value.
pub open spec fn is_agent_flag(flag: Seq<char>) -> bool {
    flag == "--agent"@ || flag == "--er-buffer-size"@ || flag == "--er-min-samples"@ || flag
        == "--er-samples-number"@
}

/// The value that follows `flag` is one the flag accepts.
pub open spec fn accepts_value(flag: Seq<char>, args: Seq<String>) -> bool {
    &&& args.len() > 0
    &&& flag == "--agent"@ ==> (args[0]@ == "acs2"@ || args[0]@ == "acs2er"@)
    &&& flag != "--agent"@ ==> parses_unsigned(args[0]@, usize::MAX as nat)
}

/// The text `describe` gives.
pub open spec fn description(options: AgentOptions) -> Seq<char> {
    match options.agent {
        AgentChoice::Acs2 => "agent=acs2"@,
        AgentChoice::Acs2Er => "agent=acs2er er_buffer_size="@ + decimal(options.replay.buffer_size as nat)
            + " er_min_samples="@ + decimal(options.replay.min_samples as nat) + " er_samples_number="@
            + decimal(options.replay.samples_number as nat),
    }
}

impl AgentOptions {
    /// Reads one of the agent flags and the value after it from `args`;
    /// any other flag is left alone and `false` returned.
    pub fn try_parse_flag(&mut self, flag: &str, args: &mut VecDeque<String>) -> (result: bool)
        requires
            is_agent_flag(flag@) ==> accepts_value(flag@, old(args)@),
        ensures
            result == is_agent_flag(flag@),
            !result ==> *final(self) == *old(self) && final(args)@ == old(args)@,
            result ==> final(args)@ == old(args)@.drop_first(),
            flag@ == "--agent"@ ==> final(self).replay == old(self).replay && agent_name(final(self).agent)
                == old(args)@[0]@,
            flag@ == "--er-buffer-size"@ ==> final(self).agent == old(self).agent && final(self).replay
                == (ReplayConfiguration { buffer_size: unsigned_value(old(args)@[0]@) as usize, ..old(self).replay }),
            flag@ == "--er-min-samples"@ ==> final(self).agent == old(self).agent && final(self).replay
                == (ReplayConfiguration { min_samples: unsigned_value(old(args)@[0]@) as usize, ..old(self).replay }),
            flag@ == "--er-samples-number"@ ==> final(self).agent == old(self).agent && final(self).replay == (
            ReplayConfiguration { samples_number: unsigned_value(old(args)@[0]@) as usize, ..old(self).replay }),
    {
        proof {
            reveal_strlit("--agent");
            reveal_strlit("--er-buffer-size");
            reveal_strlit("--er-min-samples");
            reveal_strlit("--er-samples-number");
            assert("--agent"@.len() == 7);
            assert("--er-buffer-size"@.len() == 16);
            assert("--er-min-samples"@.len() == 16);
            assert("--er-samples-number"@.len() == 19);
            assert("--er-buffer-size"@[5] != "--er-min-samples"@[5]);
        }
        if same_text(flag, "--agent") {
            let value = next_value(args);
            self.agent = parse_agent(value.as_str());
            true
        } else if same_text(flag, "--er-buffer-size") {
            self.replay.buffer_size = parse_size(next_value_opt(args), flag);
            true
        } else if same_text(flag, "--er-min-samples") {
            self.replay.min_samples = parse_size(next_value_opt(args), flag);
            true
        } else if same_text(flag, "--er-samples-number") {
            self.replay.samples_number = parse_size(next_value_opt(args), flag);
            true
        } else {
            false
        }
    }

    /// A one-line account of the agent and, for the replay agent, of its
    /// replay settings.
    pub fn describe(&self) -> (result: String)
        ensures
            result@ == description(*self),
    {
        match self.agent {
            AgentChoice::Acs2 => String::from_str("agent=acs2"),
            AgentChoice::Acs2Er => {
                let mut text = String::from_str("agent=acs2er er_buffer_size=");
                append_decimal(&mut text, self.replay.buffer_size as u128);
                text.append(" er_min_samples=");
                append_decimal(&mut text, self.replay.min_samples as u128);
                text.append(" er_samples_number=");
                append_decimal(&mut text, self.replay.samples_number as u128);
                text
            },
        }
    }
}

/// The value after a flag, which must be there.
fn next_value(args: &mut VecDeque<String>) -> (result: String)
    requires
        old(args)@.len() > 0,
    ensures
        result == old(args)@[0],
        final(args)@ == old(args)@.drop_first(),
{
    match args.pop_front() {
        Some(value) => {
            proof {
                assert(old(args)@.subrange(1, old(args)@.len() as int) =~= old(args)@.drop_first());
            }
            value
        },
        None => {
            proof {
                assert(false);
            }
            String::new()
        },
    }
}

/// The value after a flag, if there is one.
fn next_value_opt(args: &mut VecDeque<String>) -> (result: Option<String>)
    ensures
        old(args)@.len() > 0 ==> result == Some(old(args)@[0]) && final(args)@ == old(args)@.drop_first(),
        old(args)@.len() == 0 ==> result is None && final(args)@ == old(args)@,
{
    let result = args.pop_front();
    proof {
        if old(args)@.len() > 0 {
            assert(old(args)@.subrange(1, old(args)@.len() as int) =~= old(args)@.drop_first());
        }
    }
    result
}

/// The size a flag's value names; the value must be there and be an
/// unsigned number that fits a `usize`.
pub fn parse_size(value: Option<String>, flag: &str) -> (result: usize)
    requires
        value matches Some(text) && parses_unsigned(text@, usize::MAX as nat),
    ensures
        value matches Some(text) && result == unsigned_value(text@),
{
    match value {
        Some(text) => match parse_unsigned(text.as_str(), usize::MAX as u64) {
            Some(number) => number as usize,
            None => {
                proof {
                    assert(false);
                }
                0
            },
        },
        None => {
            proof {
                assert(false);
            }
            0
        },
    }
}

} // verus!
