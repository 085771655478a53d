use std::collections::VecDeque;

use acs2::bench::{
    agent_label, derived_u_max, parse_agent, parse_size, parse_u_max_mode, parse_variant, resolve_u_max,
    variant_label, AgentChoice, AgentOptions, UMaxMode,
};
use acs2::config::AlpGenVariant;
use acs2::replay::ReplayConfiguration;

fn args(values: &[&str]) -> VecDeque<String> {
    values.iter().map(|value| value.to_string()).collect()
}

#[test]
fn variant_labels_parse_back() {
    for variant in [AlpGenVariant::Pyalcs, AlpGenVariant::Butz] {
        assert_eq!(parse_variant(variant_label(variant)), variant);
    }
    assert_eq!(variant_label(AlpGenVariant::Pyalcs), "pyalcs");
    assert_eq!(variant_label(AlpGenVariant::Butz), "butz");
}

#[test]
fn agent_labels_parse_back() {
    for agent in [AgentChoice::Acs2, AgentChoice::Acs2Er] {
        assert_eq!(parse_agent(agent_label(agent)), agent);
    }
    assert_eq!(agent_label(AgentChoice::Acs2Er), "acs2er");
}

#[test]
fn derived_u_max_adds_the_variant_offset_to_the_address_bits() {
    assert_eq!(derived_u_max(6, AlpGenVariant::Pyalcs), 4);
    assert_eq!(derived_u_max(6, AlpGenVariant::Butz), 5);
    assert_eq!(derived_u_max(11, AlpGenVariant::Pyalcs), 5);
    assert_eq!(derived_u_max(135, AlpGenVariant::Butz), 10);
}

#[test]
fn resolve_u_max_follows_the_mode() {
    assert_eq!(resolve_u_max(UMaxMode::Default, 100_000, 6, AlpGenVariant::Pyalcs), 100_000);
    assert_eq!(resolve_u_max(UMaxMode::Fixed(7), 100_000, 6, AlpGenVariant::Pyalcs), 7);
    assert_eq!(resolve_u_max(UMaxMode::Derived, 100_000, 20, AlpGenVariant::Butz), 7);
}

#[test]
fn u_max_mode_reads_derived_or_a_number() {
    assert_eq!(parse_u_max_mode("derived"), UMaxMode::Derived);
    assert_eq!(parse_u_max_mode("12"), UMaxMode::Fixed(12));
    assert_eq!(parse_u_max_mode("+4294967295"), UMaxMode::Fixed(u32::MAX));
}

#[test]
fn sizes_read_as_the_standard_parse_reads_them() {
    assert_eq!(parse_size(Some("0".to_string()), "--er-buffer-size"), 0);
    assert_eq!(parse_size(Some("007".to_string()), "--er-buffer-size"), 7);
    assert_eq!(parse_size(Some("+250".to_string()), "--er-buffer-size"), 250);
    assert_eq!(
        parse_size(Some(usize::MAX.to_string()), "--er-buffer-size"),
        usize::MAX
    );
}

#[test]
fn agent_flags_consume_their_value() {
    let mut options = AgentOptions::default();
    let mut rest = args(&["acs2er", "--other"]);
    assert!(options.try_parse_flag("--agent", &mut rest));
    assert_eq!(options.agent, AgentChoice::Acs2Er);
    assert_eq!(rest, args(&["--other"]));

    let mut rest = args(&["500", "x"]);
    assert!(options.try_parse_flag("--er-buffer-size", &mut rest));
    assert_eq!(options.replay.buffer_size, 500);
    assert_eq!(rest, args(&["x"]));

    let mut rest = args(&["50"]);
    assert!(options.try_parse_flag("--er-min-samples", &mut rest));
    assert_eq!(options.replay.min_samples, 50);

    let mut rest = args(&["4"]);
    assert!(options.try_parse_flag("--er-samples-number", &mut rest));
    assert_eq!(options.replay.samples_number, 4);
    assert!(rest.is_empty());
}

#[test]
fn other_flags_are_left_alone() {
    let mut options = AgentOptions::default();
    let mut rest = args(&["12"]);
    assert!(!options.try_parse_flag("--size", &mut rest));
    assert_eq!(rest, args(&["12"]));
    assert_eq!(options.agent, AgentChoice::Acs2);
    assert_eq!(options.replay, ReplayConfiguration::default_protocol());
}

#[test]
fn descriptions_name_the_agent_and_its_replay_settings() {
    let options = AgentOptions::default();
    assert_eq!(options.describe(), "agent=acs2");
    let replaying = AgentOptions {
        agent: AgentChoice::Acs2Er,
        replay: ReplayConfiguration { buffer_size: 10_000, min_samples: 1_000, samples_number: 3 },
    };
    assert_eq!(
        replaying.describe(),
        "agent=acs2er er_buffer_size=10000 er_min_samples=1000 er_samples_number=3"
    );
}
