use acs2::checkpoint::{parse, render, try_parse, staging_file_name, AgentState, RunState, StoredRun, StoredStats};
use acs2::classifier::Classifier;
use acs2::perception::Perception;
use acs2::replay::ReplaySample;
use acs2::rng::RngState;
use acs2::symbol::Symbol;

fn initial_stats() -> StoredStats {
    StoredStats {
        q: 0.5f64.to_bits(),
        r: 0.5f64.to_bits(),
        ir: 0.0f64.to_bits(),
        tav: 0.0f64.to_bits(),
    }
}

fn state() -> StoredRun<7> {
    let mut classifier = Classifier::<7, StoredStats>::general(Some(1), initial_stats());
    classifier.condition.set(2, Symbol::Token(b'0'));
    classifier.effect.set(6, Symbol::Token(b'1'));
    classifier.mark.insert(3, Symbol::Token(b'1'));
    classifier.mark.insert(3, Symbol::Wildcard);
    classifier.mark.insert(5, Symbol::Token(b'0'));
    classifier.stats.q = 0.123_456_789_012_345_67f64.to_bits();
    classifier.stats.tav = (1.0f64 / 3.0).to_bits();
    classifier.talp = Some(9);
    classifier.ee = true;

    let unmarked = Classifier::<7, StoredStats>::general(None, initial_stats());

    RunState {
        identity: "size=6 seed=42".to_string(),
        eval_interval: 750,
        trials_used: 1500,
        time: 1500,
        trials_since_eval: 500,
        peak_macro_population: 41,
        peak_rss_bytes: 12_345,
        wall_seconds: (1.0f64 / 7.0).to_bits(),
        final_knowledge: 0.749_9f64.to_bits(),
        knowledge_trials: Some(1000),
        verdict: Some("TRIALS-LIMITED".to_string()),
        env_rng: RngState {
            seed: [7; 32],
            stream: 3,
            word_pos: 1_234_567_890_123,
        },
        agent: AgentState {
            population: vec![classifier, unmarked],
            rng: RngState {
                seed: [9; 32],
                stream: 0,
                word_pos: 64,
            },
            replay: None,
        },
    }
}

fn with_replay() -> StoredRun<7> {
    let mut written = state();
    written.agent.replay = Some(vec![ReplaySample {
        state: Perception::new([Symbol::Token(b'1'); 7]),
        action: 1,
        reward: 1000.0f64.to_bits(),
        next_state: Perception::new([Symbol::Token(b'0'); 7]),
        done: true,
    }]);
    written
}

#[test]
fn a_rendered_checkpoint_parses_back_to_the_same_state() {
    let written = state();
    let restored = parse::<7>(&render(&written));

    assert_eq!(restored.identity, written.identity);
    assert_eq!(restored.trials_used, written.trials_used);
    assert_eq!(restored.time, written.time);
    assert_eq!(restored.trials_since_eval, written.trials_since_eval);
    assert_eq!(restored.peak_macro_population, written.peak_macro_population);
    assert_eq!(restored.peak_rss_bytes, written.peak_rss_bytes);
    assert_eq!(restored.wall_seconds, written.wall_seconds);
    assert_eq!(restored.final_knowledge, written.final_knowledge);
    assert_eq!(restored.knowledge_trials, written.knowledge_trials);
    assert_eq!(restored.verdict, written.verdict);
    assert_eq!(restored.eval_interval, written.eval_interval);
    assert_eq!(restored.env_rng, written.env_rng);
    assert_eq!(restored.agent.rng, written.agent.rng);
    assert!(restored.agent.replay.is_none());
    assert_eq!(restored.agent.population.len(), 2);
    assert_eq!(render(&restored), render(&written));
}

#[test]
fn every_classifier_field_survives_the_round_trip() {
    let written = state();
    let restored = parse::<7>(&render(&written));
    let before = &written.agent.population[0];
    let after = &restored.agent.population[0];

    assert_eq!(after.condition, before.condition);
    assert_eq!(after.effect, before.effect);
    assert_eq!(after.mark, before.mark);
    assert_eq!(after.action, before.action);
    assert_eq!(after.stats.q, before.stats.q);
    assert_eq!(after.stats.r, before.stats.r);
    assert_eq!(after.stats.ir, before.stats.ir);
    assert_eq!(after.stats.tav, before.stats.tav);
    assert_eq!(after.num, before.num);
    assert_eq!(after.exp, before.exp);
    assert_eq!(after.talp, before.talp);
    assert_eq!(after.tga, before.tga);
    assert_eq!(after.ee, before.ee);
    assert_eq!(restored.agent.population[1].action, None);
    assert!(!restored.agent.population[1].is_marked());
}

#[test]
fn a_replay_buffer_survives_the_round_trip() {
    let written = with_replay();
    let restored = parse::<7>(&render(&written));
    let samples = restored.agent.replay.expect("replay buffer");
    assert_eq!(samples.len(), 1);
    assert_eq!(samples[0], written.agent.replay.unwrap()[0]);
}

fn truncate_after_last_space(text: &str) -> String {
    let cut = text.trim_end().rfind(' ').unwrap();
    text[..=cut].to_string()
}

#[test]
fn a_checkpoint_cut_short_is_refused_rather_than_read() {
    let rendered = render(&with_replay());

    assert!(try_parse::<7>(&truncate_after_last_space(&rendered)).is_none());
    assert!(try_parse::<7>(rendered.trim_end_matches("end\n")).is_none());
    assert!(try_parse::<7>(&format!("{rendered}c extra\n")).is_none());
    assert!(try_parse::<7>(&rendered.replace(" 1\nend", " 2\nend")).is_none());
    assert!(parse::<7>(&rendered).agent.replay.unwrap()[0].done);
}

#[test]
fn a_population_count_that_does_not_match_its_records_is_refused() {
    let rendered = render(&state());
    assert!(try_parse::<7>(&rendered.replace("population 2", "population 3")).is_none());
    assert!(try_parse::<7>(&rendered.replace("population 2", "population 1")).is_none());
}

#[test]
fn a_checkpoint_is_written_line_by_line() {
    let rendered = render(&with_replay());
    let lines: Vec<&str> = rendered.lines().collect();
    assert_eq!(lines[0], "acs2-checkpoint 2");
    assert_eq!(lines[1], "identity size=6 seed=42");
    assert_eq!(
        lines[2],
        "run trials=1500 time=1500 since_eval=500 peak_pop=41 peak_rss=12345 wall=3fc2492492492492 \
         knowledge=3fe7ff2e48e8a71e knowledge_trials=1000 eval_interval=750 verdict=TRIALS-LIMITED"
    );
    assert_eq!(
        lines[3],
        format!("env_rng {} 3 1234567890123", "07".repeat(32))
    );
    assert_eq!(lines[5], "population 2");
    assert_eq!(
        lines[6],
        "c ----30-------- 1 ------------31 3:--,31|5:30 3fbf9add3746f65e 3fe0000000000000 0000000000000000 \
         1 0 9 0 3fd5555555555555 1"
    );
    assert_eq!(lines[7], "c -------------- - -------------- - 3fe0000000000000 3fe0000000000000 0000000000000000 1 0 - 0 0000000000000000 0");
    assert_eq!(lines[8], "replay 1");
    assert_eq!(lines[9], "s 31313131313131 1 408f400000000000 30303030303030 1");
    assert_eq!(lines[10], "end");
    assert_eq!(lines.len(), 11);
    assert!(rendered.ends_with("end\n"));
}

#[test]
fn a_checkpoint_with_carriage_returns_reads_the_same() {
    let rendered = render(&with_replay());
    let crlf = rendered.replace('\n', "\r\n");
    let restored = try_parse::<7>(&crlf).expect("line ends with carriage returns are read");
    assert_eq!(render(&restored), rendered);
}

#[test]
fn the_run_line_is_read_by_name() {
    let rendered = render(&state());
    let reordered = rendered.replace("run trials=1500 time=1500", "run time=1500 extra=x trials=1500");
    let restored = try_parse::<7>(&reordered).expect("fields are found by name");
    assert_eq!(restored.trials_used, 1500);
    assert_eq!(restored.time, 1500);

    let missing = rendered.replace(" eval_interval=750", "");
    assert!(try_parse::<7>(&missing).is_none());

    let no_verdict = rendered.replace("verdict=TRIALS-LIMITED", "verdict=-");
    assert_eq!(try_parse::<7>(&no_verdict).unwrap().verdict, None);
}

#[test]
fn a_checkpoint_of_another_format_or_width_is_refused() {
    let rendered = render(&state());
    assert!(try_parse::<7>(&rendered.replace("acs2-checkpoint 2", "acs2-checkpoint 1")).is_none());
    assert!(try_parse::<6>(&rendered).is_none());
    assert!(try_parse::<7>("").is_none());
    assert!(try_parse::<7>(&rendered.replace(" 1\nc", " 2\nc")).is_none());
}

#[test]
fn staging_never_collides_with_the_destination_or_a_sibling() {
    let ckpt = staging_file_name("mpx264_s42.ckpt", 77);
    let already_partial = staging_file_name("mpx264_s42.partial", 77);
    let sibling = staging_file_name("mpx264_s42.backup", 77);

    assert_eq!(ckpt, "mpx264_s42.ckpt.partial.77");
    assert_ne!(already_partial, "mpx264_s42.partial");
    assert_ne!(ckpt, sibling);
    assert_ne!(staging_file_name("run.ckpt", 1), staging_file_name("run.ckpt", 2));
}
