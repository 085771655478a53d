use acs2::codec::{
    decode_flag, decode_mark, decode_rng, decode_symbol, decode_symbols, encode_mark, encode_rng, encode_symbol,
    encode_symbols, field, keyed_fields, parse_optional, tail,
};
use acs2::mark::Mark;
use acs2::rng::RngState;
use acs2::symbol::Symbol;

#[test]
fn symbols_are_written_as_hex_pairs_or_dashes() {
    let mut text = String::new();
    encode_symbol(Symbol::Token(b'0'), &mut text);
    encode_symbol(Symbol::Wildcard, &mut text);
    encode_symbol(Symbol::Token(255), &mut text);
    assert_eq!(text, "30--ff");
    assert_eq!(decode_symbol("30"), Symbol::Token(b'0'));
    assert_eq!(decode_symbol("--"), Symbol::Wildcard);
    assert_eq!(decode_symbol("FF"), Symbol::Token(255));
    assert_eq!(decode_symbol("+a"), Symbol::Token(10));
}

#[test]
fn symbol_strings_round_trip() {
    let symbols = [Symbol::Token(b'1'), Symbol::Wildcard, Symbol::Token(b'0'), Symbol::Token(7)];
    let text = encode_symbols(&symbols);
    assert_eq!(text, "31--3007");
    assert_eq!(decode_symbols::<4>(&text), symbols);
}

#[test]
fn a_mark_is_written_group_by_group() {
    let mut mark = Mark::<7>::new();
    assert_eq!(encode_mark(&mark), "-");
    mark.insert(3, Symbol::Token(b'1'));
    mark.insert(3, Symbol::Wildcard);
    mark.insert(5, Symbol::Token(b'0'));
    let text = encode_mark(&mark);
    assert_eq!(text, "3:--,31|5:30");
    let restored = decode_mark::<7>(&text);
    assert_eq!(restored, mark);
    assert!(!decode_mark::<7>("-").is_marked());
}

#[test]
fn a_later_group_replaces_an_earlier_one() {
    let mark = decode_mark::<4>("1:30|1:31,30");
    assert_eq!(mark.attribute(1), &vec![Symbol::Token(b'0'), Symbol::Token(b'1')]);
    let mark = decode_mark::<4>("2:31|0:30|2:30");
    assert_eq!(mark.attribute(2), &vec![Symbol::Token(b'0')]);
    assert_eq!(mark.attribute(0), &vec![Symbol::Token(b'0')]);
}

#[test]
fn a_generator_state_round_trips() {
    let state = RngState { seed: [7; 32], stream: 3, word_pos: 1_234_567_890_123 };
    let text = encode_rng(&state);
    assert_eq!(text, format!("{} 3 1234567890123", "07".repeat(32)));
    let line = format!("env_rng {text}");
    let fields = tail(&line, "env_rng");
    assert_eq!(fields.len(), 3);
    assert_eq!(decode_rng(&fields), state);
    let wide = RngState { seed: [255; 32], stream: u64::MAX, word_pos: u128::MAX };
    let text = encode_rng(&wide);
    let fields: Vec<&str> = text.split(' ').collect();
    assert_eq!(decode_rng(&fields), wide);
}

#[test]
fn lines_split_into_fields_after_their_keyword() {
    assert_eq!(tail("population 2", "population"), vec!["2"]);
    assert_eq!(tail("replay", "replay"), Vec::<&str>::new());
    assert_eq!(tail("s a  b", "s"), vec!["a", "", "b"]);
    let fields = keyed_fields("run trials=1500 time=1500 verdict=a=b", "run");
    assert_eq!(fields, vec![("trials", "1500"), ("time", "1500"), ("verdict", "a=b")]);
    assert_eq!(field(&fields, "time"), "1500");
    assert_eq!(field(&fields, "verdict"), "a=b");
}

#[test]
fn flags_and_optional_numbers_are_read_strictly() {
    assert!(decode_flag("1", "done"));
    assert!(!decode_flag("0", "done"));
    assert_eq!(parse_optional("-", "talp"), None);
    assert_eq!(parse_optional("9", "talp"), Some(9));
    assert_eq!(parse_optional("18446744073709551615", "talp"), Some(u64::MAX));
}
