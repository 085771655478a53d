use vstd::prelude::*;

use crate::checkpoint::StoredStats;
use crate::classifier::Classifier;
use crate::codec::{
    after_first, before_first, decode_mark, decode_rng, decode_symbols, decoded_marked, decoded_symbol,
    decodes_group, decodes_mark, decodes_rng, decodes_symbol, encode_mark, encode_symbols, find_char, first_index_of, free_of,
    join, lemma_first_index_of, lemma_split_nonempty, line_fields, mark_text, split_on, split_text, symbols_text,
    tail,
};
use crate::condition::Condition;
use crate::effect::Effect;
use crate::perception::Perception;
use crate::replay::ReplaySample;
use crate::rng::RngState;
use crate::symbol::Symbol;
use crate::text::{
    append_decimal, append_hex_digits, decimal, hex_digits, parse_radix, parse_unsigned, parses_radix,
    parses_unsigned, radix_value, same_text, unsigned_value,
};

verus! {

broadcast use vstd::array::group_array_axioms;

/// A line of a checkpoint: its keyword, then its fields, separated by
/// single spaces.
pub open spec fn keyword_line(keyword: Seq<char>, fields: Seq<Seq<char>>) -> Seq<char> {
    join(seq![keyword] + fields, ' ')
}

/// `line` starts with `keyword`, followed by a space or by its end.
pub open spec fn opens_with(line: Seq<char>, keyword: Seq<char>) -> bool {
    split_on(line, ' ')[0] == keyword
}

/// A floating-point value is written as the sixteen lower-case hexadecimal
/// digits of its bit pattern.
pub open spec fn bits_text(bits: u64) -> Seq<char> {
    hex_digits(bits as nat, 16)
}

/// A text that reads as a bit pattern: a hexadecimal number of at most 64
/// bits.
pub open spec fn decodes_bits(text: Seq<char>) -> bool {
    parses_radix(text, 16, u64::MAX as nat)
}

/// How a flag is written.
pub open spec fn flag_text(flag: bool) -> Seq<char> {
    if flag {
        seq!['1']
    } else {
        seq!['0']
    }
}

/// A text that reads as a flag: `0` or `1`, nothing else.
pub open spec fn decodes_flag(text: Seq<char>) -> bool {
    text == seq!['0'] || text == seq!['1']
}

/// An optional number: its decimal digits, or `-` for none.
pub open spec fn optional_text(value: Option<nat>) -> Seq<char> {
    match value {
        Some(v) => decimal(v),
        None => seq!['-'],
    }
}

/// A text that reads as an optional number no greater than `max`.
pub open spec fn decodes_optional(text: Seq<char>, max: nat) -> bool {
    text == seq!['-'] || parses_unsigned(text, max)
}

/// The optional number a text stands for.
pub open spec fn decoded_optional(text: Seq<char>) -> Option<nat> {
    if text == seq!['-'] {
        None
    } else {
        Some(unsigned_value(text))
    }
}

/// An optional machine integer as an optional number.
pub open spec fn usize_option(value: Option<usize>) -> Option<nat> {
    match value {
        Some(v) => Some(v as nat),
        None => None,
    }
}

/// An optional 64-bit integer as an optional number.
pub open spec fn u64_option(value: Option<u64>) -> Option<nat> {
    match value {
        Some(v) => Some(v as nat),
        None => None,
    }
}

/// A text that reads as `n` symbols, two characters each.
pub open spec fn decodes_symbols(text: Seq<char>, n: nat) -> bool {
    &&& text.len() == 2 * n
    &&& forall|i: int| 0 <= i < n ==> decodes_symbol(#[trigger] text.subrange(2 * i, 2 * i + 2))
}

/// `symbols` are the symbols `text` stands for, two characters each.
pub open spec fn symbols_decoded(text: Seq<char>, symbols: Seq<Symbol>) -> bool {
    forall|i: int| 0 <= i < symbols.len() ==> #[trigger] symbols[i] == decoded_symbol(text.subrange(2 * i, 2 * i + 2))
}

/// `state` is the generator state its three fields stand for.
pub open spec fn rng_decoded(fields: Seq<Seq<char>>, state: RngState) -> bool {
    &&& forall|i: int| 0 <= i < 32 ==> #[trigger] state.seed@[i] == radix_value(fields[0].subrange(2 * i, 2 * i + 2), 16)
    &&& state.stream == unsigned_value(fields[1])
    &&& state.word_pos == unsigned_value(fields[2])
}

/// The thirteen fields a classifier is written as: condition, action,
/// effect, mark, quality, reward, immediate reward, numerosity, experience,
/// time of the last learning step, time of the last genetic step, average
/// application interval, and whether it was enlarged.
pub open spec fn classifier_fields<const N: usize>(classifier: Classifier<N, StoredStats>) -> Seq<Seq<char>> {
    seq![
        symbols_text(classifier.condition.symbols@),
        optional_text(usize_option(classifier.action)),
        symbols_text(classifier.effect.symbols@),
        mark_text(classifier.mark),
        bits_text(classifier.stats.q),
        bits_text(classifier.stats.r),
        bits_text(classifier.stats.ir),
        decimal(classifier.num as nat),
        decimal(classifier.exp as nat),
        optional_text(u64_option(classifier.talp)),
        decimal(classifier.tga as nat),
        bits_text(classifier.stats.tav),
        flag_text(classifier.ee),
    ]
}

/// Fields that read as a classifier of `n` attributes.
pub open spec fn decodes_classifier(fields: Seq<Seq<char>>, n: nat) -> bool {
    &&& fields.len() == 13
    &&& decodes_symbols(fields[0], n)
    &&& decodes_optional(fields[1], usize::MAX as nat)
    &&& decodes_symbols(fields[2], n)
    &&& decodes_mark(fields[3], n)
    &&& decodes_bits(fields[4])
    &&& decodes_bits(fields[5])
    &&& decodes_bits(fields[6])
    &&& parses_unsigned(fields[7], u32::MAX as nat)
    &&& parses_unsigned(fields[8], u32::MAX as nat)
    &&& decodes_optional(fields[9], u64::MAX as nat)
    &&& parses_unsigned(fields[10], u64::MAX as nat)
    &&& decodes_bits(fields[11])
    &&& decodes_flag(fields[12])
}

/// `classifier` is the classifier the fields stand for.
pub open spec fn classifier_decoded<const N: usize>(
    fields: Seq<Seq<char>>,
    classifier: Classifier<N, StoredStats>,
) -> bool {
    &&& symbols_decoded(fields[0], classifier.condition.symbols@)
    &&& usize_option(classifier.action) == decoded_optional(fields[1])
    &&& symbols_decoded(fields[2], classifier.effect.symbols@)
    &&& forall|p: int| 0 <= p < N ==> (#[trigger] classifier.mark.marked(p)).to_set() == decoded_marked(fields[3], p as nat)
    &&& classifier.stats.q == radix_value(fields[4], 16)
    &&& classifier.stats.r == radix_value(fields[5], 16)
    &&& classifier.stats.ir == radix_value(fields[6], 16)
    &&& classifier.num == unsigned_value(fields[7])
    &&& classifier.exp == unsigned_value(fields[8])
    &&& u64_option(classifier.talp) == decoded_optional(fields[9])
    &&& classifier.tga == unsigned_value(fields[10])
    &&& classifier.stats.tav == radix_value(fields[11], 16)
    &&& classifier.ee == (fields[12] == seq!['1'])
}

/// The five fields a remembered step is written as: the situation, the
/// action, the reward, the next situation and whether the episode ended.
pub open spec fn sample_fields<const N: usize>(sample: ReplaySample<N, u64>) -> Seq<Seq<char>> {
    seq![
        symbols_text(sample.state.symbols@),
        decimal(sample.action as nat),
        bits_text(sample.reward),
        symbols_text(sample.next_state.symbols@),
        flag_text(sample.done),
    ]
}

/// Fields that read as a remembered step of `n` attributes.
pub open spec fn decodes_sample(fields: Seq<Seq<char>>, n: nat) -> bool {
    &&& fields.len() == 5
    &&& decodes_symbols(fields[0], n)
    &&& parses_unsigned(fields[1], usize::MAX as nat)
    &&& decodes_bits(fields[2])
    &&& decodes_symbols(fields[3], n)
    &&& decodes_flag(fields[4])
}

/// `sample` is the remembered step the fields stand for.
pub open spec fn sample_decoded<const N: usize>(fields: Seq<Seq<char>>, sample: ReplaySample<N, u64>) -> bool {
    &&& symbols_decoded(fields[0], sample.state.symbols@)
    &&& sample.action == unsigned_value(fields[1])
    &&& sample.reward == radix_value(fields[2], 16)
    &&& symbols_decoded(fields[3], sample.next_state.symbols@)
    &&& sample.done == (fields[4] == seq!['1'])
}

/// The view of a list of texts.
pub open spec fn texts_view(texts: Seq<String>) -> Seq<Seq<char>> {
    Seq::new(texts.len(), |k: int| texts[k]@)
}

/// The decimal digits of `value`.
pub fn decimal_string(value: u128) -> (result: String)
    ensures
        result@ == decimal(value as nat),
{
    let mut text = String::new();
    append_decimal(&mut text, value);
    proof {
        assert(Seq::<char>::empty() + decimal(value as nat) =~= decimal(value as nat));
    }
    text
}

/// The sixteen hexadecimal digits of a bit pattern.
pub fn bits_string(bits: u64) -> (result: String)
    ensures
        result@ == bits_text(bits),
{
    let mut text = String::new();
    append_hex_digits(&mut text, bits, 16);
    proof {
        assert(Seq::<char>::empty() + hex_digits(bits as nat, 16) =~= hex_digits(bits as nat, 16));
    }
    text
}

/// `1` or `0`.
pub fn flag_string(flag: bool) -> (result: String)
    ensures
        result@ == flag_text(flag),
{
    proof {
        reveal_strlit("1");
        reveal_strlit("0");
    }
    if flag {
        String::from_str("1")
    } else {
        String::from_str("0")
    }
}

/// The decimal digits of the number, or `-`.
pub fn optional_string(value: Option<u64>) -> (result: String)
    ensures
        result@ == optional_text(u64_option(value)),
{
    match value {
        Some(v) => decimal_string(v as u128),
        None => {
            proof {
                reveal_strlit("-");
                assert("-"@ =~= seq!['-']);
            }
            String::from_str("-")
        },
    }
}

/// Appends `keyword`, each field after a space, and the end of the line.
pub fn append_line(text: &mut String, keyword: &str, fields: &Vec<String>)
    ensures
        final(text)@ == old(text)@ + keyword_line(keyword@, texts_view(fields@)).push('\n'),
{
    let ghost start = text@;
    text.append(keyword);
    let mut index: usize = 0;
    proof {
        let pieces = seq![keyword@] + texts_view(fields@).take(0);
        assert(pieces =~= seq![keyword@]);
        assert(text@ =~= start + join(pieces, ' '));
    }
    while index < fields.len()
        invariant
            index <= fields@.len(),
            text@ == start + join(seq![keyword@] + texts_view(fields@).take(index as int), ' '),
        decreases fields@.len() - index,
    {
        text.append(" ");
        text.append(fields[index].as_str());
        proof {
            reveal_strlit(" ");
            let before = seq![keyword@] + texts_view(fields@).take(index as int);
            let after = seq![keyword@] + texts_view(fields@).take(index as int + 1);
            assert(after.drop_last() =~= before);
            assert(after.last() == fields@[index as int]@);
            assert(text@ =~= start + join(after, ' '));
        }
        index += 1;
    }
    text.append("\n");
    proof {
        reveal_strlit("\n");
        assert(texts_view(fields@).take(fields@.len() as int) =~= texts_view(fields@));
        assert(text@ =~= start + keyword_line(keyword@, texts_view(fields@)).push('\n'));
    }
}


/// Whether `line` starts with `keyword`, followed by a space or its end.
pub fn opens_with_keyword(line: &str, keyword: &str) -> (result: bool)
    ensures
        result == opens_with(line@, keyword@),
{
    let pieces = split_text(line, ' ');
    proof {
        lemma_split_nonempty(line@, ' ');
    }
    same_text(pieces[0], keyword)
}

/// Whether `text` reads as a symbol.
pub fn symbol_ok(text: &str) -> (result: bool)
    ensures
        result == decodes_symbol(text@),
{
    same_text(text, "--") || parse_radix(text, 16, 255).is_some()
}

/// Whether `text` reads as `N` symbols.
pub fn symbols_ok<const N: usize>(text: &str) -> (result: bool)
    requires
        2 * N <= usize::MAX,
    ensures
        result == decodes_symbols(text@, N as nat),
{
    if text.unicode_len() != 2 * N {
        return false;
    }
    let mut index: usize = 0;
    while index < N
        invariant
            index <= N,
            2 * N <= usize::MAX,
            text@.len() == 2 * N,
            forall|i: int| 0 <= i < index ==> decodes_symbol(#[trigger] text@.subrange(2 * i, 2 * i + 2)),
        decreases N - index,
    {
        if !symbol_ok(text.substring_char(2 * index, 2 * index + 2)) {
            return false;
        }
        index += 1;
    }
    true
}

/// Whether every piece of `text` between commas reads as a symbol.
fn symbol_list_ok(text: &str) -> (result: bool)
    ensures
        result == forall|k: int|
            0 <= k < split_on(text@, ',').len() ==> decodes_symbol(#[trigger] split_on(text@, ',')[k]),
{
    let pieces = split_text(text, ',');
    let mut k: usize = 0;
    while k < pieces.len()
        invariant
            k <= pieces@.len(),
            pieces@.len() == split_on(text@, ',').len(),
            forall|j: int| 0 <= j < pieces@.len() ==> #[trigger] pieces@[j]@ == split_on(text@, ',')[j],
            forall|j: int| 0 <= j < k ==> decodes_symbol(#[trigger] split_on(text@, ',')[j]),
        decreases pieces@.len() - k,
    {
        if !symbol_ok(pieces[k]) {
            return false;
        }
        k += 1;
    }
    true
}

/// Whether `group` reads as one marked position of a mark of `N`
/// positions.
fn group_ok<const N: usize>(group: &str) -> (result: bool)
    ensures
        result == decodes_group(group@, N as nat),
{
    match find_char(group, ':') {
        None => false,
        Some(position) => {
            proof {
                lemma_first_index_of(group@, ':');
            }
            let length = group.unicode_len();
            let prefix = group.substring_char(0, position);
            let suffix = group.substring_char(position + 1, length);
            proof {
                assert(prefix@ =~= before_first(group@, ':'));
                assert(suffix@ =~= after_first(group@, ':'));
            }
            match parse_unsigned(prefix, usize::MAX as u64) {
                None => false,
                Some(index) => index < N as u64 && symbol_list_ok(suffix),
            }
        },
    }
}

/// Whether `text` reads as a mark of `N` positions.
pub fn mark_ok<const N: usize>(text: &str) -> (result: bool)
    ensures
        result == decodes_mark(text@, N as nat),
{
    proof {
        reveal_strlit("-");
        assert("-"@ =~= seq!['-']);
    }
    if same_text(text, "-") {
        return true;
    }
    let groups = split_text(text, '|');
    let mut k: usize = 0;
    while k < groups.len()
        invariant
            k <= groups@.len(),
            groups@.len() == split_on(text@, '|').len(),
            forall|j: int| 0 <= j < groups@.len() ==> #[trigger] groups@[j]@ == split_on(text@, '|')[j],
            forall|j: int| 0 <= j < k ==> decodes_group(#[trigger] split_on(text@, '|')[j], N as nat),
            text@ != seq!['-'],
        decreases groups@.len() - k,
    {
        if !group_ok::<N>(groups[k]) {
            proof {
                assert(!decodes_group(split_on(text@, '|')[k as int], N as nat));
            }
            return false;
        }
        k += 1;
    }
    true
}

/// The optional number `text` stands for, if it reads as one no greater
/// than `max`.
pub fn optional_value(text: &str, max: u64) -> (result: Option<Option<u64>>)
    ensures
        result is Some <==> decodes_optional(text@, max as nat),
        result matches Some(value) ==> u64_option(value) == decoded_optional(text@),
{
    proof {
        reveal_strlit("-");
        assert("-"@ =~= seq!['-']);
    }
    if same_text(text, "-") {
        Some(None)
    } else {
        match parse_unsigned(text, max) {
            Some(value) => Some(Some(value)),
            None => None,
        }
    }
}

/// The bit pattern `text` stands for, if it reads as one.
pub fn bits_value(text: &str) -> (result: Option<u64>)
    ensures
        result is Some <==> decodes_bits(text@),
        result matches Some(value) ==> value == radix_value(text@, 16),
{
    match parse_radix(text, 16, u64::MAX as u128) {
        Some(value) => Some(value as u64),
        None => None,
    }
}

/// The flag `text` stands for, if it is `0` or `1`.
pub fn flag_value(text: &str) -> (result: Option<bool>)
    ensures
        result is Some <==> decodes_flag(text@),
        result matches Some(flag) ==> flag == (text@ == seq!['1']),
{
    proof {
        reveal_strlit("0");
        reveal_strlit("1");
        assert("0"@ =~= seq!['0']);
        assert("1"@ =~= seq!['1']);
    }
    if same_text(text, "1") {
        Some(true)
    } else if same_text(text, "0") {
        Some(false)
    } else {
        None
    }
}


/// The thirteen fields of a classifier, as written.
pub fn classifier_strings<const N: usize>(classifier: &Classifier<N, StoredStats>) -> (result: Vec<String>)
    ensures
        texts_view(result@) == classifier_fields(*classifier),
{
    let mut fields: Vec<String> = Vec::new();
    fields.push(encode_symbols(&classifier.condition.symbols));
    let action = match classifier.action {
        Some(value) => decimal_string(value as u128),
        None => {
            proof {
                reveal_strlit("-");
                assert("-"@ =~= seq!['-']);
            }
            String::from_str("-")
        },
    };
    fields.push(action);
    fields.push(encode_symbols(&classifier.effect.symbols));
    fields.push(encode_mark(&classifier.mark));
    fields.push(bits_string(classifier.stats.q));
    fields.push(bits_string(classifier.stats.r));
    fields.push(bits_string(classifier.stats.ir));
    fields.push(decimal_string(classifier.num as u128));
    fields.push(decimal_string(classifier.exp as u128));
    fields.push(optional_string(classifier.talp));
    fields.push(decimal_string(classifier.tga as u128));
    fields.push(bits_string(classifier.stats.tav));
    fields.push(flag_string(classifier.ee));
    proof {
        assert(texts_view(fields@) =~= classifier_fields(*classifier));
    }
    fields
}

/// The five fields of a remembered step, as written.
pub fn sample_strings<const N: usize>(sample: &ReplaySample<N, u64>) -> (result: Vec<String>)
    ensures
        texts_view(result@) == sample_fields(*sample),
{
    let mut fields: Vec<String> = Vec::new();
    fields.push(encode_symbols(&sample.state.symbols));
    fields.push(decimal_string(sample.action as u128));
    fields.push(bits_string(sample.reward));
    fields.push(encode_symbols(&sample.next_state.symbols));
    fields.push(flag_string(sample.done));
    proof {
        assert(texts_view(fields@) =~= sample_fields(*sample));
    }
    fields
}

/// The classifier a `c` line stands for, if it reads as one.
pub fn parse_classifier_line<const N: usize>(line: &str) -> (result: Option<Classifier<N, StoredStats>>)
    requires
        2 * N <= usize::MAX,
    ensures
        result is Some <==> opens_with(line@, seq!['c']) && decodes_classifier(line_fields(line@), N as nat),
        result matches Some(classifier) ==> classifier_decoded(line_fields(line@), classifier),
        result matches Some(classifier) ==> classifier.mark.marks_sorted(),
{
    proof {
        reveal_strlit("c");
        assert("c"@ =~= seq!['c']);
    }
    if !opens_with_keyword(line, "c") {
        return None;
    }
    let fields = tail(line, "c");
    let ghost f = line_fields(line@);
    if fields.len() != 13 {
        return None;
    }
    proof {
        assert forall|k: int| 0 <= k < 13 implies #[trigger] fields@[k]@ == f[k] by {}
    }
    if !symbols_ok::<N>(fields[0]) || !symbols_ok::<N>(fields[2]) || !mark_ok::<N>(fields[3]) {
        return None;
    }
    let action = match optional_value(fields[1], usize::MAX as u64) {
        Some(value) => value,
        None => return None,
    };
    let q = match bits_value(fields[4]) {
        Some(value) => value,
        None => return None,
    };
    let r = match bits_value(fields[5]) {
        Some(value) => value,
        None => return None,
    };
    let ir = match bits_value(fields[6]) {
        Some(value) => value,
        None => return None,
    };
    let num = match parse_unsigned(fields[7], u32::MAX as u64) {
        Some(value) => value as u32,
        None => return None,
    };
    let exp = match parse_unsigned(fields[8], u32::MAX as u64) {
        Some(value) => value as u32,
        None => return None,
    };
    let talp = match optional_value(fields[9], u64::MAX) {
        Some(value) => value,
        None => return None,
    };
    let tga = match parse_unsigned(fields[10], u64::MAX) {
        Some(value) => value,
        None => return None,
    };
    let tav = match bits_value(fields[11]) {
        Some(value) => value,
        None => return None,
    };
    let ee = match flag_value(fields[12]) {
        Some(value) => value,
        None => return None,
    };
    let action = match action {
        Some(value) => Some(value as usize),
        None => None,
    };
    let classifier = Classifier {
        condition: Condition { symbols: decode_symbols::<N>(fields[0]) },
        action,
        effect: Effect { symbols: decode_symbols::<N>(fields[2]) },
        mark: decode_mark::<N>(fields[3]),
        num,
        exp,
        talp,
        tga,
        ee,
        stats: StoredStats { q, r, ir, tav },
    };
    Some(classifier)
}

/// The remembered step an `s` line stands for, if it reads as one.
pub fn parse_sample_line<const N: usize>(line: &str) -> (result: Option<ReplaySample<N, u64>>)
    requires
        2 * N <= usize::MAX,
    ensures
        result is Some <==> opens_with(line@, seq!['s']) && decodes_sample(line_fields(line@), N as nat),
        result matches Some(sample) ==> sample_decoded(line_fields(line@), sample),
{
    proof {
        reveal_strlit("s");
        assert("s"@ =~= seq!['s']);
    }
    if !opens_with_keyword(line, "s") {
        return None;
    }
    let fields = tail(line, "s");
    let ghost f = line_fields(line@);
    if fields.len() != 5 {
        return None;
    }
    proof {
        assert forall|k: int| 0 <= k < 5 implies #[trigger] fields@[k]@ == f[k] by {}
    }
    if !symbols_ok::<N>(fields[0]) || !symbols_ok::<N>(fields[3]) {
        return None;
    }
    let action = match parse_unsigned(fields[1], usize::MAX as u64) {
        Some(value) => value as usize,
        None => return None,
    };
    let reward = match bits_value(fields[2]) {
        Some(value) => value,
        None => return None,
    };
    let done = match flag_value(fields[4]) {
        Some(value) => value,
        None => return None,
    };
    Some(
        ReplaySample {
            state: Perception { symbols: decode_symbols::<N>(fields[0]) },
            action,
            reward,
            next_state: Perception { symbols: decode_symbols::<N>(fields[3]) },
            done,
        },
    )
}


/// `s` holds no space, no line feed and no carriage return: it can stand as
/// a field of a checkpoint line.
pub open spec fn plain(s: Seq<char>) -> bool {
    free_of(s, ' ') && free_of(s, '\n') && free_of(s, '\r')
}

/// Joining plain texts after plain texts gives a plain text.
pub proof fn lemma_concat_plain(a: Seq<char>, b: Seq<char>)
    requires
        plain(a),
        plain(b),
    ensures
        plain(a + b),
{
    let t = a + b;
    assert forall|i: int| 0 <= i < t.len() implies #[trigger] t[i] != ' ' && t[i] != '\n' && t[i] != '\r' by {
        if i < a.len() {
            assert(t[i] == a[i]);
        } else {
            assert(t[i] == b[i - a.len()]);
        }
    }
}

/// A number as the standard parsers read it is plain.
pub proof fn lemma_radix_plain(s: Seq<char>, radix: nat, max: nat)
    requires
        parses_radix(s, radix, max),
    ensures
        plain(s),
{
    let d = crate::text::unsigned_digits(s);
    assert forall|i: int| 0 <= i < s.len() implies #[trigger] s[i] != ' ' && s[i] != '\n' && s[i] != '\r' by {
        if s.len() > 0 && s[0] == '+' {
            if i > 0 {
                assert(s[i] == d[i - 1]);
                assert(crate::text::is_radix_digit(d[i - 1], radix));
            }
        } else {
            assert(crate::text::is_radix_digit(d[i], radix));
        }
    }
}

/// Joined plain texts are plain when the separator is.
proof fn lemma_join_plain(pieces: Seq<Seq<char>>, sep: char)
    requires
        sep != ' ' && sep != '\n' && sep != '\r',
        forall|k: int| 0 <= k < pieces.len() ==> plain(#[trigger] pieces[k]),
    ensures
        plain(join(pieces, sep)),
{
    crate::codec::lemma_join_free(pieces, sep, ' ');
    crate::codec::lemma_join_free(pieces, sep, '\n');
    crate::codec::lemma_join_free(pieces, sep, '\r');
}

/// A written symbol is plain.
proof fn lemma_symbol_plain(symbol: Symbol)
    ensures
        plain(crate::codec::symbol_text(symbol)),
{
    crate::codec::lemma_symbol_round_trip(symbol);
    let t = crate::codec::symbol_text(symbol);
    if t == "--"@ {
        reveal_strlit("--");
    } else {
        lemma_radix_plain(t, 16, 255);
    }
}

/// Written symbols are plain.
proof fn lemma_symbols_plain(symbols: Seq<Symbol>)
    ensures
        plain(symbols_text(symbols)),
    decreases symbols.len(),
{
    if symbols.len() == 0 {
    } else {
        lemma_symbols_plain(symbols.drop_last());
        lemma_symbol_plain(symbols.last());
        lemma_concat_plain(symbols_text(symbols.drop_last()), crate::codec::symbol_text(symbols.last()));
    }
}

/// A written mark is plain.
proof fn lemma_mark_plain<const N: usize>(mark: crate::mark::Mark<N>)
    ensures
        plain(mark_text(mark)),
{
    let groups = crate::codec::mark_groups(mark, N as nat);
    if groups.len() > 0 {
        assert forall|k: int| 0 <= k < groups.len() implies plain(#[trigger] groups[k]) by {
            lemma_group_plain(mark, N as nat, k);
        }
        lemma_join_plain(groups, '|');
    }
}

/// Each group of a written mark is plain.
proof fn lemma_group_plain<const N: usize>(mark: crate::mark::Mark<N>, n: nat, k: int)
    requires
        0 <= k < crate::codec::mark_groups(mark, n).len(),
    ensures
        plain(crate::codec::mark_groups(mark, n)[k]),
    decreases n,
{
    let groups = crate::codec::mark_groups(mark, n);
    let front = crate::codec::mark_groups(mark, (n - 1) as nat);
    if k < front.len() {
        assert(groups[k] == front[k]);
        lemma_group_plain(mark, (n - 1) as nat, k);
    } else {
        let symbols = mark.marked(n - 1);
        assert(groups[k] == crate::codec::group_text((n - 1) as nat, symbols));
        let texts = symbols.map_values(|symbol: Symbol| crate::codec::symbol_text(symbol));
        assert forall|j: int| 0 <= j < texts.len() implies plain(#[trigger] texts[j]) by {
            lemma_symbol_plain(symbols[j]);
        }
        lemma_join_plain(texts, ',');
        crate::text::lemma_decimal_round_trip((n - 1) as nat, (n - 1) as nat);
        lemma_radix_plain(decimal((n - 1) as nat), 10, (n - 1) as nat);
        lemma_concat_plain(decimal((n - 1) as nat), seq![':']);
        lemma_concat_plain(decimal((n - 1) as nat) + seq![':'], crate::codec::attribute_text(symbols));
    }
}

/// The digits of a number are plain.
pub proof fn lemma_decimal_plain(n: nat)
    ensures
        plain(decimal(n)),
{
    crate::text::lemma_decimal_round_trip(n, n);
    lemma_radix_plain(decimal(n), 10, n);
}

/// A written optional number reads back as itself.
pub proof fn lemma_optional_round_trip(value: Option<nat>, max: nat)
    requires
        value matches Some(v) ==> v <= max,
    ensures
        decodes_optional(optional_text(value), max),
        decoded_optional(optional_text(value)) == value,
        plain(optional_text(value)),
{
    if let Some(v) = value {
        crate::text::lemma_decimal_round_trip(v, max);
        crate::text::lemma_decimal_parses(v);
        lemma_decimal_plain(v);
        assert(decimal(v) != seq!['-']) by {
            assert(crate::text::is_digit(decimal(v)[0]));
        }
    }
}

/// A written bit pattern reads back as itself.
pub proof fn lemma_bits_round_trip(bits: u64)
    ensures
        decodes_bits(bits_text(bits)),
        radix_value(bits_text(bits), 16) == bits,
        plain(bits_text(bits)),
{
    crate::text::lemma_hex_digits_round_trip(bits);
    lemma_radix_plain(bits_text(bits), 16, u64::MAX as nat);
}

/// Written symbols read back as themselves.
proof fn lemma_symbols_fields_round_trip(symbols: Seq<Symbol>)
    ensures
        decodes_symbols(symbols_text(symbols), symbols.len()),
        symbols_decoded(symbols_text(symbols), symbols),
        plain(symbols_text(symbols)),
{
    crate::codec::lemma_symbols_round_trip(symbols);
    lemma_symbols_plain(symbols);
}

/// The fields of a classifier read back as the classifier, and each is
/// plain.
pub proof fn lemma_classifier_round_trip<const N: usize>(classifier: Classifier<N, StoredStats>)
    ensures
        decodes_classifier(classifier_fields(classifier), N as nat),
        classifier_decoded(classifier_fields(classifier), classifier),
        forall|k: int| 0 <= k < classifier_fields(classifier).len() ==> plain(#[trigger] classifier_fields(classifier)[k]),
{
    let f = classifier_fields(classifier);
    lemma_symbols_fields_round_trip(classifier.condition.symbols@);
    lemma_symbols_fields_round_trip(classifier.effect.symbols@);
    lemma_optional_round_trip(usize_option(classifier.action), usize::MAX as nat);
    lemma_optional_round_trip(u64_option(classifier.talp), u64::MAX as nat);
    crate::codec::lemma_mark_round_trip(classifier.mark);
    lemma_mark_plain(classifier.mark);
    lemma_bits_round_trip(classifier.stats.q);
    lemma_bits_round_trip(classifier.stats.r);
    lemma_bits_round_trip(classifier.stats.ir);
    lemma_bits_round_trip(classifier.stats.tav);
    crate::text::lemma_decimal_round_trip(classifier.num as nat, u32::MAX as nat);
    crate::text::lemma_decimal_round_trip(classifier.exp as nat, u32::MAX as nat);
    crate::text::lemma_decimal_round_trip(classifier.tga as nat, u64::MAX as nat);
    lemma_decimal_plain(classifier.num as nat);
    lemma_decimal_plain(classifier.exp as nat);
    lemma_decimal_plain(classifier.tga as nat);
    assert(seq!['0'] != seq!['1']) by {
        assert(seq!['0'][0] != seq!['1'][0]);
    }
    assert(plain(flag_text(classifier.ee)));
}

/// The fields of a remembered step read back as the step, and each is
/// plain.
pub proof fn lemma_sample_round_trip<const N: usize>(sample: ReplaySample<N, u64>)
    ensures
        decodes_sample(sample_fields(sample), N as nat),
        sample_decoded(sample_fields(sample), sample),
        forall|k: int| 0 <= k < sample_fields(sample).len() ==> plain(#[trigger] sample_fields(sample)[k]),
{
    lemma_symbols_fields_round_trip(sample.state.symbols@);
    lemma_symbols_fields_round_trip(sample.next_state.symbols@);
    lemma_bits_round_trip(sample.reward);
    crate::text::lemma_decimal_round_trip(sample.action as nat, usize::MAX as nat);
    lemma_decimal_plain(sample.action as nat);
    assert(seq!['0'] != seq!['1']) by {
        assert(seq!['0'][0] != seq!['1'][0]);
    }
    assert(plain(flag_text(sample.done)));
}


/// Whether the fields read as a generator state.
fn rng_ok(fields: &Vec<&str>) -> (result: bool)
    ensures
        result == decodes_rng(Seq::new(fields@.len(), |k: int| fields@[k]@)),
{
    let ghost texts = Seq::new(fields@.len(), |k: int| fields@[k]@);
    if fields.len() != 3 {
        return false;
    }
    let seed = fields[0];
    if seed.unicode_len() != 64 {
        return false;
    }
    let mut index: usize = 0;
    while index < 32
        invariant
            index <= 32,
            fields@.len() == 3,
            texts == Seq::new(fields@.len(), |k: int| fields@[k]@),
            seed@ == texts[0],
            seed@.len() == 64,
            forall|i: int| 0 <= i < index ==> parses_radix(#[trigger] texts[0].subrange(2 * i, 2 * i + 2), 16, 255),
        decreases 32 - index,
    {
        if parse_radix(seed.substring_char(2 * index, 2 * index + 2), 16, 255).is_none() {
            return false;
        }
        index += 1;
    }
    parse_unsigned(fields[1], u64::MAX).is_some() && parse_radix(fields[2], 10, u128::MAX).is_some()
}

/// The generator state a line stands for, if it starts with `keyword` and
/// reads as one.
pub fn parse_rng_line(line: &str, keyword: &str) -> (result: Option<RngState>)
    ensures
        result is Some <==> opens_with(line@, keyword@) && decodes_rng(line_fields(line@)),
        result matches Some(state) ==> rng_decoded(line_fields(line@), state),
{
    if !opens_with_keyword(line, keyword) {
        return None;
    }
    let fields = tail(line, keyword);
    proof {
        assert(Seq::new(fields@.len(), |k: int| fields@[k]@) =~= line_fields(line@));
    }
    if !rng_ok(&fields) {
        return None;
    }
    Some(decode_rng(fields.as_slice()))
}

/// The written seed is plain.
proof fn lemma_bytes_plain(bytes: Seq<u8>)
    ensures
        plain(crate::codec::bytes_text(bytes)),
    decreases bytes.len(),
{
    if bytes.len() > 0 {
        lemma_bytes_plain(bytes.drop_last());
        crate::text::lemma_hex_pair_round_trip(bytes.last());
        lemma_radix_plain(crate::text::hex_pair(bytes.last()), 16, 255);
        lemma_concat_plain(crate::codec::bytes_text(bytes.drop_last()), crate::text::hex_pair(bytes.last()));
    }
}

/// The fields of a generator state read back as the state, and each is
/// plain.
pub proof fn lemma_rng_fields_round_trip(state: RngState)
    ensures
        crate::codec::rng_fields(state).len() == 3,
        decodes_rng(crate::codec::rng_fields(state)),
        rng_decoded(crate::codec::rng_fields(state), state),
        forall|k: int| 0 <= k < 3 ==> plain(#[trigger] crate::codec::rng_fields(state)[k]),
{
    crate::codec::lemma_rng_round_trip(state);
    lemma_bytes_plain(state.seed@);
    lemma_decimal_plain(state.stream as nat);
    lemma_decimal_plain(state.word_pos as nat);
}

/// `s` can stand as a field of a line: it holds no space and no line feed.
pub open spec fn field_text(s: Seq<char>) -> bool {
    free_of(s, ' ') && free_of(s, '\n')
}

/// `s` does not end with a carriage return.
pub open spec fn ends_clean(s: Seq<char>) -> bool {
    s.len() == 0 || s.last() != '\r'
}

/// A plain text can stand as a field and does not end with a carriage
/// return.
pub proof fn lemma_plain_field(s: Seq<char>)
    requires
        plain(s),
    ensures
        field_text(s),
        ends_clean(s),
{
    if s.len() > 0 {
        assert(s[s.len() - 1] != '\r');
    }
}

/// A joined text ends as its last piece does, or with the separator when
/// that piece is empty.
proof fn lemma_join_last(pieces: Seq<Seq<char>>, sep: char)
    requires
        pieces.len() >= 1,
        sep != '\r',
        ends_clean(pieces.last()),
    ensures
        ends_clean(join(pieces, sep)),
{
    if pieces.len() > 1 {
        let j = join(pieces, sep);
        let head = join(pieces.drop_last(), sep).push(sep);
        if pieces.last().len() > 0 {
            assert(j.last() == pieces.last().last());
        } else {
            assert(j =~= head);
        }
    }
}

/// A line of fields splits back into its keyword and fields, and holds no
/// line break.
pub proof fn lemma_keyword_line(keyword: Seq<char>, fields: Seq<Seq<char>>)
    requires
        field_text(keyword),
        forall|k: int| 0 <= k < fields.len() ==> field_text(#[trigger] fields[k]),
        ends_clean((seq![keyword] + fields).last()),
    ensures
        split_on(keyword_line(keyword, fields), ' ') == seq![keyword] + fields,
        opens_with(keyword_line(keyword, fields), keyword),
        line_fields(keyword_line(keyword, fields)) == fields,
        plain_line(keyword_line(keyword, fields)),
{
    let pieces = seq![keyword] + fields;
    assert forall|k: int| 0 <= k < pieces.len() implies field_text(#[trigger] pieces[k]) by {
        if k > 0 {
            assert(pieces[k] == fields[k - 1]);
        }
    }
    assert forall|k: int| 0 <= k < pieces.len() implies free_of(#[trigger] pieces[k], ' ') by {
        assert(field_text(pieces[k]));
    }
    assert forall|k: int| 0 <= k < pieces.len() implies free_of(#[trigger] pieces[k], '\n') by {
        assert(field_text(pieces[k]));
    }
    crate::codec::lemma_split_join(pieces, ' ');
    crate::codec::lemma_join_free(pieces, ' ', '\n');
    lemma_join_last(pieces, ' ');
    assert(pieces.drop_first() =~= fields);
}

/// A line of plain fields after a plain keyword reads back as them.
pub proof fn lemma_plain_line(keyword: Seq<char>, fields: Seq<Seq<char>>)
    requires
        plain(keyword),
        forall|k: int| 0 <= k < fields.len() ==> plain(#[trigger] fields[k]),
    ensures
        split_on(keyword_line(keyword, fields), ' ') == seq![keyword] + fields,
        opens_with(keyword_line(keyword, fields), keyword),
        line_fields(keyword_line(keyword, fields)) == fields,
        plain_line(keyword_line(keyword, fields)),
{
    lemma_plain_field(keyword);
    assert forall|k: int| 0 <= k < fields.len() implies field_text(#[trigger] fields[k]) by {
        lemma_plain_field(fields[k]);
    }
    let pieces = seq![keyword] + fields;
    lemma_plain_field(pieces.last());
    lemma_keyword_line(keyword, fields);
}

/// A line that `str::lines` gives back unchanged: no line feed, and no
/// carriage return at its end.
pub open spec fn plain_line(line: Seq<char>) -> bool {
    free_of(line, '\n') && (line.len() == 0 || line.last() != '\r')
}

} // verus!
