use vstd::prelude::*;

use crate::mark::Mark;
use crate::rng::RngState;
use crate::symbol::Symbol;
use crate::text::{
    append_decimal, append_hex_byte, decimal, hex_pair, is_radix_digit, lemma_decimal_parses,
    lemma_decimal_round_trip, lemma_hex_pair_round_trip, parse_radix, parse_unsigned, parses_radix,
    parses_unsigned, radix_value, same_text, unsigned_value,
};

verus! {

/// The pieces of `s` between the separators, left to right; a text
/// without separators is one piece, and an empty text one empty piece.
pub open spec fn split_on(s: Seq<char>, sep: char) -> Seq<Seq<char>>
    decreases s.len(),
{
    if s.len() == 0 {
        seq![Seq::empty()]
    } else {
        let pieces = split_on(s.drop_last(), sep);
        if s.last() == sep {
            pieces.push(Seq::empty())
        } else {
            pieces.update(pieces.len() - 1, pieces.last().push(s.last()))
        }
    }
}

/// The pieces with the separator between each two of them.
pub open spec fn join(pieces: Seq<Seq<char>>, sep: char) -> Seq<char>
    decreases pieces.len(),
{
    if pieces.len() == 0 {
        Seq::empty()
    } else if pieces.len() == 1 {
        pieces[0]
    } else {
        join(pieces.drop_last(), sep).push(sep) + pieces.last()
    }
}

/// `s` does not hold the separator.
pub open spec fn free_of(s: Seq<char>, sep: char) -> bool {
    forall|i: int| 0 <= i < s.len() ==> #[trigger] s[i] != sep
}

/// Splitting never gives an empty list of pieces.
pub proof fn lemma_split_nonempty(s: Seq<char>, sep: char)
    ensures
        split_on(s, sep).len() >= 1,
    decreases s.len(),
{
    if s.len() > 0 {
        lemma_split_nonempty(s.drop_last(), sep);
    }
}

/// Appending text without the separator grows the last piece.
pub proof fn lemma_split_append_free(s: Seq<char>, t: Seq<char>, sep: char)
    requires
        free_of(t, sep),
    ensures
        split_on(s + t, sep) == split_on(s, sep).update(
            split_on(s, sep).len() - 1,
            split_on(s, sep).last() + t,
        ),
    decreases t.len(),
{
    lemma_split_nonempty(s, sep);
    if t.len() == 0 {
        assert(s + t =~= s);
        assert(split_on(s, sep).last() + t =~= split_on(s, sep).last());
        assert(split_on(s, sep).update(split_on(s, sep).len() - 1, split_on(s, sep).last()) =~= split_on(s, sep));
    } else {
        let shorter = t.drop_last();
        assert(free_of(shorter, sep));
        lemma_split_append_free(s, shorter, sep);
        let st = s + t;
        let q = split_on(s, sep);
        let p = split_on(s + shorter, sep);
        assert(st.len() > 0);
        assert(st.drop_last() =~= s + shorter);
        assert(st.last() == t.last());
        assert(t.last() != sep);
        assert(split_on(st, sep) == p.update(p.len() - 1, p.last().push(st.last())));
        assert(p.len() == q.len());
        assert(p.last() == q.last() + shorter);
        assert(q.last() + shorter + seq![t.last()] =~= q.last() + t);
        assert(p.last().push(st.last()) =~= q.last() + t);
        assert(split_on(st, sep) =~= q.update(q.len() - 1, q.last() + t));
    }
}

/// Pieces joined by a separator they do not hold split back into
/// themselves.
pub proof fn lemma_split_join(pieces: Seq<Seq<char>>, sep: char)
    requires
        pieces.len() >= 1,
        forall|k: int| 0 <= k < pieces.len() ==> free_of(#[trigger] pieces[k], sep),
    ensures
        split_on(join(pieces, sep), sep) == pieces,
    decreases pieces.len(),
{
    if pieces.len() == 1 {
        let p = pieces[0];
        lemma_split_append_free(Seq::empty(), p, sep);
        assert(Seq::<char>::empty() + p =~= p);
        assert(split_on(Seq::<char>::empty(), sep) == seq![Seq::<char>::empty()]);
        assert(seq![Seq::<char>::empty()].update(0, Seq::<char>::empty() + p) =~= pieces);
    } else {
        let front = pieces.drop_last();
        assert forall|k: int| 0 <= k < front.len() implies free_of(#[trigger] front[k], sep) by {
            assert(front[k] == pieces[k]);
        }
        lemma_split_join(front, sep);
        let head = join(front, sep).push(sep);
        assert(split_on(head, sep) == split_on(join(front, sep), sep).push(Seq::empty())) by {
            assert(head.drop_last() =~= join(front, sep));
        }
        lemma_split_append_free(head, pieces.last(), sep);
        assert(Seq::<char>::empty() + pieces.last() =~= pieces.last());
        assert(front.push(Seq::empty()).update(front.len() as int, Seq::<char>::empty() + pieces.last()) =~= pieces);
    }
}

/// The field after the separator up to the end, or the whole text, once
/// the first separator is found.
pub open spec fn first_index_of(s: Seq<char>, sep: char) -> int
    decreases s.len(),
{
    if s.len() == 0 {
        -1
    } else if first_index_of(s.drop_last(), sep) >= 0 {
        first_index_of(s.drop_last(), sep)
    } else if s.last() == sep {
        s.len() - 1
    } else {
        -1
    }
}

pub proof fn lemma_first_index_of(s: Seq<char>, sep: char)
    ensures
        first_index_of(s, sep) < 0 ==> free_of(s, sep),
        first_index_of(s, sep) >= 0 ==> {
            let k = first_index_of(s, sep);
            &&& k < s.len()
            &&& s[k] == sep
            &&& free_of(s.take(k), sep)
        },
    decreases s.len(),
{
    if s.len() > 0 {
        lemma_first_index_of(s.drop_last(), sep);
        let k = first_index_of(s.drop_last(), sep);
        if k >= 0 {
            assert(s.take(k) =~= s.drop_last().take(k));
        } else {
            assert(s.take(s.len() - 1) =~= s.drop_last());
            assert forall|i: int| 0 <= i < s.len() - 1 implies #[trigger] s[i] != sep by {
                assert(s.drop_last()[i] == s[i]);
            }
        }
    }
}

/// The position of the first `sep` in `text`, if any.
pub fn find_char(text: &str, sep: char) -> (result: Option<usize>)
    ensures
        result is None <==> first_index_of(text@, sep) < 0,
        result matches Some(k) ==> k == first_index_of(text@, sep),
{
    proof {
        lemma_first_index_of(text@, sep);
    }
    let length = text.unicode_len();
    let mut index: usize = 0;
    while index < length
        invariant
            length == text@.len(),
            index <= length,
            forall|i: int| 0 <= i < index ==> #[trigger] text@[i] != sep,
        decreases length - index,
    {
        if text.get_char(index) == sep {
            proof {
                lemma_first_is_first(text@, sep, index as int);
            }
            return Some(index);
        }
        index += 1;
    }
    proof {
        if first_index_of(text@, sep) >= 0 {
            lemma_first_index_of(text@, sep);
            assert(text@[first_index_of(text@, sep)] == sep);
        }
    }
    None
}

/// The first separator is the earliest one.
pub proof fn lemma_first_is_first(s: Seq<char>, sep: char, k: int)
    requires
        0 <= k < s.len(),
        s[k] == sep,
        forall|i: int| 0 <= i < k ==> #[trigger] s[i] != sep,
    ensures
        first_index_of(s, sep) == k,
    decreases s.len(),
{
    lemma_first_index_of(s, sep);
    if k < s.len() - 1 {
        lemma_first_is_first(s.drop_last(), sep, k);
    } else {
        lemma_first_index_of(s.drop_last(), sep);
        if first_index_of(s.drop_last(), sep) >= 0 {
            let j = first_index_of(s.drop_last(), sep);
            assert(s.drop_last()[j] == sep);
            assert(s[j] == sep);
        }
    }
}

/// Splits `text` at every `sep`.
pub fn split_text<'a>(text: &'a str, sep: char) -> (result: Vec<&'a str>)
    ensures
        result@.len() == split_on(text@, sep).len(),
        forall|k: int| 0 <= k < result@.len() ==> #[trigger] result@[k]@ == split_on(text@, sep)[k],
{
    let mut pieces: Vec<&'a str> = Vec::new();
    let mut rest: &'a str = text;
    let ghost mut consumed: Seq<char> = Seq::empty();
    proof {
        assert(text@ =~= consumed + rest@);
    }
    loop
        invariant
            text@ == consumed + rest@,
            pieces@.len() + 1 == split_on(consumed, sep).len(),
            forall|k: int| 0 <= k < pieces@.len() ==> #[trigger] pieces@[k]@ == split_on(consumed, sep)[k],
            split_on(consumed, sep).last() == Seq::<char>::empty(),
        ensures
            pieces@.len() == split_on(text@, sep).len(),
            forall|k: int| 0 <= k < pieces@.len() ==> #[trigger] pieces@[k]@ == split_on(text@, sep)[k],
        decreases rest@.len(),
    {
        match find_char(rest, sep) {
            None => {
                proof {
                    lemma_first_index_of(rest@, sep);
                    lemma_split_append_free(consumed, rest@, sep);
                    assert(Seq::<char>::empty() + rest@ =~= rest@);
                }
                pieces.push(rest);
                return pieces;
            },
            Some(position) => {
                proof {
                    lemma_first_index_of(rest@, sep);
                }
                let length = rest.unicode_len();
                let piece = rest.substring_char(0, position);
                let after = rest.substring_char(position + 1, length);
                proof {
                    let grown = consumed + piece@;
                    lemma_split_append_free(consumed, piece@, sep);
                    assert(Seq::<char>::empty() + piece@ =~= piece@);
                    let next = grown.push(sep);
                    assert(next.drop_last() =~= grown);
                    assert(rest@ =~= piece@.push(sep) + after@);
                    assert(text@ =~= next + after@);
                    consumed = next;
                }
                pieces.push(piece);
                rest = after;
            },
        }
    }
}

/// The fields of a checkpoint line after its keyword: the pieces between
/// single spaces.
pub open spec fn line_fields(line: Seq<char>) -> Seq<Seq<char>> {
    split_on(line, ' ').drop_first()
}

/// The fields of a line that starts with `keyword`; the line must start
/// with it.
pub fn tail<'a>(line: &'a str, keyword: &str) -> (result: Vec<&'a str>)
    requires
        split_on(line@, ' ')[0] == keyword@,
    ensures
        result@.len() == line_fields(line@).len(),
        forall|k: int| 0 <= k < result@.len() ==> #[trigger] result@[k]@ == line_fields(line@)[k],
{
    let mut fields = split_text(line, ' ');
    proof {
        lemma_split_nonempty(line@, ' ');
    }
    let ghost all = fields@;
    let _ = fields.remove(0);
    proof {
        assert forall|k: int| 0 <= k < fields@.len() implies #[trigger] fields@[k]@ == line_fields(line@)[k] by {
            assert(fields@[k] == all[k + 1]);
        }
    }
    fields
}

/// A `key=value` field: the text before the first `=`, and the text after
/// it.
pub open spec fn key_of(field: Seq<char>) -> Seq<char> {
    field.take(first_index_of(field, '='))
}

pub open spec fn value_of(field: Seq<char>) -> Seq<char> {
    field.skip(first_index_of(field, '=') + 1)
}

/// The `key=value` fields of a line that starts with `keyword`; every
/// field must hold an `=`.
pub fn keyed_fields<'a>(line: &'a str, keyword: &str) -> (result: Vec<(&'a str, &'a str)>)
    requires
        split_on(line@, ' ')[0] == keyword@,
        forall|k: int| 0 <= k < line_fields(line@).len() ==> first_index_of(#[trigger] line_fields(line@)[k], '=') >= 0,
    ensures
        result@.len() == line_fields(line@).len(),
        forall|k: int|
            0 <= k < result@.len() ==> #[trigger] result@[k].0@ == key_of(line_fields(line@)[k]) && result@[k].1@
                == value_of(line_fields(line@)[k]),
{
    let fields = tail(line, keyword);
    let mut result: Vec<(&'a str, &'a str)> = Vec::new();
    let mut index: usize = 0;
    while index < fields.len()
        invariant
            index <= fields@.len(),
            fields@.len() == line_fields(line@).len(),
            forall|k: int| 0 <= k < fields@.len() ==> #[trigger] fields@[k]@ == line_fields(line@)[k],
            forall|k: int| 0 <= k < line_fields(line@).len() ==> first_index_of(#[trigger] line_fields(line@)[k], '=') >= 0,
            result@.len() == index,
            forall|k: int|
                0 <= k < index ==> #[trigger] result@[k].0@ == key_of(line_fields(line@)[k]) && result@[k].1@
                    == value_of(line_fields(line@)[k]),
        decreases fields@.len() - index,
    {
        let field = fields[index];
        proof {
            assert(first_index_of(line_fields(line@)[index as int], '=') >= 0);
        }
        match find_char(field, '=') {
            Some(position) => {
                proof {
                    lemma_first_index_of(field@, '=');
                }
                let length = field.unicode_len();
                let key = field.substring_char(0, position);
                let value = field.substring_char(position + 1, length);
                proof {
                    assert(key@ =~= key_of(line_fields(line@)[index as int]));
                    assert(value@ =~= value_of(line_fields(line@)[index as int]));
                }
                result.push((key, value));
            },
            None => {
                proof {
                    assert(false);
                }
            },
        }
        index += 1;
    }
    result
}

/// The value of the first field named `key`; some field must be.
pub fn field<'a>(fields: &[(&'a str, &'a str)], key: &str) -> (result: &'a str)
    requires
        exists|k: int| 0 <= k < fields@.len() && #[trigger] fields@[k].0@ == key@,
    ensures
        exists|k: int|
            0 <= k < fields@.len() && #[trigger] fields@[k].0@ == key@ && result == fields@[k].1 && forall|j: int|
                0 <= j < k ==> (#[trigger] fields@[j]).0@ != key@,
{
    let mut index: usize = 0;
    while index < fields.len()
        invariant
            index <= fields@.len(),
            exists|k: int| index <= k < fields@.len() && #[trigger] fields@[k].0@ == key@,
            forall|j: int| 0 <= j < index ==> (#[trigger] fields@[j]).0@ != key@,
        decreases fields@.len() - index,
    {
        if same_text(fields[index].0, key) {
            return fields[index].1;
        }
        index += 1;
    }
    proof {
        assert(false);
    }
    fields[0].1
}

/// A flag is written `0` or `1`; anything else is refused.
pub fn decode_flag(text: &str, what: &str) -> (result: bool)
    requires
        text@ == "0"@ || text@ == "1"@,
    ensures
        result == (text@ == "1"@),
{
    proof {
        reveal_strlit("0");
        reveal_strlit("1");
        assert("0"@ != "1"@) by {
            assert("0"@[0] != "1"@[0]);
        }
    }
    same_text(text, "1")
}

/// An optional number: `-` for none, else its decimal digits.
pub fn parse_optional(text: &str, what: &str) -> (result: Option<u64>)
    requires
        text@ == "-"@ || parses_unsigned(text@, u64::MAX as nat),
    ensures
        text@ == "-"@ ==> result is None,
        text@ != "-"@ ==> result == Some(unsigned_value(text@) as u64),
{
    if same_text(text, "-") {
        None
    } else {
        match parse_unsigned(text, u64::MAX) {
            Some(value) => Some(value),
            None => {
                proof {
                    assert(false);
                }
                None
            },
        }
    }
}

/// How a symbol is written: `--` for the wildcard, two hexadecimal digits
/// for a token.
pub open spec fn symbol_text(symbol: Symbol) -> Seq<char> {
    match symbol {
        Symbol::Wildcard => "--"@,
        Symbol::Token(value) => hex_pair(value),
    }
}

/// A text `decode_symbol` accepts: `--`, or a hexadecimal byte.
pub open spec fn decodes_symbol(text: Seq<char>) -> bool {
    text == "--"@ || parses_radix(text, 16, 255)
}

/// The symbol a text stands for.
pub open spec fn decoded_symbol(text: Seq<char>) -> Symbol {
    if text == "--"@ {
        Symbol::Wildcard
    } else {
        Symbol::Token(radix_value(text, 16) as u8)
    }
}

/// Appends how `symbol` is written.
pub fn encode_symbol(symbol: Symbol, into: &mut String)
    ensures
        final(into)@ == old(into)@ + symbol_text(symbol),
{
    match symbol {
        Symbol::Wildcard => into.append("--"),
        Symbol::Token(value) => append_hex_byte(into, value),
    }
}

/// The symbol `text` stands for.
pub fn decode_symbol(text: &str) -> (result: Symbol)
    requires
        decodes_symbol(text@),
    ensures
        result == decoded_symbol(text@),
{
    if same_text(text, "--") {
        Symbol::Wildcard
    } else {
        match parse_radix(text, 16, 255) {
            Some(value) => Symbol::Token(value as u8),
            None => {
                proof {
                    assert(false);
                }
                Symbol::Wildcard
            },
        }
    }
}

/// A written symbol reads back as the symbol.
pub proof fn lemma_symbol_round_trip(symbol: Symbol)
    ensures
        decodes_symbol(symbol_text(symbol)),
        decoded_symbol(symbol_text(symbol)) == symbol,
        symbol_text(symbol).len() == 2,
{
    reveal_strlit("--");
    if let Symbol::Token(value) = symbol {
        lemma_hex_pair_round_trip(value);
        let h = hex_pair(value);
        assert(h != "--"@) by {
            assert(crate::text::is_radix_digit(h[0], 16));
            assert("--"@[0] == '-');
        }
    }
}

/// How a sequence of symbols is written: each symbol's two characters in
/// turn.
pub open spec fn symbols_text(symbols: Seq<Symbol>) -> Seq<char>
    decreases symbols.len(),
{
    if symbols.len() == 0 {
        Seq::empty()
    } else {
        symbols_text(symbols.drop_last()) + symbol_text(symbols.last())
    }
}

/// The written symbols have two characters each, in order.
proof fn lemma_symbols_text(symbols: Seq<Symbol>)
    ensures
        symbols_text(symbols).len() == 2 * symbols.len(),
        forall|i: int|
            0 <= i < symbols.len() ==> #[trigger] symbols_text(symbols).subrange(2 * i, 2 * i + 2) == symbol_text(
                symbols[i],
            ),
    decreases symbols.len(),
{
    if symbols.len() > 0 {
        let front = symbols.drop_last();
        lemma_symbols_text(front);
        lemma_symbol_round_trip(symbols.last());
        let t = symbols_text(symbols);
        assert forall|i: int| 0 <= i < symbols.len() implies #[trigger] t.subrange(2 * i, 2 * i + 2) == symbol_text(
            symbols[i],
        ) by {
            if i < front.len() {
                assert(t.subrange(2 * i, 2 * i + 2) =~= symbols_text(front).subrange(2 * i, 2 * i + 2));
                assert(front[i] == symbols[i]);
            } else {
                assert(t.subrange(2 * i, 2 * i + 2) =~= symbol_text(symbols.last()));
            }
        }
    }
}

/// Writes the symbols one after the other.
pub fn encode_symbols(symbols: &[Symbol]) -> (result: String)
    ensures
        result@ == symbols_text(symbols@),
{
    let mut text = String::new();
    let mut index: usize = 0;
    while index < symbols.len()
        invariant
            index <= symbols@.len(),
            text@ == symbols_text(symbols@.take(index as int)),
        decreases symbols@.len() - index,
    {
        encode_symbol(symbols[index], &mut text);
        proof {
            let part = symbols@.take(index as int + 1);
            assert(part.drop_last() =~= symbols@.take(index as int));
        }
        index += 1;
    }
    proof {
        assert(symbols@.take(symbols@.len() as int) =~= symbols@);
    }
    text
}

/// Reads `N` symbols written two characters each.
pub fn decode_symbols<const N: usize>(text: &str) -> (result: [Symbol; N])
    requires
        text@.len() == 2 * N,
        2 * N <= usize::MAX,
        forall|i: int| 0 <= i < N ==> decodes_symbol(#[trigger] text@.subrange(2 * i, 2 * i + 2)),
    ensures
        forall|i: int| 0 <= i < N ==> #[trigger] result@[i] == decoded_symbol(text@.subrange(2 * i, 2 * i + 2)),
{
    let mut symbols = [Symbol::Wildcard;N];
    let mut index: usize = 0;
    while index < N
        invariant
            index <= N,
            text@.len() == 2 * N,
            2 * N <= usize::MAX,
            forall|i: int| 0 <= i < N ==> decodes_symbol(#[trigger] text@.subrange(2 * i, 2 * i + 2)),
            forall|i: int| 0 <= i < index ==> #[trigger] symbols@[i] == decoded_symbol(text@.subrange(2 * i, 2 * i + 2)),
        decreases N - index,
    {
        let piece = text.substring_char(index * 2, index * 2 + 2);
        proof {
            assert(decodes_symbol(text@.subrange(2 * index, 2 * index + 2)));
        }
        symbols[index] = decode_symbol(piece);
        index += 1;
    }
    symbols
}

/// Written symbols read back as themselves.
pub proof fn lemma_symbols_round_trip(symbols: Seq<Symbol>)
    ensures
        symbols_text(symbols).len() == 2 * symbols.len(),
        forall|i: int|
            0 <= i < symbols.len() ==> decodes_symbol(#[trigger] symbols_text(symbols).subrange(2 * i, 2 * i + 2))
                && decoded_symbol(symbols_text(symbols).subrange(2 * i, 2 * i + 2)) == symbols[i],
{
    lemma_symbols_text(symbols);
    assert forall|i: int| 0 <= i < symbols.len() implies decodes_symbol(
        #[trigger] symbols_text(symbols).subrange(2 * i, 2 * i + 2),
    ) && decoded_symbol(symbols_text(symbols).subrange(2 * i, 2 * i + 2)) == symbols[i] by {
        lemma_symbol_round_trip(symbols[i]);
    }
}


/// How the bytes of a seed are written: two hexadecimal digits each.
pub open spec fn bytes_text(bytes: Seq<u8>) -> Seq<char>
    decreases bytes.len(),
{
    if bytes.len() == 0 {
        Seq::empty()
    } else {
        bytes_text(bytes.drop_last()) + hex_pair(bytes.last())
    }
}

/// The three fields a generator state is written as: the seed, the stream
/// and the word position.
pub open spec fn rng_fields(state: RngState) -> Seq<Seq<char>> {
    seq![bytes_text(state.seed@), decimal(state.stream as nat), decimal(state.word_pos as nat)]
}

/// How a generator state is written: its fields separated by spaces.
pub open spec fn rng_text(state: RngState) -> Seq<char> {
    join(rng_fields(state), ' ')
}

/// Fields `decode_rng` accepts: three of them, the first 32 hexadecimal
/// bytes, then a `u64` and a `u128`.
pub open spec fn decodes_rng(fields: Seq<Seq<char>>) -> bool {
    &&& fields.len() == 3
    &&& fields[0].len() == 64
    &&& forall|i: int| 0 <= i < 32 ==> parses_radix(#[trigger] fields[0].subrange(2 * i, 2 * i + 2), 16, 255)
    &&& parses_unsigned(fields[1], u64::MAX as nat)
    &&& parses_unsigned(fields[2], u128::MAX as nat)
}

/// The written seed has two characters per byte, in order.
proof fn lemma_bytes_text(bytes: Seq<u8>)
    ensures
        bytes_text(bytes).len() == 2 * bytes.len(),
        forall|i: int|
            0 <= i < bytes.len() ==> #[trigger] bytes_text(bytes).subrange(2 * i, 2 * i + 2) == hex_pair(bytes[i]),
        free_of(bytes_text(bytes), ' '),
    decreases bytes.len(),
{
    if bytes.len() > 0 {
        let front = bytes.drop_last();
        lemma_bytes_text(front);
        lemma_hex_pair_round_trip(bytes.last());
        let t = bytes_text(bytes);
        assert forall|i: int| 0 <= i < bytes.len() implies #[trigger] t.subrange(2 * i, 2 * i + 2) == hex_pair(bytes[i]) by {
            if i < front.len() {
                assert(t.subrange(2 * i, 2 * i + 2) =~= bytes_text(front).subrange(2 * i, 2 * i + 2));
                assert(front[i] == bytes[i]);
            } else {
                assert(t.subrange(2 * i, 2 * i + 2) =~= hex_pair(bytes.last()));
            }
        }
        let h = hex_pair(bytes.last());
        assert forall|i: int| 0 <= i < t.len() implies #[trigger] t[i] != ' ' by {
            if i >= bytes_text(front).len() {
                assert(is_radix_digit(h[i - bytes_text(front).len()], 16));
            } else {
                assert(t[i] == bytes_text(front)[i]);
            }
        }
    }
}

/// Writes a generator state.
pub fn encode_rng(state: &RngState) -> (result: String)
    ensures
        result@ == rng_text(*state),
{
    let mut text = String::new();
    let mut index: usize = 0;
    while index < 32
        invariant
            index <= 32,
            text@ == bytes_text(state.seed@.take(index as int)),
        decreases 32 - index,
    {
        append_hex_byte(&mut text, state.seed[index]);
        proof {
            let part = state.seed@.take(index as int + 1);
            assert(part.drop_last() =~= state.seed@.take(index as int));
        }
        index += 1;
    }
    proof {
        assert(state.seed@.take(32) =~= state.seed@);
        reveal_strlit(" ");
    }
    text.append(" ");
    append_decimal(&mut text, state.stream as u128);
    text.append(" ");
    append_decimal(&mut text, state.word_pos);
    proof {
        let fields = rng_fields(*state);
        let first_two = seq![fields[0], fields[1]];
        assert(fields.drop_last() =~= first_two);
        assert(first_two.drop_last() =~= seq![fields[0]]);
        assert(join(seq![fields[0]], ' ') == fields[0]);
        assert(join(first_two, ' ') == fields[0].push(' ') + fields[1]);
        assert(join(fields, ' ') == join(first_two, ' ').push(' ') + fields[2]);
        assert(" "@ =~= seq![' ']);
        assert(text@ =~= join(fields, ' '));
    }
    text
}

/// Reads a generator state from its three fields.
pub fn decode_rng(fields: &[&str]) -> (result: RngState)
    requires
        fields@.len() == 3,
        decodes_rng(Seq::new(3, |k: int| fields@[k]@)),
    ensures
        forall|i: int| 0 <= i < 32 ==> #[trigger] result.seed@[i] == radix_value(fields@[0]@.subrange(2 * i, 2 * i + 2), 16),
        result.stream == unsigned_value(fields@[1]@),
        result.word_pos == unsigned_value(fields@[2]@),
{
    let ghost texts = Seq::new(3, |k: int| fields@[k]@);
    assert(texts[0] == fields@[0]@ && texts[1] == fields@[1]@ && texts[2] == fields@[2]@);
    let seed_text = fields[0];
    let mut seed = [0u8;32];
    let mut index: usize = 0;
    while index < 32
        invariant
            index <= 32,
            seed_text@ == texts[0],
            texts[0] == fields@[0]@,
            decodes_rng(texts),
            forall|i: int| 0 <= i < index ==> #[trigger] seed@[i] == radix_value(texts[0].subrange(2 * i, 2 * i + 2), 16),
        decreases 32 - index,
    {
        let pair = seed_text.substring_char(index * 2, index * 2 + 2);
        proof {
            assert(parses_radix(texts[0].subrange(2 * index, 2 * index + 2), 16, 255));
        }
        match parse_radix(pair, 16, 255) {
            Some(value) => {
                seed[index] = value as u8;
            },
            None => {
                proof {
                    assert(false);
                }
            },
        }
        index += 1;
    }
    let stream = match parse_unsigned(fields[1], u64::MAX) {
        Some(value) => value,
        None => {
            proof {
                assert(false);
            }
            0
        },
    };
    let word_pos = match parse_radix(fields[2], 10, u128::MAX) {
        Some(value) => value,
        None => {
            proof {
                assert(false);
            }
            0
        },
    };
    RngState { seed, stream, word_pos }
}

/// A written generator state splits into its three fields, and those read
/// back as the state.
pub proof fn lemma_rng_round_trip(state: RngState)
    ensures
        split_on(rng_text(state), ' ') == rng_fields(state),
        decodes_rng(rng_fields(state)),
        forall|i: int|
            0 <= i < 32 ==> radix_value(#[trigger] rng_fields(state)[0].subrange(2 * i, 2 * i + 2), 16) == state.seed@[i],
        unsigned_value(rng_fields(state)[1]) == state.stream,
        unsigned_value(rng_fields(state)[2]) == state.word_pos,
{
    let fields = rng_fields(state);
    lemma_bytes_text(state.seed@);
    lemma_decimal_round_trip(state.stream as nat, u64::MAX as nat);
    lemma_decimal_round_trip(state.word_pos as nat, u128::MAX as nat);
    lemma_decimal_parses(state.stream as nat);
    lemma_decimal_parses(state.word_pos as nat);
    assert forall|k: int| 0 <= k < fields.len() implies free_of(#[trigger] fields[k], ' ') by {
        if k > 0 {
            let d = fields[k];
            assert forall|i: int| 0 <= i < d.len() implies #[trigger] d[i] != ' ' by {
                assert(crate::text::is_digit(d[i]));
            }
        }
    }
    lemma_split_join(fields, ' ');
    assert forall|i: int| 0 <= i < 32 implies radix_value(#[trigger] fields[0].subrange(2 * i, 2 * i + 2), 16)
        == state.seed@[i] && parses_radix(fields[0].subrange(2 * i, 2 * i + 2), 16, 255) by {
        lemma_hex_pair_round_trip(state.seed@[i]);
    }
}


/// The text before the first `sep` of `s`.
pub open spec fn before_first(s: Seq<char>, sep: char) -> Seq<char> {
    s.take(first_index_of(s, sep))
}

/// The text after the first `sep` of `s`.
pub open spec fn after_first(s: Seq<char>, sep: char) -> Seq<char> {
    s.skip(first_index_of(s, sep) + 1)
}

/// How the symbols of one position of a mark are written: separated by
/// commas.
pub open spec fn attribute_text(symbols: Seq<Symbol>) -> Seq<char> {
    join(symbols.map_values(|symbol: Symbol| symbol_text(symbol)), ',')
}

/// One marked position: its index, a colon, its symbols.
pub open spec fn group_text(index: nat, symbols: Seq<Symbol>) -> Seq<char> {
    decimal(index) + seq![':'] + attribute_text(symbols)
}

/// The groups of the marked positions among the first `n`, in order.
pub open spec fn mark_groups<const N: usize>(mark: Mark<N>, n: nat) -> Seq<Seq<char>>
    decreases n,
{
    if n == 0 {
        Seq::empty()
    } else {
        mark_groups(mark, (n - 1) as nat) + if mark.marked(n - 1).len() > 0 {
            seq![group_text((n - 1) as nat, mark.marked(n - 1))]
        } else {
            Seq::empty()
        }
    }
}

/// How a mark is written: its groups separated by `|`, or `-` when no
/// position is marked.
pub open spec fn mark_text<const N: usize>(mark: Mark<N>) -> Seq<char> {
    if mark_groups(mark, N as nat).len() == 0 {
        seq!['-']
    } else {
        join(mark_groups(mark, N as nat), '|')
    }
}

/// The position a group names.
pub open spec fn group_index(group: Seq<char>) -> nat {
    unsigned_value(before_first(group, ':'))
}

/// The symbols a group lists.
pub open spec fn group_symbols(group: Seq<char>) -> Set<Symbol> {
    split_on(after_first(group, ':'), ',').map_values(|piece: Seq<char>| decoded_symbol(piece)).to_set()
}

/// A group `decode_mark` accepts: a position below `n`, a colon, and
/// symbols separated by commas.
pub open spec fn decodes_group(group: Seq<char>, n: nat) -> bool {
    &&& first_index_of(group, ':') >= 0
    &&& parses_unsigned(before_first(group, ':'), usize::MAX as nat)
    &&& group_index(group) < n
    &&& forall|k: int|
        0 <= k < split_on(after_first(group, ':'), ',').len() ==> decodes_symbol(
            #[trigger] split_on(after_first(group, ':'), ',')[k],
        )
}

/// A text `decode_mark` accepts for a mark of `n` positions.
pub open spec fn decodes_mark(text: Seq<char>, n: nat) -> bool {
    text == seq!['-'] || forall|k: int|
        0 <= k < split_on(text, '|').len() ==> decodes_group(#[trigger] split_on(text, '|')[k], n)
}

/// The symbols of position `p` after reading `groups` in order: those of
/// the last group naming it, or none.
pub open spec fn last_group_set(groups: Seq<Seq<char>>, p: nat) -> Set<Symbol>
    decreases groups.len(),
{
    if groups.len() == 0 {
        Set::empty()
    } else if group_index(groups.last()) == p {
        group_symbols(groups.last())
    } else {
        last_group_set(groups.drop_last(), p)
    }
}

/// The symbols of position `p` of the mark a text stands for.
pub open spec fn decoded_marked(text: Seq<char>, p: nat) -> Set<Symbol> {
    if text == seq!['-'] {
        Set::empty()
    } else {
        last_group_set(split_on(text, '|'), p)
    }
}

/// Writes the symbols of one position, separated by commas.
fn encode_attribute(symbols: &Vec<Symbol>, into: &mut String)
    ensures
        final(into)@ == old(into)@ + attribute_text(symbols@),
{
    let ghost texts = symbols@.map_values(|symbol: Symbol| symbol_text(symbol));
    let mut index: usize = 0;
    proof {
        assert(old(into)@ =~= old(into)@ + join(texts.take(0), ','));
    }
    while index < symbols.len()
        invariant
            index <= symbols@.len(),
            texts == symbols@.map_values(|symbol: Symbol| symbol_text(symbol)),
            into@ == old(into)@ + join(texts.take(index as int), ','),
        decreases symbols@.len() - index,
    {
        let ghost before = into@;
        if index > 0 {
            into.append(",");
        }
        encode_symbol(symbols[index], into);
        proof {
            reveal_strlit(",");
            let part = texts.take(index as int + 1);
            assert(part.drop_last() =~= texts.take(index as int));
            assert(part.last() == symbol_text(symbols@[index as int]));
            if index == 0 {
                assert(part =~= seq![symbol_text(symbols@[0])]);
                assert(into@ =~= old(into)@ + join(part, ','));
            } else {
                assert(into@ =~= old(into)@ + join(part, ','));
            }
        }
        index += 1;
    }
    proof {
        assert(texts.take(symbols@.len() as int) =~= texts);
    }
}

/// Writes a mark: for each marked position, its index, a colon and its
/// symbols; the groups separated by `|`, or `-` when nothing is marked.
pub fn encode_mark<const N: usize>(mark: &Mark<N>) -> (result: String)
    ensures
        result@ == mark_text(*mark),
{
    let mut text = String::new();
    let mut any = false;
    let mut index: usize = 0;
    while index < N
        invariant
            index <= N,
            any == (mark_groups(*mark, index as nat).len() > 0),
            any ==> text@ == join(mark_groups(*mark, index as nat), '|'),
            !any ==> text@ == Seq::<char>::empty(),
        decreases N - index,
    {
        let attribute = mark.attribute(index);
        if attribute.len() > 0 {
            if any {
                text.append("|");
            }
            append_decimal(&mut text, index as u128);
            text.append(":");
            encode_attribute(attribute, &mut text);
            proof {
                reveal_strlit("|");
                reveal_strlit(":");
                let groups = mark_groups(*mark, (index + 1) as nat);
                let g = group_text(index as nat, mark.marked(index as int));
                assert(groups == mark_groups(*mark, index as nat).push(g));
                if any {
                    assert(groups.drop_last() == mark_groups(*mark, index as nat));
                    assert(text@ =~= join(groups, '|'));
                } else {
                    assert(groups =~= seq![g]);
                    assert(text@ =~= join(groups, '|'));
                }
            }
            any = true;
        } else {
            proof {
                assert(mark_groups(*mark, (index + 1) as nat) =~= mark_groups(*mark, index as nat));
            }
        }
        index += 1;
    }
    if !any {
        proof {
            reveal_strlit("-");
        }
        return String::from_str("-");
    }
    text
}

/// Reads a mark of `N` positions: each group gives its position the
/// symbols it lists, and a later group for the same position replaces an
/// earlier one.
pub fn decode_mark<const N: usize>(text: &str) -> (result: Mark<N>)
    requires
        decodes_mark(text@, N as nat),
    ensures
        forall|p: int| 0 <= p < N ==> (#[trigger] result.marked(p)).to_set() == decoded_marked(text@, p as nat),
        result.marks_sorted(),
{
    let mut mark = Mark::new();
    proof {
        assert forall|p: int| 0 <= p < N implies (#[trigger] mark.marked(p)).to_set() == Set::<Symbol>::empty() by {
            assert(mark.marked(p).to_set() =~= Set::<Symbol>::empty());
        }
        reveal_strlit("-");
        assert("-"@ =~= seq!['-']);
    }
    if same_text(text, "-") {
        return mark;
    }
    assert(text@ != seq!['-']);
    let groups = split_text(text, '|');
    let ghost all = split_on(text@, '|');
    let mut k: usize = 0;
    while k < groups.len()
        invariant
            k <= groups@.len(),
            groups@.len() == all.len(),
            all == split_on(text@, '|'),
            forall|j: int| 0 <= j < groups@.len() ==> #[trigger] groups@[j]@ == all[j],
            forall|j: int| 0 <= j < all.len() ==> decodes_group(#[trigger] all[j], N as nat),
            forall|p: int| 0 <= p < N ==> (#[trigger] mark.marked(p)).to_set() == last_group_set(all.take(k as int), p as nat),
            mark.marks_sorted(),
        decreases groups@.len() - k,
    {
        let group = groups[k];
        proof {
            assert(decodes_group(all[k as int], N as nat));
            lemma_first_index_of(group@, ':');
        }
        match find_char(group, ':') {
            Some(position) => {
                let length = group.unicode_len();
                let key = group.substring_char(0, position);
                let listed = group.substring_char(position + 1, length);
                proof {
                    assert(key@ =~= before_first(group@, ':'));
                    assert(listed@ =~= after_first(group@, ':'));
                }
                let index = match parse_unsigned(key, usize::MAX as u64) {
                    Some(value) => value as usize,
                    None => {
                        proof {
                            assert(false);
                        }
                        0
                    },
                };
                let pieces = split_text(listed, ',');
                let mut symbols: Vec<Symbol> = Vec::new();
                let mut j: usize = 0;
                while j < pieces.len()
                    invariant
                        j <= pieces@.len(),
                        pieces@.len() == split_on(listed@, ',').len(),
                        forall|i: int| 0 <= i < pieces@.len() ==> #[trigger] pieces@[i]@ == split_on(listed@, ',')[i],
                        forall|i: int| 0 <= i < pieces@.len() ==> decodes_symbol(#[trigger] split_on(listed@, ',')[i]),
                        symbols@ == split_on(listed@, ',').take(j as int).map_values(|piece: Seq<char>| decoded_symbol(piece)),
                    decreases pieces@.len() - j,
                {
                    proof {
                        assert(decodes_symbol(split_on(listed@, ',')[j as int]));
                    }
                    symbols.push(decode_symbol(pieces[j]));
                    proof {
                        assert(symbols@ =~= split_on(listed@, ',').take(j as int + 1).map_values(
                            |piece: Seq<char>| decoded_symbol(piece),
                        ));
                    }
                    j += 1;
                }
                proof {
                    assert(split_on(listed@, ',').take(pieces@.len() as int) =~= split_on(listed@, ','));
                }
                mark.set_attribute(index, symbols.as_slice());
                proof {
                    let grown = all.take(k as int + 1);
                    assert(grown.drop_last() =~= all.take(k as int));
                    assert(grown.last() == all[k as int]);
                    assert(group_index(all[k as int]) == index);
                }
            },
            None => {
                proof {
                    assert(false);
                }
            },
        }
        k += 1;
    }
    proof {
        assert(all.take(all.len() as int) =~= all);
    }
    mark
}


/// A joined text starts with its first piece.
proof fn lemma_join_starts_with_first(pieces: Seq<Seq<char>>, sep: char)
    requires
        pieces.len() >= 1,
    ensures
        join(pieces, sep).len() >= pieces[0].len(),
        forall|i: int| 0 <= i < pieces[0].len() ==> #[trigger] join(pieces, sep)[i] == pieces[0][i],
    decreases pieces.len(),
{
    if pieces.len() > 1 {
        let front = pieces.drop_last();
        lemma_join_starts_with_first(front, sep);
        assert(front[0] == pieces[0]);
    }
}

/// A joined text holds only separators and characters of its pieces.
pub proof fn lemma_join_free(pieces: Seq<Seq<char>>, sep: char, c: char)
    requires
        c != sep,
        forall|k: int| 0 <= k < pieces.len() ==> free_of(#[trigger] pieces[k], c),
    ensures
        free_of(join(pieces, sep), c),
    decreases pieces.len(),
{
    if pieces.len() > 1 {
        let front = pieces.drop_last();
        assert forall|k: int| 0 <= k < front.len() implies free_of(#[trigger] front[k], c) by {
            assert(front[k] == pieces[k]);
        }
        lemma_join_free(front, sep, c);
        let j = join(pieces, sep);
        let head = join(front, sep).push(sep);
        assert(free_of(pieces.last(), c));
        assert forall|i: int| 0 <= i < j.len() implies #[trigger] j[i] != c by {
            if i < head.len() {
                if i < join(front, sep).len() {
                    assert(j[i] == join(front, sep)[i]);
                }
            } else {
                assert(j[i] == pieces.last()[i - head.len()]);
            }
        }
    } else if pieces.len() == 1 {
        assert(free_of(pieces[0], c));
    }
}

/// A symbol is written without commas, colons, bars or dashes but for
/// the wildcard's two dashes.
proof fn lemma_symbol_text_free(symbol: Symbol)
    ensures
        free_of(symbol_text(symbol), ','),
        free_of(symbol_text(symbol), ':'),
        free_of(symbol_text(symbol), '|'),
        symbol_text(symbol).len() == 2,
{
    reveal_strlit("--");
    if let Symbol::Token(value) = symbol {
        lemma_hex_pair_round_trip(value);
        let h = hex_pair(value);
        assert(is_radix_digit(h[0], 16) && is_radix_digit(h[1], 16));
    }
}

/// What one written group reads back as.
proof fn lemma_group_round_trip(p: nat, symbols: Seq<Symbol>)
    requires
        symbols.len() >= 1,
        p <= usize::MAX,
    ensures
        first_index_of(group_text(p, symbols), ':') >= 0,
        before_first(group_text(p, symbols), ':') == decimal(p),
        parses_unsigned(before_first(group_text(p, symbols), ':'), usize::MAX as nat),
        group_index(group_text(p, symbols)) == p,
        split_on(after_first(group_text(p, symbols), ':'), ',') == symbols.map_values(
            |symbol: Symbol| symbol_text(symbol),
        ),
        forall|k: int|
            0 <= k < split_on(after_first(group_text(p, symbols), ':'), ',').len() ==> decodes_symbol(
                #[trigger] split_on(after_first(group_text(p, symbols), ':'), ',')[k],
            ),
        group_symbols(group_text(p, symbols)) == symbols.to_set(),
        free_of(group_text(p, symbols), '|'),
        group_text(p, symbols)[0] != '-',
{
    let d = decimal(p);
    let texts = symbols.map_values(|symbol: Symbol| symbol_text(symbol));
    let a = attribute_text(symbols);
    let g = group_text(p, symbols);
    lemma_decimal_round_trip(p, usize::MAX as nat);
    lemma_decimal_parses(p);
    assert forall|i: int| 0 <= i < d.len() implies #[trigger] g[i] != ':' by {
        assert(g[i] == d[i]);
        assert(crate::text::is_digit(d[i]));
    }
    assert(g[d.len() as int] == ':');
    lemma_first_is_first(g, ':', d.len() as int);
    assert(before_first(g, ':') =~= d);
    assert(after_first(g, ':') =~= a);
    assert forall|k: int| 0 <= k < texts.len() implies free_of(#[trigger] texts[k], ',') by {
        lemma_symbol_text_free(symbols[k]);
    }
    lemma_split_join(texts, ',');
    assert forall|k: int| 0 <= k < texts.len() implies decodes_symbol(#[trigger] texts[k]) by {
        lemma_symbol_round_trip(symbols[k]);
    }
    let decoded = texts.map_values(|piece: Seq<char>| decoded_symbol(piece));
    assert(decoded =~= symbols) by {
        assert forall|k: int| 0 <= k < symbols.len() implies #[trigger] decoded[k] == symbols[k] by {
            lemma_symbol_round_trip(symbols[k]);
        }
    }
    assert forall|k: int| 0 <= k < texts.len() implies free_of(#[trigger] texts[k], '|') by {
        lemma_symbol_text_free(symbols[k]);
    }
    lemma_join_free(texts, ',', '|');
    assert forall|i: int| 0 <= i < g.len() implies #[trigger] g[i] != '|' by {
        if i < d.len() {
            assert(g[i] == d[i]);
            assert(crate::text::is_digit(d[i]));
        } else if i > d.len() {
            assert(g[i] == a[i - d.len() - 1]);
        }
    }
    assert(g[0] == d[0]);
    assert(crate::text::is_digit(d[0]));
}

/// The groups of a mark's first `n` positions read back as those
/// positions' symbols.
proof fn lemma_mark_groups<const N: usize>(mark: Mark<N>, n: nat)
    requires
        n <= N,
    ensures
        forall|k: int| 0 <= k < mark_groups(mark, n).len() ==> decodes_group(#[trigger] mark_groups(mark, n)[k], N as nat),
        forall|k: int| 0 <= k < mark_groups(mark, n).len() ==> free_of(#[trigger] mark_groups(mark, n)[k], '|'),
        forall|k: int| 0 <= k < mark_groups(mark, n).len() ==> #[trigger] mark_groups(mark, n)[k][0] != '-',
        forall|p: int|
            0 <= p < N ==> #[trigger] last_group_set(mark_groups(mark, n), p as nat) == if p < n {
                mark.marked(p).to_set()
            } else {
                Set::empty()
            },
        mark_groups(mark, n).len() == 0 <==> forall|p: int| 0 <= p < n ==> #[trigger] mark.marked(p).len() == 0,
    decreases n,
{
    if n > 0 {
        let m = (n - 1) as nat;
        lemma_mark_groups(mark, m);
        let before = mark_groups(mark, m);
        let groups = mark_groups(mark, n);
        if mark.marked(m as int).len() > 0 {
            let g = group_text(m, mark.marked(m as int));
            lemma_group_round_trip(m, mark.marked(m as int));
            assert(groups == before.push(g));
            assert forall|k: int| 0 <= k < groups.len() implies decodes_group(#[trigger] groups[k], N as nat) && free_of(
                groups[k],
                '|',
            ) && groups[k][0] != '-' by {
                if k < before.len() {
                    assert(groups[k] == before[k]);
                }
            }
            assert forall|p: int| 0 <= p < N implies #[trigger] last_group_set(groups, p as nat) == if p < n {
                mark.marked(p).to_set()
            } else {
                Set::empty()
            } by {
                assert(groups.drop_last() == before);
                assert(groups.last() == g);
                assert(group_index(g) == m);
                if p as nat != m {
                    assert(last_group_set(groups, p as nat) == last_group_set(before, p as nat));
                } else {
                    assert(last_group_set(groups, p as nat) == group_symbols(g));
                }
            }
        } else {
            assert(groups =~= before);
            assert forall|p: int| 0 <= p < N implies #[trigger] last_group_set(groups, p as nat) == if p < n {
                mark.marked(p).to_set()
            } else {
                Set::empty()
            } by {
                if p == m {
                    assert(mark.marked(p).to_set() =~= Set::empty());
                }
            }
        }
        if groups.len() == 0 {
            assert(mark.marked(m as int).len() == 0);
        }
    }
}

/// A written mark reads back as the same mark.
pub proof fn lemma_mark_round_trip<const N: usize>(mark: Mark<N>)
    ensures
        decodes_mark(mark_text(mark), N as nat),
        forall|p: int| 0 <= p < N ==> decoded_marked(mark_text(mark), p as nat) == (#[trigger] mark.marked(p)).to_set(),
{
    lemma_mark_groups(mark, N as nat);
    let groups = mark_groups(mark, N as nat);
    if groups.len() == 0 {
        assert forall|p: int| 0 <= p < N implies decoded_marked(mark_text(mark), p as nat) == (
        #[trigger] mark.marked(p)).to_set() by {
            assert(mark.marked(p).len() == 0);
            assert(mark.marked(p).to_set() =~= Set::empty());
        }
    } else {
        lemma_split_join(groups, '|');
        lemma_join_starts_with_first(groups, '|');
        assert(groups[0].len() > 0) by {
            assert(groups[0][0] != '-');
            lemma_group_nonempty(groups[0]);
        }
        assert(mark_text(mark) != seq!['-']) by {
            assert(mark_text(mark)[0] == groups[0][0]);
        }
    }
}

/// A group that reads back is not empty.
proof fn lemma_group_nonempty(group: Seq<char>)
    requires
        first_index_of(group, ':') >= 0 || group.len() > 0,
    ensures
        group.len() > 0,
{
    lemma_first_index_of(group, ':');
}

} // verus!
