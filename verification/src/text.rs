use vstd::prelude::*;

verus! {

/// A digit of the given radix (10 or 16; hexadecimal digits in either
/// case).
pub open spec fn is_radix_digit(c: char, radix: nat) -> bool {
    ||| '0' <= c <= '9'
    ||| radix == 16 && ('a' <= c <= 'f' || 'A' <= c <= 'F')
}

/// A decimal digit.
pub open spec fn is_digit(c: char) -> bool {
    is_radix_digit(c, 10)
}

/// The value of a digit.
pub open spec fn digit_value(c: char) -> nat {
    if '0' <= c <= '9' {
        (c as u32 - '0' as u32) as nat
    } else if 'a' <= c <= 'f' {
        (c as u32 - 'a' as u32 + 10) as nat
    } else {
        (c as u32 - 'A' as u32 + 10) as nat
    }
}

/// The number the digits spell in the radix, most significant first.
pub open spec fn digits_value(s: Seq<char>, radix: nat) -> nat
    decreases s.len(),
{
    if s.len() == 0 {
        0
    } else {
        radix * digits_value(s.drop_last(), radix) + digit_value(s.last())
    }
}

/// The digits of an unsigned number in text: the text without the one
/// `+` it may start with.
pub open spec fn unsigned_digits(s: Seq<char>) -> Seq<char> {
    if s.len() > 0 && s[0] == '+' {
        s.drop_first()
    } else {
        s
    }
}

/// The text is an unsigned number of the radix no greater than `max`, as
/// the standard parsers of unsigned integers read it: an optional `+`,
/// then at least one digit and nothing else.
pub open spec fn parses_radix(s: Seq<char>, radix: nat, max: nat) -> bool {
    let d = unsigned_digits(s);
    &&& d.len() > 0
    &&& forall|i: int| 0 <= i < d.len() ==> #[trigger] is_radix_digit(d[i], radix)
    &&& digits_value(d, radix) <= max
}

/// The number an unsigned text of the radix spells.
pub open spec fn radix_value(s: Seq<char>, radix: nat) -> nat {
    digits_value(unsigned_digits(s), radix)
}

/// The text is an unsigned decimal number no greater than `max`.
pub open spec fn parses_unsigned(s: Seq<char>, max: nat) -> bool {
    parses_radix(s, 10, max)
}

/// The number an unsigned decimal text spells.
pub open spec fn unsigned_value(s: Seq<char>) -> nat {
    radix_value(s, 10)
}

/// The character of digit `d` (lower case beyond 9).
pub open spec fn digit_char(d: nat) -> char {
    if d < 10 {
        ('0' as u32 + d) as char
    } else {
        ('a' as u32 + d - 10) as char
    }
}

/// The decimal digits of `n`, most significant first, without leading
/// zeros (zero is the single digit `0`).
pub open spec fn decimal(n: nat) -> Seq<char>
    decreases n,
{
    if n < 10 {
        seq![digit_char(n)]
    } else {
        decimal(n / 10).push(digit_char(n % 10))
    }
}

/// The two lower-case hexadecimal digits of a byte.
pub open spec fn hex_pair(byte: u8) -> Seq<char> {
    seq![digit_char(byte as nat / 16), digit_char(byte as nat % 16)]
}

/// A digit character is a digit of its value.
proof fn lemma_digit_char(d: nat, radix: nat)
    requires
        d < radix,
        radix == 10 || radix == 16,
    ensures
        is_radix_digit(digit_char(d), radix),
        digit_value(digit_char(d)) == d,
        digit_char(d) != '+',
{
    if d < 10 {
        assert(digit_char(d) as u32 == 48 + d);
    } else {
        assert(digit_char(d) as u32 == 97 + d - 10);
    }
}

/// A longer run of digits never spells less than its start.
proof fn lemma_digits_value_grows(s: Seq<char>, radix: nat, i: int)
    requires
        0 <= i <= s.len(),
        radix > 0,
    ensures
        digits_value(s.take(i), radix) <= digits_value(s, radix),
    decreases s.len() - i,
{
    if i < s.len() {
        lemma_digits_value_grows(s, radix, i + 1);
        assert(s.take(i + 1).drop_last() =~= s.take(i));
        let v = digits_value(s.take(i), radix);
        assert(radix * v >= v) by (nonlinear_arith)
            requires
                radix > 0,
        ;
    } else {
        assert(s.take(i) =~= s);
    }
}

/// The decimal digits of a number spell it back.
pub proof fn lemma_decimal_parses(n: nat)
    ensures
        forall|i: int| 0 <= i < decimal(n).len() ==> #[trigger] is_digit(decimal(n)[i]),
        decimal(n).len() > 0,
        digits_value(decimal(n), 10) == n,
        decimal(n)[0] != '+',
        unsigned_digits(decimal(n)) == decimal(n),
    decreases n,
{
    let d = decimal(n);
    lemma_digit_char(n % 10, 10);
    if n < 10 {
        assert(d.drop_last() =~= Seq::<char>::empty());
        assert(digits_value(d.drop_last(), 10) == 0);
    } else {
        lemma_decimal_parses(n / 10);
        assert(d.drop_last() =~= decimal(n / 10));
        assert(d.last() == digit_char(n % 10));
        assert forall|i: int| 0 <= i < d.len() implies #[trigger] is_digit(d[i]) by {
            if i < d.len() - 1 {
                assert(d[i] == decimal(n / 10)[i]);
            }
        }
    }
}

/// The rendering of a number reads back as that number.
pub proof fn lemma_decimal_round_trip(n: nat, max: nat)
    requires
        n <= max,
    ensures
        parses_unsigned(decimal(n), max),
        unsigned_value(decimal(n)) == n,
{
    lemma_decimal_parses(n);
    let d = decimal(n);
    assert forall|i: int| 0 <= i < d.len() implies #[trigger] is_radix_digit(d[i], 10) by {
        assert(is_digit(d[i]));
    }
}

/// The two hexadecimal digits of a byte read back as the byte.
pub proof fn lemma_hex_pair_round_trip(byte: u8)
    ensures
        parses_radix(hex_pair(byte), 16, 255),
        radix_value(hex_pair(byte), 16) == byte,
        hex_pair(byte).len() == 2,
{
    let h = hex_pair(byte);
    lemma_digit_char(byte as nat / 16, 16);
    lemma_digit_char(byte as nat % 16, 16);
    assert(unsigned_digits(h) == h);
    assert(h.drop_last() =~= seq![digit_char(byte as nat / 16)]);
    assert(seq![digit_char(byte as nat / 16)].drop_last() =~= Seq::<char>::empty());
    assert(digits_value(Seq::<char>::empty(), 16) == 0);
    assert(digits_value(seq![digit_char(byte as nat / 16)], 16) == byte as nat / 16);
    assert forall|i: int| 0 <= i < h.len() implies #[trigger] is_radix_digit(h[i], 16) by {}
}

/// An ASCII character and its byte have the same number.
proof fn lemma_ascii_byte(c: char, byte: u8)
    requires
        '\0' <= c <= '\u{7f}',
        c as u8 == byte,
    ensures
        c as u32 == byte as u32,
{
}

/// The two texts hold the same characters.
pub fn same_text(a: &str, b: &str) -> (result: bool)
    ensures
        result == (a@ == b@),
{
    let x = a.as_bytes();
    let y = b.as_bytes();
    proof {
        vstd::utf8::encode_utf8_decode_utf8(a@);
        vstd::utf8::encode_utf8_decode_utf8(b@);
        assert(x@ == vstd::utf8::encode_utf8(a@));
        assert(y@ == vstd::utf8::encode_utf8(b@));
    }
    if x.len() != y.len() {
        return false;
    }
    let mut index: usize = 0;
    while index < x.len()
        invariant
            x@ == vstd::utf8::encode_utf8(a@),
            y@ == vstd::utf8::encode_utf8(b@),
            x@.len() == y@.len(),
            index <= x@.len(),
            forall|i: int| 0 <= i < index ==> #[trigger] x@[i] == y@[i],
        decreases x@.len() - index,
    {
        if x[index] != y[index] {
            return false;
        }
        index += 1;
    }
    proof {
        assert(x@ =~= y@);
        assert(vstd::utf8::decode_utf8(x@) == a@);
        assert(vstd::utf8::decode_utf8(y@) == b@);
    }
    true
}

/// The value of the digit byte `byte` in the radix, if it is one.
fn digit_of_byte(byte: u8, radix: u32) -> (result: Option<u32>)
    requires
        radix == 10 || radix == 16,
    ensures
        result is Some <==> is_radix_digit(byte as char, radix as nat),
        result matches Some(d) ==> d == digit_value(byte as char) && d < radix,
{
    if 48 <= byte && byte <= 57 {
        Some((byte - 48) as u32)
    } else if radix == 16 && 97 <= byte && byte <= 102 {
        Some((byte - 87) as u32)
    } else if radix == 16 && 65 <= byte && byte <= 70 {
        Some((byte - 55) as u32)
    } else {
        None
    }
}

/// The number an unsigned text of the radix spells, when it is one and
/// does not exceed `max`; `None` otherwise.
pub fn parse_radix(text: &str, radix: u32, max: u128) -> (result: Option<u128>)
    requires
        radix == 10 || radix == 16,
    ensures
        result is Some <==> parses_radix(text@, radix as nat, max as nat),
        result matches Some(value) ==> value == radix_value(text@, radix as nat),
{
    let ghost r = radix as nat;
    if !text.is_ascii() {
        proof {
            if parses_radix(text@, r, max as nat) {
                let d = unsigned_digits(text@);
                assert forall|i: int| 0 <= i < text@.len() implies '\0' <= #[trigger] text@[i] <= '\u{7f}' by {
                    if text@.len() > 0 && text@[0] == '+' {
                        if i > 0 {
                            assert(is_radix_digit(d[i - 1], r));
                        }
                    } else {
                        assert(is_radix_digit(d[i], r));
                    }
                }
            }
        }
        return None;
    }
    let bytes = text.as_bytes();
    proof {
        vstd::string::is_ascii_spec_bytes(text);
        vstd::utf8::is_ascii_chars_encode_utf8(text@);
    }
    let length = bytes.len();
    let start: usize = if length > 0 && bytes[0] == 43 {
        1
    } else {
        0
    };
    let ghost d = unsigned_digits(text@);
    proof {
        if start == 1 {
            assert(text@[0] as u8 == 43u8);
            lemma_ascii_byte(text@[0], 43);
            assert(text@[0] == '+');
        } else if length > 0 {
            lemma_ascii_byte(text@[0], bytes@[0]);
        }
        assert(d =~= text@.skip(start as int));
    }
    if start == length {
        return None;
    }
    let mut value: u128 = 0;
    let mut index: usize = start;
    let mut overflowed = false;
    while index < length
        invariant
            radix == 10 || radix == 16,
            r == radix as nat,
            start <= index <= length,
            start < length,
            length == bytes@.len(),
            length == text@.len(),
            bytes@ =~= Seq::new(text@.len(), |i: int| text@[i] as u8),
            d =~= text@.skip(start as int),
            d == unsigned_digits(text@),
            forall|i: int| 0 <= i < text@.len() ==> '\0' <= #[trigger] text@[i] <= '\u{7f}',
            forall|i: int| start <= i < index ==> #[trigger] is_radix_digit(text@[i], r),
            !overflowed ==> value == digits_value(d.take(index - start), r) && value <= max,
            overflowed ==> digits_value(d.take(index - start), r) > max,
        decreases length - index,
    {
        let byte = bytes[index];
        proof {
            lemma_ascii_byte(text@[index as int], byte);
            assert(text@[index as int] == byte as char);
            assert(d[index - start] == text@[index as int]);
            assert(d.take(index - start + 1).drop_last() =~= d.take(index - start));
            assert(d.take(index - start + 1).last() == text@[index as int]);
        }
        match digit_of_byte(byte, radix) {
            None => {
                proof {
                    assert(!is_radix_digit(d[index - start], r));
                }
                return None;
            },
            Some(digit) => {
                if !overflowed {
                    if digit as u128 > max || value > (max - digit as u128) / radix as u128 {
                        overflowed = true;
                        proof {
                            let m = max as int;
                            let g = digit as int;
                            let v = value as int;
                            let q = r as int;
                            assert(q * v + g > m) by (nonlinear_arith)
                                requires
                                    g > m || (m >= g && v > (m - g) / q),
                                    q > 0,
                                    v >= 0,
                                    g >= 0,
                            ;
                        }
                    } else {
                        proof {
                            let m = max as int;
                            let g = digit as int;
                            let v = value as int;
                            let q = r as int;
                            assert(v * q + g <= m && v * q == q * v) by (nonlinear_arith)
                                requires
                                    v <= (m - g) / q,
                                    g <= m,
                                    q > 0,
                            ;
                        }
                        value = value * radix as u128 + digit as u128;
                    }
                } else {
                    proof {
                        let before = digits_value(d.take(index - start), r);
                        assert(r * before + digit > max) by (nonlinear_arith)
                            requires
                                before > max,
                                r > 0,
                        ;
                    }
                }
            },
        }
        index += 1;
    }
    proof {
        assert(d.take(d.len() as int) =~= d);
        assert forall|j: int| 0 <= j < d.len() implies #[trigger] is_radix_digit(d[j], r) by {
            assert(d[j] == text@[j + start]);
        }
    }
    if overflowed {
        None
    } else {
        Some(value)
    }
}

/// The number an unsigned decimal text spells, when it is one and does
/// not exceed `max`; `None` otherwise.
pub fn parse_unsigned(text: &str, max: u64) -> (result: Option<u64>)
    ensures
        result is Some <==> parses_unsigned(text@, max as nat),
        result matches Some(value) ==> value == unsigned_value(text@),
{
    match parse_radix(text, 10, max as u128) {
        Some(value) => Some(value as u64),
        None => None,
    }
}

/// The text of digit `digit` (lower case beyond 9).
fn digit_text(digit: u128) -> (result: &'static str)
    requires
        digit < 16,
    ensures
        result@ == seq![digit_char(digit as nat)],
{
    proof {
        reveal_strlit("0");
        reveal_strlit("1");
        reveal_strlit("2");
        reveal_strlit("3");
        reveal_strlit("4");
        reveal_strlit("5");
        reveal_strlit("6");
        reveal_strlit("7");
        reveal_strlit("8");
        reveal_strlit("9");
        reveal_strlit("a");
        reveal_strlit("b");
        reveal_strlit("c");
        reveal_strlit("d");
        reveal_strlit("e");
        reveal_strlit("f");
    }
    match digit {
        0 => "0",
        1 => "1",
        2 => "2",
        3 => "3",
        4 => "4",
        5 => "5",
        6 => "6",
        7 => "7",
        8 => "8",
        9 => "9",
        10 => "a",
        11 => "b",
        12 => "c",
        13 => "d",
        14 => "e",
        _ => "f",
    }
}

/// Appends the decimal digits of `value`.
pub fn append_decimal(text: &mut String, value: u128)
    ensures
        final(text)@ == old(text)@ + decimal(value as nat),
    decreases value,
{
    if value >= 10 {
        append_decimal(text, value / 10);
    }
    text.append(digit_text(value % 10));
    proof {
        if value >= 10 {
            assert(old(text)@ + decimal(value as nat) =~= old(text)@ + decimal((value / 10) as nat) + seq![
                digit_char((value % 10) as nat),
            ]);
        } else {
            assert(value % 10 == value);
        }
    }
}

/// Appends the two lower-case hexadecimal digits of `byte`.
pub fn append_hex_byte(text: &mut String, byte: u8)
    ensures
        final(text)@ == old(text)@ + hex_pair(byte),
{
    text.append(digit_text(byte as u128 / 16));
    text.append(digit_text(byte as u128 % 16));
    proof {
        assert(old(text)@ + hex_pair(byte) =~= old(text)@ + seq![digit_char(byte as nat / 16)] + seq![
            digit_char(byte as nat % 16),
        ]);
    }
}


/// Sixteen to the power `count`.
pub open spec fn pow16(count: nat) -> nat
    decreases count,
{
    if count == 0 {
        1
    } else {
        16 * pow16((count - 1) as nat)
    }
}

/// The last `count` hexadecimal digits of `n`, lower case, most
/// significant first, padded with zeros.
pub open spec fn hex_digits(n: nat, count: nat) -> Seq<char>
    decreases count,
{
    if count == 0 {
        Seq::empty()
    } else {
        hex_digits(n / 16, (count - 1) as nat).push(digit_char(n % 16))
    }
}

/// The digits spell `n` up to its multiples of `16^count`.
proof fn lemma_hex_digits_value(n: nat, count: nat)
    ensures
        hex_digits(n, count).len() == count,
        forall|i: int| 0 <= i < count ==> #[trigger] is_radix_digit(hex_digits(n, count)[i], 16),
        digits_value(hex_digits(n, count), 16) + pow16(count) * (n / pow16(count)) == n,
        pow16(count) > 0,
    decreases count,
{
    if count == 0 {
        assert(n / 1 == n);
        assert(digits_value(hex_digits(n, count), 16) == 0);
        assert(pow16(count) == 1);
        assert(1 * (n / 1) == n);
    } else {
        let c1 = (count - 1) as nat;
        let m = n / 16;
        lemma_hex_digits_value(m, c1);
        lemma_digit_char(n % 16, 16);
        let s = hex_digits(n, count);
        assert(s.drop_last() =~= hex_digits(m, c1));
        let d = digits_value(hex_digits(m, c1), 16);
        let p = pow16(c1);
        let q = m / p;
        assert(q == n / pow16(count)) by {
            vstd::arithmetic::div_mod::lemma_div_denominator(n as int, 16, p as int);
        }
        assert(16 * d + n % 16 + (16 * p) * q == n) by (nonlinear_arith)
            requires
                d + p * q == m,
                m == n / 16,
        ;
        assert(digits_value(s, 16) == 16 * d + n % 16);
        assert(pow16(count) == 16 * p);
        assert(digits_value(s, 16) + pow16(count) * (n / pow16(count)) == n);
        assert forall|i: int| 0 <= i < count implies #[trigger] is_radix_digit(s[i], 16) by {
            if i < c1 {
                assert(s[i] == hex_digits(m, c1)[i]);
            }
        }
    }
}

/// Sixteen hexadecimal digits hold every 64-bit value.
proof fn lemma_pow16_sixteen()
    ensures
        pow16(16) == 0x1_0000_0000_0000_0000,
{
    reveal_with_fuel(pow16, 17);
}

/// The sixteen digits of a 64-bit value read back as the value.
pub proof fn lemma_hex_digits_round_trip(n: u64)
    ensures
        hex_digits(n as nat, 16).len() == 16,
        parses_radix(hex_digits(n as nat, 16), 16, u64::MAX as nat),
        radix_value(hex_digits(n as nat, 16), 16) == n,
        forall|i: int| 0 <= i < 16 ==> #[trigger] is_radix_digit(hex_digits(n as nat, 16)[i], 16),
{
    lemma_hex_digits_value(n as nat, 16);
    lemma_pow16_sixteen();
    let h = hex_digits(n as nat, 16);
    assert((n as nat) / pow16(16) == 0);
    assert(h[0] != '+') by {
        assert(is_radix_digit(h[0], 16));
    }
    assert(unsigned_digits(h) == h);
}

/// Appends the last `count` hexadecimal digits of `value`.
pub fn append_hex_digits(text: &mut String, value: u64, count: u32)
    ensures
        final(text)@ == old(text)@ + hex_digits(value as nat, count as nat),
    decreases count,
{
    if count > 0 {
        append_hex_digits(text, value / 16, count - 1);
        text.append(digit_text((value % 16) as u128));
        proof {
            assert(old(text)@ + hex_digits(value as nat, count as nat) =~= old(text)@ + hex_digits(
                (value / 16) as nat,
                (count - 1) as nat,
            ) + seq![digit_char((value % 16) as nat)]);
        }
    } else {
        proof {
            assert(old(text)@ + hex_digits(value as nat, 0) =~= old(text)@);
        }
    }
}


/// A character of the Unicode `White_Space` property, the whitespace that
/// `str::trim` removes.
pub open spec fn is_white_space(c: char) -> bool {
    let code = c as u32;
    ||| 0x09 <= code <= 0x0d
    ||| code == 0x20
    ||| code == 0x85
    ||| code == 0xa0
    ||| code == 0x1680
    ||| 0x2000 <= code <= 0x200a
    ||| code == 0x2028
    ||| code == 0x2029
    ||| code == 0x202f
    ||| code == 0x205f
    ||| code == 0x3000
}

/// The text without its leading whitespace.
pub open spec fn trim_start(s: Seq<char>) -> Seq<char>
    decreases s.len(),
{
    if s.len() > 0 && is_white_space(s[0]) {
        trim_start(s.drop_first())
    } else {
        s
    }
}

/// The text without its trailing whitespace.
pub open spec fn trim_end(s: Seq<char>) -> Seq<char>
    decreases s.len(),
{
    if s.len() > 0 && is_white_space(s.last()) {
        trim_end(s.drop_last())
    } else {
        s
    }
}

/// The text without its leading and trailing whitespace.
pub open spec fn trimmed(s: Seq<char>) -> Seq<char> {
    trim_end(trim_start(s))
}

pub fn white_space(c: char) -> (result: bool)
    ensures
        result == is_white_space(c),
{
    let code = c as u32;
    (0x09 <= code && code <= 0x0d) || code == 0x20 || code == 0x85 || code == 0xa0 || code == 0x1680 || (0x2000
        <= code && code <= 0x200a) || code == 0x2028 || code == 0x2029 || code == 0x202f || code == 0x205f || code
        == 0x3000
}

/// Skipping whitespace at the front: dropping a leading run of it leaves
/// the same text to trim.
proof fn lemma_trim_start_skips(s: Seq<char>, k: int)
    requires
        0 <= k <= s.len(),
        forall|i: int| 0 <= i < k ==> is_white_space(#[trigger] s[i]),
    ensures
        trim_start(s) == trim_start(s.subrange(k, s.len() as int)),
    decreases k,
{
    if k > 0 {
        assert(s.drop_first().subrange(k - 1, s.drop_first().len() as int) =~= s.subrange(k, s.len() as int));
        assert forall|i: int| 0 <= i < k - 1 implies is_white_space(#[trigger] s.drop_first()[i]) by {
            assert(s.drop_first()[i] == s[i + 1]);
        }
        lemma_trim_start_skips(s.drop_first(), k - 1);
    } else {
        assert(s.subrange(0, s.len() as int) =~= s);
    }
}

/// Skipping whitespace at the back: dropping a trailing run of it leaves
/// the same text to trim.
proof fn lemma_trim_end_skips(s: Seq<char>, k: int)
    requires
        0 <= k <= s.len(),
        forall|i: int| k <= i < s.len() ==> is_white_space(#[trigger] s[i]),
    ensures
        trim_end(s) == trim_end(s.subrange(0, k)),
    decreases s.len() - k,
{
    if k < s.len() {
        assert(s.drop_last().subrange(0, k) =~= s.subrange(0, k));
        assert forall|i: int| k <= i < s.drop_last().len() implies is_white_space(#[trigger] s.drop_last()[i]) by {
            assert(s.drop_last()[i] == s[i]);
        }
        lemma_trim_end_skips(s.drop_last(), k);
    } else {
        assert(s.subrange(0, k) =~= s);
    }
}

/// The text without its leading and trailing whitespace, as `str::trim`
/// gives it.
pub fn trim(text: &str) -> (result: &str)
    ensures
        result@ == trimmed(text@),
{
    let length = text.unicode_len();
    let mut start: usize = 0;
    while start < length && white_space(text.get_char(start))
        invariant
            length == text@.len(),
            start <= length,
            forall|i: int| 0 <= i < start ==> is_white_space(#[trigger] text@[i]),
        decreases length - start,
    {
        start += 1;
    }
    proof {
        lemma_trim_start_skips(text@, start as int);
        assert(trim_start(text@.subrange(start as int, length as int)) == text@.subrange(start as int, length as int));
    }
    let mut end: usize = length;
    while end > start && white_space(text.get_char(end - 1))
        invariant
            length == text@.len(),
            start <= end <= length,
            forall|i: int| end <= i < length ==> is_white_space(#[trigger] text@[i]),
        decreases end - start,
    {
        end -= 1;
    }
    proof {
        let rest = text@.subrange(start as int, length as int);
        assert forall|i: int| end - start <= i < rest.len() implies is_white_space(#[trigger] rest[i]) by {
            assert(rest[i] == text@[i + start]);
        }
        lemma_trim_end_skips(rest, end - start);
        assert(rest.subrange(0, end - start) =~= text@.subrange(start as int, end as int));
        let kept = text@.subrange(start as int, end as int);
        if kept.len() > 0 {
            assert(kept.last() == text@[end - 1]);
        }
    }
    text.substring_char(start, end)
}

} // verus!
