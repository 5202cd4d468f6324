//! The JSON grammar of RFC 8259, and that every row follows it.

use crate::event::EventView;
use crate::sink::clickhouse::json;
use crate::sink::clickhouse::json::MetadataView;
use crate::text;
use vstd::prelude::*;
use vstd::utf8::*;

verus! {

/// Insignificant whitespace.
pub open spec fn whitespace(bytes: Seq<u8>) -> bool {
    forall|i: int|
        0 <= i < bytes.len() ==> #[trigger] bytes[i] == 0x20 || bytes[i] == 0x09 || bytes[i] == 0x0A
            || bytes[i] == 0x0D
}

/// The value of a hexadecimal digit.
pub open spec fn hex_value(c: char) -> Option<nat> {
    if '0' <= c <= '9' {
        Some((c as nat - 0x30) as nat)
    } else if 'a' <= c <= 'f' {
        Some((c as nat - 0x57) as nat)
    } else if 'A' <= c <= 'F' {
        Some((c as nat - 0x37) as nat)
    } else {
        None
    }
}

/// The character that a backslash and `c` stand for.
pub open spec fn simple_escape(c: char) -> Option<char> {
    if c == '"' || c == '\\' || c == '/' {
        Some(c)
    } else if c == 'b' {
        Some(0x08u8 as char)
    } else if c == 'f' {
        Some(0x0Cu8 as char)
    } else if c == 'n' {
        Some('\n')
    } else if c == 'r' {
        Some('\r')
    } else if c == 't' {
        Some('\t')
    } else {
        None
    }
}

/// What may stand between the quotes of a string.
pub open spec fn valid_string_body(chars: Seq<char>) -> bool
    decreases chars.len(),
{
    if chars.len() == 0 {
        true
    } else if chars[0] == '"' || (chars[0] as u32) < 0x20 {
        false
    } else if chars[0] == '\\' {
        if chars.len() >= 2 && simple_escape(chars[1]) is Some {
            valid_string_body(chars.skip(2))
        } else {
            &&& chars.len() >= 6
            &&& chars[1] == 'u'
            &&& hex_value(chars[2]) is Some
            &&& hex_value(chars[3]) is Some
            &&& hex_value(chars[4]) is Some
            &&& hex_value(chars[5]) is Some
            &&& valid_string_body(chars.skip(6))
        }
    } else {
        valid_string_body(chars.skip(1))
    }
}

/// The text that the inside of a string denotes. Escaped surrogates are not
/// read.
pub open spec fn read_string_body(chars: Seq<char>) -> Option<Seq<char>>
    decreases chars.len(),
{
    if chars.len() == 0 {
        Some(Seq::empty())
    } else if chars[0] == '"' || (chars[0] as u32) < 0x20 {
        None
    } else if chars[0] == '\\' {
        if chars.len() >= 2 && simple_escape(chars[1]) is Some {
            match read_string_body(chars.skip(2)) {
                Some(rest) => Some(seq![simple_escape(chars[1]).unwrap()] + rest),
                None => None,
            }
        } else if chars.len() >= 6 && chars[1] == 'u' && hex_value(chars[2]) is Some && hex_value(
            chars[3],
        ) is Some && hex_value(chars[4]) is Some && hex_value(chars[5]) is Some {
            let scalar = hex_value(chars[2]).unwrap() * 4096 + hex_value(chars[3]).unwrap() * 256
                + hex_value(chars[4]).unwrap() * 16 + hex_value(chars[5]).unwrap();
            match read_string_body(chars.skip(6)) {
                Some(rest) => if 0xD800 <= scalar <= 0xDFFF {
                    None
                } else {
                    Some(seq![scalar as char] + rest)
                },
                None => None,
            }
        } else {
            None
        }
    } else {
        match read_string_body(chars.skip(1)) {
            Some(rest) => Some(seq![chars[0]] + rest),
            None => None,
        }
    }
}

proof fn lemma_escaped_front(text: Seq<char>)
    requires
        text.len() > 0,
    ensures
        json::escaped(text) == json::escaped_char(text[0]) + json::escaped(text.skip(1)),
    decreases text.len(),
{
    if text.len() == 1 {
        assert(text.drop_last() =~= Seq::<char>::empty());
        assert(text.skip(1) =~= Seq::<char>::empty());
        assert(json::escaped(text.drop_last()) =~= Seq::<char>::empty());
        assert(json::escaped(text) =~= json::escaped_char(text[0]) + json::escaped(text.skip(1)));
    } else {
        lemma_escaped_front(text.drop_last());
        assert(text.skip(1).drop_last() =~= text.drop_last().skip(1));
        assert(json::escaped(text) =~= json::escaped_char(text[0]) + json::escaped(text.skip(1)));
    }
}

proof fn lemma_control_character(c: char)
    requires
        (c as u32) < 0x20,
    ensures
        c as nat / 16 < 2,
        hex_value(json::hex_digit(c as nat / 16)) == Some(c as nat / 16),
        hex_value(json::hex_digit(c as nat % 16)) == Some(c as nat % 16),
        (c as nat / 16) * 16 + c as nat % 16 == c as nat,
        (c as nat) as char == c,
{
}

/// A text written as a JSON string is a valid string, and reads back as the
/// same text, whatever characters it holds.
pub proof fn a_json_string_reads_back_as_the_text(text: Seq<char>)
    ensures
        valid_string_body(json::escaped(text)),
        read_string_body(json::escaped(text)) == Some(text),
    decreases text.len(),
{
    if text.len() == 0 {
        assert(json::escaped(text) =~= Seq::<char>::empty());
        assert(text =~= Seq::<char>::empty());
    } else {
        let c = text[0];
        let rest = json::escaped(text.skip(1));
        let all = json::escaped(text);
        a_json_string_reads_back_as_the_text(text.skip(1));
        lemma_escaped_front(text);
        assert(seq![c] + text.skip(1) =~= text);
        if c == '"' || c == '\\' || c == '\n' || c == '\r' || c == '\t' {
            assert(all.skip(2) =~= rest);
            assert(simple_escape(all[1]) == Some(c));
        } else if (c as u32) < 0x20 {
            assert(all.skip(6) =~= rest);
            lemma_control_character(c);
            assert(hex_value('0') == Some(0nat));
            assert(all[0] == '\\' && all[1] == 'u' && all[2] == '0' && all[3] == '0');
            assert(simple_escape('u') is None);
        } else {
            assert(all.skip(1) =~= rest);
            assert(all[0] == c);
        }
    }
}

/// A string.
pub open spec fn is_string(bytes: Seq<u8>) -> bool {
    exists|chars: Seq<char>| #[trigger]
        valid_string_body(chars) && bytes == encode_utf8(seq!['"'] + chars + seq!['"'])
}

/// One digit or more.
pub open spec fn is_digits(bytes: Seq<u8>) -> bool {
    &&& bytes.len() > 0
    &&& forall|i: int| 0 <= i < bytes.len() ==> 0x30 <= #[trigger] bytes[i] <= 0x39
}

/// The integer part of a number has no leading zeros.
pub open spec fn is_integer_part(bytes: Seq<u8>) -> bool {
    is_digits(bytes) && (bytes.len() == 1 || bytes[0] != 0x30)
}

/// A fraction, or nothing.
pub open spec fn is_fraction(bytes: Seq<u8>) -> bool {
    bytes.len() == 0 || (bytes[0] == 0x2E && is_digits(bytes.skip(1)))
}

/// An exponent, or nothing.
pub open spec fn is_exponent(bytes: Seq<u8>) -> bool {
    bytes.len() == 0 || ((bytes[0] == 0x65 || bytes[0] == 0x45) && (is_digits(bytes.skip(1)) || (
    bytes.len() > 2 && (bytes[1] == 0x2B || bytes[1] == 0x2D) && is_digits(bytes.skip(2)))))
}

/// A sign, or nothing.
pub open spec fn is_sign(bytes: Seq<u8>) -> bool {
    bytes.len() == 0 || bytes == seq![0x2Du8]
}

/// A number.
pub open spec fn is_number(bytes: Seq<u8>) -> bool {
    exists|sign: Seq<u8>, whole: Seq<u8>, fraction: Seq<u8>, exponent: Seq<u8>|
        {
            &&& #[trigger] is_sign(sign)
            &&& #[trigger] is_integer_part(whole)
            &&& #[trigger] is_fraction(fraction)
            &&& #[trigger] is_exponent(exponent)
            &&& bytes == sign + whole + fraction + exponent
        }
}

/// `true`, `false` or `null`.
pub open spec fn is_literal(bytes: Seq<u8>) -> bool {
    ||| bytes == seq![0x74u8, 0x72u8, 0x75u8, 0x65u8]
    ||| bytes == seq![0x66u8, 0x61u8, 0x6Cu8, 0x73u8, 0x65u8]
    ||| bytes == seq![0x6Eu8, 0x75u8, 0x6Cu8, 0x6Cu8]
}

/// A value between whitespace; `is_inner` says what a value is.
pub open spec fn is_element(bytes: Seq<u8>, is_inner: spec_fn(Seq<u8>) -> bool) -> bool {
    exists|before: Seq<u8>, value: Seq<u8>, after: Seq<u8>|
        {
            &&& #[trigger] whitespace(before)
            &&& #[trigger] is_inner(value)
            &&& #[trigger] whitespace(after)
            &&& bytes == before + value + after
        }
}

/// A member of an object.
pub open spec fn is_member(bytes: Seq<u8>, is_inner: spec_fn(Seq<u8>) -> bool) -> bool {
    exists|before: Seq<u8>, name: Seq<u8>, after: Seq<u8>, element: Seq<u8>|
        {
            &&& #[trigger] whitespace(before)
            &&& #[trigger] is_string(name)
            &&& #[trigger] whitespace(after)
            &&& #[trigger] is_element(element, is_inner)
            &&& bytes == before + name + after + seq![0x3Au8] + element
        }
}

/// The parts are members.
pub open spec fn are_members(parts: Seq<Seq<u8>>, is_inner: spec_fn(Seq<u8>) -> bool) -> bool {
    forall|i: int| 0 <= i < parts.len() ==> is_member(#[trigger] parts[i], is_inner)
}

/// The parts are elements.
pub open spec fn are_elements(parts: Seq<Seq<u8>>, is_inner: spec_fn(Seq<u8>) -> bool) -> bool {
    forall|i: int| 0 <= i < parts.len() ==> is_element(#[trigger] parts[i], is_inner)
}

/// Members between braces, separated by commas.
pub open spec fn is_object_of(bytes: Seq<u8>, is_inner: spec_fn(Seq<u8>) -> bool) -> bool {
    ||| exists|inner: Seq<u8>| #[trigger]
        whitespace(inner) && bytes == seq![0x7Bu8] + inner + seq![0x7Du8]
    ||| exists|parts: Seq<Seq<u8>>| #[trigger]
        are_members(parts, is_inner) && parts.len() > 0 && bytes == seq![0x7Bu8] + json::joined(
            parts,
        ) + seq![0x7Du8]
}

/// Elements between brackets, separated by commas.
pub open spec fn is_array_of(bytes: Seq<u8>, is_inner: spec_fn(Seq<u8>) -> bool) -> bool {
    ||| exists|inner: Seq<u8>| #[trigger]
        whitespace(inner) && bytes == seq![0x5Bu8] + inner + seq![0x5Du8]
    ||| exists|parts: Seq<Seq<u8>>| #[trigger]
        are_elements(parts, is_inner) && parts.len() > 0 && bytes == seq![0x5Bu8] + json::joined(
            parts,
        ) + seq![0x5Du8]
}

/// A value that nests objects and arrays at most `depth` deep.
pub open spec fn is_value(bytes: Seq<u8>, depth: nat) -> bool
    decreases depth,
{
    ||| is_string(bytes)
    ||| is_number(bytes)
    ||| is_literal(bytes)
    ||| depth > 0 && is_object_of(bytes, |inner: Seq<u8>| is_value(inner, (depth - 1) as nat))
    ||| depth > 0 && is_array_of(bytes, |inner: Seq<u8>| is_value(inner, (depth - 1) as nat))
}

/// The values that nest objects and arrays at most `depth` deep.
pub open spec fn values(depth: nat) -> spec_fn(Seq<u8>) -> bool {
    |bytes: Seq<u8>| is_value(bytes, depth)
}

/// An object whose values nest at most `depth` deep.
pub open spec fn is_object(bytes: Seq<u8>, depth: nat) -> bool {
    is_object_of(bytes, values(depth))
}

proof fn lemma_encode_ascii(c: char)
    requires
        (c as u32) <= 0x7F,
    ensures
        encode_utf8(seq![c]) == seq![c as u8],
{
    text::lemma_encode_one(c);
    let scalar = c as u32;
    assert((scalar & 0x7F) as u8 == scalar as u8) by (bit_vector)
        requires
            scalar <= 0x7F,
    ;
    assert(encode_scalar(scalar) =~= seq![c as u8]);
}

/// A string starts and ends with a quote.
proof fn lemma_string_ends(bytes: Seq<u8>)
    requires
        is_string(bytes),
    ensures
        bytes.len() >= 2,
        bytes.first() == 0x22,
        bytes.last() == 0x22,
{
    let chars = choose|chars: Seq<char>| #[trigger]
        valid_string_body(chars) && bytes == encode_utf8(seq!['"'] + chars + seq!['"']);
    lemma_encode_ascii('"');
    text::lemma_encode_concat(seq!['"'] + chars, seq!['"']);
    text::lemma_encode_concat(seq!['"'], chars);
    let quote = seq![0x22u8];
    assert(bytes == quote + encode_utf8(chars) + quote);
}

/// A value neither starts nor ends with whitespace.
proof fn lemma_value_ends(bytes: Seq<u8>, depth: nat)
    requires
        is_value(bytes, depth),
    ensures
        bytes.len() > 0,
        !json::is_space(bytes.first()),
        !json::is_space(bytes.last()),
{
    if is_string(bytes) {
        lemma_string_ends(bytes);
    } else if is_number(bytes) {
        let (sign, whole, fraction, exponent) = choose|
            sign: Seq<u8>,
            whole: Seq<u8>,
            fraction: Seq<u8>,
            exponent: Seq<u8>,
        |
            {
                &&& #[trigger] is_sign(sign)
                &&& #[trigger] is_integer_part(whole)
                &&& #[trigger] is_fraction(fraction)
                &&& #[trigger] is_exponent(exponent)
                &&& bytes == sign + whole + fraction + exponent
            };
        assert(0x30 <= whole[0] <= 0x39);
        assert(0x30 <= whole[whole.len() - 1] <= 0x39);
        if sign.len() == 0 {
            assert(bytes.first() == whole[0]);
        } else {
            assert(bytes.first() == 0x2D);
        }
        if exponent.len() > 0 {
            let n = exponent.len() - 1;
            assert(bytes.last() == exponent[n]);
            if is_digits(exponent.skip(1)) {
                assert(exponent.skip(1)[n - 1] == exponent[n]);
            } else {
                assert(exponent.skip(2)[n - 2] == exponent[n]);
            }
        } else if fraction.len() > 0 {
            let n = fraction.len() - 1;
            assert(bytes.last() == fraction[n]);
            assert(fraction.skip(1)[n - 1] == fraction[n]);
        } else {
            assert(bytes.last() == whole[whole.len() - 1]);
        }
    } else if is_literal(bytes) {
    } else {
        assert(bytes.len() > 0 && (bytes.first() == 0x7B && bytes.last() == 0x7D || bytes.first()
            == 0x5B && bytes.last() == 0x5D));
    }
}

/// The whitespace in front of a member can be left out.
proof fn lemma_member_front(bytes: Seq<u8>, depth: nat) -> (split: (Seq<u8>, Seq<u8>))
    requires
        is_member(bytes, values(depth)),
    ensures
        bytes == split.0 + split.1,
        whitespace(split.0),
        is_member(split.1, values(depth)),
        split.1.len() > 0,
        !json::is_space(split.1.first()),
{
    let (before, name, after, element) = choose|
        before: Seq<u8>,
        name: Seq<u8>,
        after: Seq<u8>,
        element: Seq<u8>,
    |
        {
            &&& #[trigger] whitespace(before)
            &&& #[trigger] is_string(name)
            &&& #[trigger] whitespace(after)
            &&& #[trigger] is_element(element, values(depth))
            &&& bytes == before + name + after + seq![0x3Au8] + element
        };
    lemma_string_ends(name);
    let none = Seq::<u8>::empty();
    let rest = name + after + seq![0x3Au8] + element;
    assert(bytes =~= before + rest);
    assert(whitespace(none));
    assert(rest =~= none + name + after + seq![0x3Au8] + element);
    assert(is_member(rest, values(depth)));
    assert(rest.first() == name.first());
    (before, rest)
}

/// The whitespace behind a member can be left out.
proof fn lemma_member_back(bytes: Seq<u8>, depth: nat) -> (split: (Seq<u8>, Seq<u8>))
    requires
        is_member(bytes, values(depth)),
    ensures
        bytes == split.0 + split.1,
        whitespace(split.1),
        is_member(split.0, values(depth)),
        split.0.len() > 0,
        !json::is_space(split.0.last()),
{
    let (before, name, after, element) = choose|
        before: Seq<u8>,
        name: Seq<u8>,
        after: Seq<u8>,
        element: Seq<u8>,
    |
        {
            &&& #[trigger] whitespace(before)
            &&& #[trigger] is_string(name)
            &&& #[trigger] whitespace(after)
            &&& #[trigger] is_element(element, values(depth))
            &&& bytes == before + name + after + seq![0x3Au8] + element
        };
    let (space, value, tail) = choose|space: Seq<u8>, value: Seq<u8>, tail: Seq<u8>|
        {
            &&& #[trigger] whitespace(space)
            &&& #[trigger] values(depth)(value)
            &&& #[trigger] whitespace(tail)
            &&& element == space + value + tail
        };
    lemma_value_ends(value, depth);
    let none = Seq::<u8>::empty();
    assert(whitespace(none));
    let bare = space + value + none;
    assert(is_element(bare, values(depth)));
    let rest = before + name + after + seq![0x3Au8] + bare;
    assert(is_member(rest, values(depth)));
    assert(bytes =~= rest + tail);
    assert(rest.last() == value.last());
    (rest, tail)
}

proof fn lemma_joined_front(parts: Seq<Seq<u8>>, space: Seq<u8>, rest: Seq<u8>)
    requires
        parts.len() > 0,
        parts[0] == space + rest,
    ensures
        json::joined(parts) == space + json::joined(parts.update(0, rest)),
    decreases parts.len(),
{
    if parts.len() > 1 {
        let front = parts.drop_last();
        lemma_joined_front(front, space, rest);
        assert(parts.update(0, rest).drop_last() =~= front.update(0, rest));
        assert(json::joined(parts) =~= space + json::joined(parts.update(0, rest)));
    }
}

proof fn lemma_joined_back(parts: Seq<Seq<u8>>, rest: Seq<u8>, space: Seq<u8>)
    requires
        parts.len() > 0,
        parts.last() == rest + space,
    ensures
        json::joined(parts) == json::joined(parts.update(parts.len() - 1, rest)) + space,
{
    let now = parts.update(parts.len() - 1, rest);
    if parts.len() > 1 {
        assert(now.drop_last() =~= parts.drop_last());
    }
    assert(json::joined(parts) =~= json::joined(now) + space);
}

/// Joined parts start with the first of them.
proof fn lemma_joined_first(parts: Seq<Seq<u8>>)
    requires
        parts.len() > 0,
        parts[0].len() > 0,
    ensures
        json::joined(parts).len() > 0,
        json::joined(parts).first() == parts[0].first(),
    decreases parts.len(),
{
    if parts.len() > 1 {
        lemma_joined_first(parts.drop_last());
    }
}

/// Joining a join is joining all parts.
proof fn lemma_joined_nested(front: Seq<Seq<u8>>, parts: Seq<Seq<u8>>)
    requires
        parts.len() > 0,
    ensures
        json::joined(front.push(json::joined(parts))) == json::joined(front + parts),
    decreases parts.len(),
{
    let nested = front.push(json::joined(parts));
    assert(nested.drop_last() =~= front);
    if parts.len() == 1 {
        assert(nested =~= front + parts);
    } else {
        let fewer = parts.drop_last();
        lemma_joined_nested(front, fewer);
        assert((front + parts).drop_last() =~= front + fewer);
        assert((front + parts).last() == parts.last());
        assert(front.push(json::joined(fewer)).drop_last() =~= front);
        assert(json::joined(nested) =~= json::joined(front + parts));
    }
}

/// Whitespace in front is trimmed away.
proof fn lemma_trim_front(space: Seq<u8>, rest: Seq<u8>)
    requires
        whitespace(space),
    ensures
        json::trimmed(space + rest) == json::trimmed(rest),
    decreases space.len(),
{
    let all = space + rest;
    if space.len() == 0 {
        assert(all =~= rest);
    } else {
        assert(json::is_space(space[0]));
        assert(all.drop_first() =~= space.drop_first() + rest);
        lemma_trim_front(space.drop_first(), rest);
    }
}

/// Whitespace behind is trimmed away where something stands in front of it.
proof fn lemma_trim_back(core: Seq<u8>, space: Seq<u8>)
    requires
        whitespace(space),
        core.len() > 0,
        !json::is_space(core.first()),
        !json::is_space(core.last()),
    ensures
        json::trimmed(core + space) == core,
    decreases space.len(),
{
    let all = core + space;
    if space.len() == 0 {
        assert(all =~= core);
    } else {
        assert(json::is_space(space[space.len() - 1]));
        assert(all.last() == space.last());
        assert(all.first() == core.first());
        assert(all.drop_last() =~= core + space.drop_last());
        lemma_trim_back(core, space.drop_last());
    }
}

proof fn lemma_trim_whitespace(space: Seq<u8>)
    requires
        whitespace(space),
    ensures
        json::trimmed(space).len() == 0,
{
    let none = Seq::<u8>::empty();
    lemma_trim_front(space, none);
    assert(space + none =~= space);
}

proof fn lemma_decimal(n: nat)
    ensures
        is_integer_part(encode_utf8(text::decimal(n))),
        n > 0 ==> encode_utf8(text::decimal(n))[0] != 0x30,
    decreases n,
{
    if n < 10 {
        lemma_encode_ascii(text::digit_char(n));
    } else {
        let front = text::decimal(n / 10);
        let digit = text::digit_char(n % 10);
        lemma_decimal(n / 10);
        lemma_encode_ascii(digit);
        text::lemma_encode_concat(front, seq![digit]);
        assert(text::decimal(n) =~= front + seq![digit]);
    }
}

proof fn lemma_signed_decimal(value: int)
    ensures
        is_number(encode_utf8(text::signed_decimal(value))),
{
    let none = Seq::<u8>::empty();
    assert(is_fraction(none) && is_exponent(none) && is_sign(none));
    if value < 0 {
        let digits = text::decimal((-value) as nat);
        lemma_decimal((-value) as nat);
        lemma_encode_ascii('-');
        text::lemma_encode_concat(seq!['-'], digits);
        let sign = seq![0x2Du8];
        assert(is_sign(sign));
        assert(encode_utf8(text::signed_decimal(value)) =~= sign + encode_utf8(digits) + none
            + none);
    } else {
        lemma_decimal(value as nat);
        let whole = encode_utf8(text::decimal(value as nat));
        assert(whole =~= none + whole + none + none);
    }
}

proof fn lemma_json_string(value: Seq<char>)
    ensures
        is_string(encode_utf8(json::json_string(value))),
{
    a_json_string_reads_back_as_the_text(value);
    assert(valid_string_body(json::escaped(value)));
}

proof fn lemma_member(name: Seq<char>, value: Seq<char>, depth: nat)
    requires
        is_value(encode_utf8(value), depth),
    ensures
        is_member(encode_utf8(json::json_string(name) + seq![':'] + value), values(depth)),
{
    let none = Seq::<u8>::empty();
    let quoted = encode_utf8(json::json_string(name));
    let element = encode_utf8(value);
    lemma_json_string(name);
    lemma_encode_ascii(':');
    text::lemma_encode_concat(json::json_string(name) + seq![':'], value);
    text::lemma_encode_concat(json::json_string(name), seq![':']);
    assert(whitespace(none));
    assert(values(depth)(element));
    assert(element =~= none + element + none);
    assert(is_element(element, values(depth)));
    assert(encode_utf8(json::json_string(name) + seq![':'] + value) =~= none + quoted + none
        + seq![0x3Au8] + element);
}

proof fn lemma_with_part(parts: Seq<Seq<u8>>, part: Option<Seq<u8>>, depth: nat)
    requires
        are_members(parts, values(depth)),
        part matches Some(part) ==> is_member(part, values(depth)),
    ensures
        are_members(json::with_part(parts, part), values(depth)),
{
    let all = json::with_part(parts, part);
    assert forall|i: int| 0 <= i < all.len() implies is_member(#[trigger] all[i], values(depth)) by {
        if i < parts.len() {
            assert(is_member(parts[i], values(depth)));
        }
    }
}

proof fn lemma_string_member(name: Seq<char>, value: Seq<char>, depth: nat)
    ensures
        is_member(json::string_member(name, value), values(depth)),
{
    lemma_json_string(value);
    lemma_member(name, json::json_string(value), depth);
}

proof fn lemma_number_member(name: Seq<char>, value: int, depth: nat)
    ensures
        is_member(json::number_member(name, value), values(depth)),
{
    lemma_signed_decimal(value);
    lemma_member(name, text::signed_decimal(value), depth);
}

proof fn lemma_metadata_members(columns: MetadataView, event: EventView, depth: nat)
    ensures
        are_members(json::metadata_members(columns, event), values(depth)),
{
    let none = Seq::<Seq<u8>>::empty();
    let topic = match columns.topic {
        Some(name) => {
            lemma_string_member(name, event.topic, depth);
            Some(json::string_member(name, event.topic))
        },
        None => None,
    };
    let partition = match columns.partition {
        Some(name) => {
            lemma_number_member(name, event.partition as int, depth);
            Some(json::number_member(name, event.partition as int))
        },
        None => None,
    };
    let offset = match columns.offset {
        Some(name) => {
            lemma_number_member(name, event.offset as int, depth);
            Some(json::number_member(name, event.offset as int))
        },
        None => None,
    };
    let timestamp = match columns.timestamp {
        Some(name) => {
            lemma_number_member(name, json::timestamp_or_zero(event), depth);
            Some(json::number_member(name, json::timestamp_or_zero(event)))
        },
        None => None,
    };
    let key = match columns.key {
        Some(name) => {
            lemma_string_member(name, json::readable_text(event.key_bytes()), depth);
            Some(json::string_member(name, json::readable_text(event.key_bytes())))
        },
        None => None,
    };
    let a = json::with_part(none, topic);
    let b = json::with_part(a, partition);
    let c = json::with_part(b, offset);
    let d = json::with_part(c, timestamp);
    lemma_with_part(none, topic, depth);
    lemma_with_part(a, partition, depth);
    lemma_with_part(b, offset, depth);
    lemma_with_part(c, timestamp, depth);
    lemma_with_part(d, key, depth);
    assert(json::metadata_members(columns, event) == json::with_part(d, key));
}

/// Trimming joined members leaves joined members.
proof fn lemma_trimmed_members(parts: Seq<Seq<u8>>, depth: nat) -> (bare: Seq<Seq<u8>>)
    requires
        parts.len() > 0,
        are_members(parts, values(depth)),
    ensures
        bare.len() == parts.len(),
        are_members(bare, values(depth)),
        json::trimmed(json::joined(parts)) == json::joined(bare),
        json::joined(bare).len() > 0,
{
    assert(is_member(parts[0], values(depth)));
    let (front, first) = lemma_member_front(parts[0], depth);
    let opened = parts.update(0, first);
    lemma_joined_front(parts, front, first);
    let n = parts.len() - 1;
    assert(is_member(opened[n], values(depth))) by {
        if n > 0 {
            assert(opened[n] == parts[n]);
            assert(is_member(parts[n], values(depth)));
        }
    }
    let (last, back) = lemma_member_back(opened[n], depth);
    let bare = opened.update(n, last);
    lemma_joined_back(opened, last, back);
    assert forall|i: int| 0 <= i < bare.len() implies is_member(
        #[trigger] bare[i],
        values(depth),
    ) by {
        if i < n && i > 0 {
            assert(bare[i] == parts[i]);
            assert(is_member(parts[i], values(depth)));
        }
    }
    assert(bare[0].len() > 0 && bare[0].first() == first.first()) by {
        if n == 0 {
            assert(first == last + back);
        }
    }
    let core = json::joined(bare);
    lemma_joined_first(bare);
    assert(core.last() == last.last()) by {
        if n > 0 {
            assert(core == json::joined(bare.drop_last()) + seq![0x2Cu8] + last);
        }
    }
    lemma_trim_front(front, core + back);
    lemma_trim_back(core, back);
    assert(json::joined(parts) =~= front + (core + back));
    bare
}

/// An object with insignificant whitespace around it.
pub open spec fn is_object_text(bytes: Seq<u8>, depth: nat) -> bool {
    exists|before: Seq<u8>, object: Seq<u8>, after: Seq<u8>|
        #![trigger whitespace(before), is_object(object, depth), whitespace(after)]
        whitespace(before) && is_object(object, depth) && whitespace(after) && bytes == before
            + object + after
}

/// Every row is a valid JSON object: if the payload is one, whitespace around it
/// included, then so is the line written for it, whichever metadata columns are
/// declared, and whatever topic and key hold. Where columns are declared, the row
/// has no whitespace around it.
pub proof fn every_row_is_a_json_object(
    columns: MetadataView,
    event: EventView,
    before: Seq<u8>,
    object: Seq<u8>,
    after: Seq<u8>,
    depth: nat,
)
    requires
        whitespace(before),
        is_object(object, depth),
        whitespace(after),
        event.payload == before + object + after,
    ensures
        match json::payload_body(event.payload) {
            Ok(body) => {
                let row = json::json_row(columns, event, body);
                &&& row.last() == 0x0A
                &&& is_object_text(row.drop_last(), depth)
                &&& !columns.is_empty() ==> is_object(row.drop_last(), depth)
            },
            Err(_) => false,
        },
{
    let open = seq![0x7Bu8];
    let close = seq![0x7Du8];
    let members = json::metadata_members(columns, event);
    lemma_metadata_members(columns, event, depth);
    assert(object.len() >= 2 && object.first() == 0x7B && object.last() == 0x7D);
    lemma_trim_front(before, object + after);
    lemma_trim_back(object, after);
    assert(event.payload =~= before + (object + after));
    assert(json::trimmed(event.payload) == object);
    let inner = object.subrange(1, object.len() - 1);
    let body = json::trimmed(inner);
    let row = json::json_row(columns, event, body);
    if columns.is_empty() {
        assert(row.drop_last() =~= before + object + after);
    } else if exists|space: Seq<u8>| #[trigger] whitespace(space) && object == open + space + close {
        let space = choose|space: Seq<u8>| #[trigger]
            whitespace(space) && object == open + space + close;
        assert(inner =~= space);
        lemma_trim_whitespace(space);
        assert(row.drop_last() =~= open + json::joined(members) + close);
        assert(members.len() > 0);
        assert(are_members(members, values(depth)));
    } else {
        let parts = choose|parts: Seq<Seq<u8>>| #[trigger]
            are_members(parts, values(depth)) && parts.len() > 0 && object == open + json::joined(
                parts,
            ) + close;
        assert(inner =~= json::joined(parts));
        let bare = lemma_trimmed_members(parts, depth);
        lemma_joined_nested(members, bare);
        let all = members + bare;
        assert forall|i: int| 0 <= i < all.len() implies is_member(
            #[trigger] all[i],
            values(depth),
        ) by {
            if i < members.len() {
                assert(is_member(members[i], values(depth)));
            } else {
                assert(is_member(bare[i - members.len()], values(depth)));
            }
        }
        assert(are_members(all, values(depth)));
        assert(row.drop_last() =~= open + json::joined(all) + close);
    }
    if !columns.is_empty() {
        let none = Seq::<u8>::empty();
        assert(whitespace(none) && is_object(row.drop_last(), depth) && whitespace(none));
        assert(row.drop_last() =~= none + row.drop_last() + none);
    }
}

} // verus!
