//! Text and byte helpers: decimal rendering, UTF-8 output, equality and order
//! of identifiers.

use vstd::prelude::*;
use vstd::utf8::*;

verus! {

/// `String::push` of std: appends one character.
pub assume_specification[ String::push ](target: &mut String, c: char)
    ensures
        final(target)@ == old(target)@.push(c),
;

/// The character of a decimal digit.
pub open spec fn digit_char(digit: nat) -> char {
    (0x30 + digit) as char
}

/// The decimal digits of `n`, most significant first, without leading zeros.
pub open spec fn decimal(n: nat) -> Seq<char>
    decreases n,
{
    if n < 10 {
        seq![digit_char(n)]
    } else {
        decimal(n / 10).push(digit_char(n % 10))
    }
}

/// The decimal rendering of a signed number.
pub open spec fn signed_decimal(n: int) -> Seq<char> {
    if n < 0 {
        seq!['-'] + decimal((-n) as nat)
    } else {
        decimal(n as nat)
    }
}

/// The value of a decimal digit.
pub open spec fn digit_value(c: char) -> Option<nat> {
    if '0' <= c <= '9' {
        Some((c as nat - '0' as nat) as nat)
    } else {
        None
    }
}

/// The number that some decimal digits denote.
pub open spec fn read_decimal(digits: Seq<char>) -> Option<nat>
    decreases digits.len(),
{
    if digits.len() == 0 {
        None
    } else if digits.len() == 1 {
        digit_value(digits[0])
    } else {
        match (read_decimal(digits.drop_last()), digit_value(digits.last())) {
            (Some(front), Some(digit)) => Some(front * 10 + digit),
            _ => None,
        }
    }
}

/// The number that decimal digits denote, with a minus sign for a negative one.
pub open spec fn read_signed(digits: Seq<char>) -> Option<int> {
    if digits.len() > 0 && digits[0] == '-' {
        match read_decimal(digits.skip(1)) {
            Some(magnitude) => Some(-(magnitude as int)),
            None => None,
        }
    } else {
        match read_decimal(digits) {
            Some(magnitude) => Some(magnitude as int),
            None => None,
        }
    }
}

/// A number written in decimal reads back as the number, and has no leading
/// zeros.
pub proof fn a_decimal_reads_back_as_the_number(n: nat)
    ensures
        read_decimal(decimal(n)) == Some(n),
        decimal(n).len() > 0,
        decimal(n).len() > 1 ==> decimal(n)[0] != '0',
        forall|i: int| 0 <= i < decimal(n).len() ==> '0' <= #[trigger] decimal(n)[i] <= '9',
        n > 0 ==> decimal(n)[0] != '0',
    decreases n,
{
    if n >= 10 {
        a_decimal_reads_back_as_the_number(n / 10);
        assert(decimal(n).drop_last() =~= decimal(n / 10));
        assert(decimal(n)[0] == decimal(n / 10)[0]);
        assert(digit_value(digit_char(n % 10)) == Some(n % 10));
    } else {
        assert(digit_value(digit_char(n)) == Some(n));
    }
}

/// A signed number written in decimal reads back as the number.
pub proof fn a_signed_decimal_reads_back_as_the_number(n: int)
    ensures
        read_signed(signed_decimal(n)) == Some(n),
{
    if n < 0 {
        a_decimal_reads_back_as_the_number((-n) as nat);
        assert(signed_decimal(n).skip(1) =~= decimal((-n) as nat));
    } else {
        a_decimal_reads_back_as_the_number(n as nat);
        assert('0' <= decimal(n as nat)[0] <= '9');
    }
}

/// Appends the decimal digits of `n`.
pub fn push_decimal(out: &mut String, n: u64)
    ensures
        final(out)@ == old(out)@ + decimal(n as nat),
    decreases n,
{
    if n >= 10 {
        push_decimal(out, n / 10);
    }
    let digit: u8 = (n % 10) as u8;
    out.push((0x30u8 + digit) as char);
    assert(out@ =~= old(out)@ + decimal(n as nat));
}

/// The decimal digits of `n`.
pub fn decimal_string(n: u64) -> (text: String)
    ensures
        text@ == decimal(n as nat),
{
    let mut out = String::new();
    push_decimal(&mut out, n);
    assert(out@ =~= decimal(n as nat));
    out
}

/// Appends the UTF-8 encoding of `c`.
pub fn push_utf8(out: &mut Vec<u8>, c: char)
    ensures
        final(out)@ == old(out)@ + encode_scalar(c as u32),
{
    let scalar: u32 = c as u32;
    proof {
        assert(scalar <= 0x7F ==> (scalar & 0x7F) <= 0xFF) by (bit_vector);
        assert(((scalar >> 6) & 0x1F) <= 0xFF && ((scalar >> 12) & 0x0F) <= 0xFF && ((scalar >> 18)
            & 0x7) <= 0xFF && ((scalar >> 6) & 0x3F) <= 0xFF && ((scalar >> 12) & 0x3F) <= 0xFF && (
        scalar & 0x3F) <= 0xFF) by (bit_vector);
    }
    if scalar <= 0x7F {
        out.push((scalar & 0x7F) as u8);
    } else if scalar <= 0x7FF {
        out.push(0xC0u8 | ((scalar >> 6) & 0x1F) as u8);
        out.push(0x80u8 | (scalar & 0x3F) as u8);
    } else if scalar <= 0xFFFF {
        out.push(0xE0u8 | ((scalar >> 12) & 0x0F) as u8);
        out.push(0x80u8 | ((scalar >> 6) & 0x3F) as u8);
        out.push(0x80u8 | (scalar & 0x3F) as u8);
    } else {
        out.push(0xF0u8 | ((scalar >> 18) & 0x7) as u8);
        out.push(0x80u8 | ((scalar >> 12) & 0x3F) as u8);
        out.push(0x80u8 | ((scalar >> 6) & 0x3F) as u8);
        out.push(0x80u8 | (scalar & 0x3F) as u8);
    }
    assert(out@ =~= old(out)@ + encode_scalar(scalar));
}

/// Appends `bytes` unchanged.
pub fn append_bytes(out: &mut Vec<u8>, bytes: &[u8])
    ensures
        final(out)@ == old(out)@ + bytes@,
{
    out.extend_from_slice(bytes);
    assert(out@ =~= old(out)@ + bytes@);
}

/// The encoding of a single character.
pub proof fn lemma_encode_one(c: char)
    ensures
        encode_utf8(seq![c]) == encode_scalar(c as u32),
{
    reveal_with_fuel(encode_utf8, 2);
    assert(seq![c].drop_first() =~= Seq::<char>::empty());
    assert(encode_utf8(seq![c]) =~= encode_scalar(c as u32));
}

/// Encoding distributes over concatenation.
pub proof fn lemma_encode_concat(left: Seq<char>, right: Seq<char>)
    ensures
        encode_utf8(left + right) == encode_utf8(left) + encode_utf8(right),
    decreases left.len(),
{
    if left.len() == 0 {
        assert(left + right =~= right);
        assert(encode_utf8(left) + encode_utf8(right) =~= encode_utf8(right));
    } else {
        assert((left + right).drop_first() =~= left.drop_first() + right);
        lemma_encode_concat(left.drop_first(), right);
        assert(encode_utf8(left + right) =~= encode_utf8(left) + encode_utf8(right));
    }
}

/// Two texts with the same encoding are the same text.
pub proof fn lemma_encode_injective(left: Seq<char>, right: Seq<char>)
    requires
        encode_utf8(left) == encode_utf8(right),
    ensures
        left == right,
{
    vstd::utf8::encode_utf8_decode_utf8(left);
    vstd::utf8::encode_utf8_decode_utf8(right);
}

/// Lexicographic order of byte strings, the order that std gives to strings.
pub open spec fn bytes_before(left: Seq<u8>, right: Seq<u8>) -> bool
    decreases left.len(),
{
    if right.len() == 0 {
        false
    } else if left.len() == 0 {
        true
    } else if left[0] == right[0] {
        bytes_before(left.drop_first(), right.drop_first())
    } else {
        left[0] < right[0]
    }
}

/// Two byte strings are ordered by the first byte in which they differ; one that
/// the other starts with comes first.
pub proof fn the_first_difference_decides(left: Seq<u8>, right: Seq<u8>, same: int)
    requires
        0 <= same <= left.len(),
        same <= right.len(),
        forall|i: int| 0 <= i < same ==> left[i] == right[i],
    ensures
        same < left.len() && same < right.len() && left[same] < right[same] ==> bytes_before(
            left,
            right,
        ) && !bytes_before(right, left),
        same == left.len() && left.len() < right.len() ==> bytes_before(left, right)
            && !bytes_before(right, left),
        same == left.len() && same == right.len() ==> !bytes_before(left, right),
    decreases same,
{
    if same > 0 {
        the_first_difference_decides(left.drop_first(), right.drop_first(), same - 1);
    }
}

/// Whether the text `left` sorts before `right`.
pub open spec fn text_before(left: Seq<char>, right: Seq<char>) -> bool {
    bytes_before(encode_utf8(left), encode_utf8(right))
}

pub proof fn lemma_bytes_before_transitive(a: Seq<u8>, b: Seq<u8>, c: Seq<u8>)
    requires
        bytes_before(a, b),
        bytes_before(b, c),
    ensures
        bytes_before(a, c),
    decreases a.len(),
{
    if a.len() != 0 && b.len() != 0 && c.len() != 0 && a[0] == b[0] && b[0] == c[0] {
        lemma_bytes_before_transitive(a.drop_first(), b.drop_first(), c.drop_first());
    }
}

pub proof fn lemma_bytes_before_irreflexive(a: Seq<u8>)
    ensures
        !bytes_before(a, a),
    decreases a.len(),
{
    if a.len() != 0 {
        lemma_bytes_before_irreflexive(a.drop_first());
    }
}

/// How two texts are ordered.
#[derive(Debug, Clone, Copy, PartialEq, Eq, Structural)]
pub enum TextOrder {
    Before,
    Same,
    After,
}

/// Orders two texts by their bytes.
pub fn text_order(left: &str, right: &str) -> (order: TextOrder)
    ensures
        order == (if left@ == right@ {
            TextOrder::Same
        } else if text_before(left@, right@) {
            TextOrder::Before
        } else {
            TextOrder::After
        }),
        order is After ==> text_before(right@, left@),
{
    let a = left.as_bytes();
    let b = right.as_bytes();
    let mut i: usize = 0;
    proof {
        assert(a@.skip(0) =~= a@);
        assert(b@.skip(0) =~= b@);
        if left@ == right@ {
            lemma_bytes_before_irreflexive(a@);
        }
    }
    while i < a.len() && i < b.len()
        invariant
            a@ == encode_utf8(left@),
            b@ == encode_utf8(right@),
            i <= a.len(),
            i <= b.len(),
            a@.take(i as int) =~= b@.take(i as int),
            bytes_before(a@, b@) == bytes_before(a@.skip(i as int), b@.skip(i as int)),
            bytes_before(b@, a@) == bytes_before(b@.skip(i as int), a@.skip(i as int)),
        decreases a.len() - i,
    {
        if a[i] < b[i] {
            assert(a@[i as int] != b@[i as int]);
            return TextOrder::Before;
        }
        if a[i] > b[i] {
            assert(a@[i as int] != b@[i as int]);
            return TextOrder::After;
        }
        proof {
            assert(a@.skip(i as int).drop_first() =~= a@.skip(i + 1));
            assert(b@.skip(i as int).drop_first() =~= b@.skip(i + 1));
            assert(a@.take(i + 1) =~= a@.take(i as int).push(a@[i as int]));
            assert(b@.take(i + 1) =~= b@.take(i as int).push(b@[i as int]));
        }
        i += 1;
    }
    if a.len() == b.len() {
        proof {
            assert(a@ =~= a@.take(i as int));
            assert(b@ =~= b@.take(i as int));
            lemma_encode_injective(left@, right@);
        }
        TextOrder::Same
    } else if i == a.len() {
        TextOrder::Before
    } else {
        TextOrder::After
    }
}

/// Whether two texts are the same.
pub fn same_text(left: &str, right: &str) -> (same: bool)
    ensures
        same == (left@ == right@),
{
    matches!(text_order(left, right), TextOrder::Same)
}

/// Texts are ordered by their UTF-8 bytes.
pub proof fn texts_are_ordered_by_their_bytes(left: Seq<char>, right: Seq<char>, same: int)
    requires
        0 <= same <= encode_utf8(left).len(),
        same <= encode_utf8(right).len(),
        forall|i: int| 0 <= i < same ==> encode_utf8(left)[i] == encode_utf8(right)[i],
    ensures
        same < encode_utf8(left).len() && same < encode_utf8(right).len() && encode_utf8(left)[same]
            < encode_utf8(right)[same] ==> text_before(left, right) && !text_before(right, left),
        same == encode_utf8(left).len() && same < encode_utf8(right).len() ==> text_before(
            left,
            right,
        ) && !text_before(right, left),
        !text_before(left, left),
{
    the_first_difference_decides(encode_utf8(left), encode_utf8(right), same);
    lemma_bytes_before_irreflexive(encode_utf8(left));
}

} // verus!
