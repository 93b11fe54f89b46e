//! Base64, as the envelope writes and reads it: the standard alphabet, padded, and no text but the
//! one the bytes are written as.

use base64::engine::general_purpose::STANDARD as BASE64;
use base64::Engine as _;
use vstd::prelude::*;
use vstd::string::*;

verus! {

/// The characters of the standard base64 alphabet, and its padding.
pub open spec fn is_base64_char(c: char) -> bool {
    ||| 'A' <= c <= 'Z'
    ||| 'a' <= c <= 'z'
    ||| '0' <= c <= '9'
    ||| c == '+'
    ||| c == '/'
    ||| c == '='
}

/// The character of the standard alphabet for six bits.
pub open spec fn base64_digit(bits: int) -> char {
    if bits < 26 {
        ('A' as u32 + bits) as char
    } else if bits < 52 {
        ('a' as u32 + (bits - 26)) as char
    } else if bits < 62 {
        ('0' as u32 + (bits - 52)) as char
    } else if bits == 62 {
        '+'
    } else {
        '/'
    }
}

/// The byte at `i`, and zero past the last one.
pub open spec fn byte_or_zero(bytes: Seq<u8>, i: int) -> int {
    if 0 <= i < bytes.len() {
        bytes[i] as int
    } else {
        0
    }
}

/// The twenty-four bits of the group of three bytes with this number.
pub open spec fn group_bits(bytes: Seq<u8>, group: int) -> int {
    byte_or_zero(bytes, 3 * group) * 0x1_0000 + byte_or_zero(bytes, 3 * group + 1) * 0x100
        + byte_or_zero(bytes, 3 * group + 2)
}

/// The six bits the character with this number stands for, four characters to a group.
pub open spec fn six_bits(bytes: Seq<u8>, i: int) -> int {
    let bits = group_bits(bytes, i / 4);
    if i % 4 == 0 {
        bits / 0x4_0000
    } else if i % 4 == 1 {
        bits / 0x1000 % 0x40
    } else if i % 4 == 2 {
        bits / 0x40 % 0x40
    } else {
        bits % 0x40
    }
}

/// Some bytes in base64: a character for every six bits that hold a bit of them, padded to whole
/// groups of four.
pub open spec fn base64_text(bytes: Seq<u8>) -> Seq<char> {
    Seq::new(
        (bytes.len() + 2) / 3 * 4,
        |i: int|
            if 6 * i < 8 * bytes.len() {
                base64_digit(six_bits(bytes, i))
            } else {
                '='
            },
    )
}

/// The bytes some text is the base64 of, if it is.
pub open spec fn base64_bytes(text: Seq<char>) -> Option<Seq<u8>> {
    if exists|bytes: Seq<u8>| #[trigger] base64_text(bytes) == text {
        Some(choose|bytes: Seq<u8>| #[trigger] base64_text(bytes) == text)
    } else {
        None
    }
}

/// `Engine::encode_string` of the `base64` crate's standard engine: the bytes in base64.
#[verifier::external_body]
pub(crate) fn to_base64(bytes: &[u8]) -> (text: String)
    ensures
        text@ == base64_text(bytes@),
{
    let mut text = String::new();
    BASE64.encode_string(bytes, &mut text);
    text
}

/// `Engine::decode` of the `base64` crate's standard engine: the bytes the text is the base64 of,
/// or nothing when there are none. The engine refuses what it would not have written itself: a
/// character outside the alphabet, padding that is missing or too much, and a last character with
/// bits set that stand for no byte.
#[verifier::external_body]
pub(crate) fn from_base64(text: &str) -> (bytes: Option<Vec<u8>>)
    ensures
        bytes matches Some(read) ==> base64_text(read@) == text@,
        bytes is None ==> forall|other: Seq<u8>| #[trigger] base64_text(other) != text@,
{
    BASE64.decode(text).ok()
}

proof fn lemma_six_bits_bounds(bytes: Seq<u8>, i: int)
    requires
        0 <= i,
    ensures
        0 <= six_bits(bytes, i) < 64,
{
}

/// Base64 is text over its alphabet.
pub proof fn lemma_base64_chars(bytes: Seq<u8>)
    ensures
        forall|i: int|
            0 <= i < base64_text(bytes).len() ==> is_base64_char(
                #[trigger] base64_text(bytes)[i],
            ),
{
    assert forall|i: int| 0 <= i < base64_text(bytes).len() implies is_base64_char(
        #[trigger] base64_text(bytes)[i],
    ) by {
        lemma_six_bits_bounds(bytes, i);
    }
}

/// Two sets of six bits with the same character are the same, and none has the padding's.
proof fn lemma_digit_is_told_apart(left: int, right: int)
    requires
        0 <= left < 64,
        0 <= right < 64,
    ensures
        base64_digit(left) == base64_digit(right) ==> left == right,
        base64_digit(left) != '=',
{
}

/// Twenty-four bits taken apart, by six and by eight.
proof fn lemma_bits_taken_apart(first: int, second: int, third: int)
    requires
        0 <= first < 0x100,
        0 <= second < 0x100,
        0 <= third < 0x100,
    ensures
        ({
            let bits = first * 0x1_0000 + second * 0x100 + third;
            &&& bits == bits / 0x4_0000 * 0x4_0000 + bits / 0x1000 % 0x40 * 0x1000 + bits / 0x40
                % 0x40 * 0x40 + bits % 0x40
            &&& first == bits / 0x1_0000
            &&& second == bits / 0x100 % 0x100
            &&& third == bits % 0x100
        }),
{
    let bits = first * 0x1_0000 + second * 0x100 + third;
    assert(bits / 0x100 == first * 0x100 + second);
    assert(bits / 0x40 / 0x40 == bits / 0x1000);
    assert(bits / 0x1000 / 0x40 == bits / 0x4_0000);
}

/// The four characters of a group give its bits back.
proof fn lemma_group_is_read_back(bytes: Seq<u8>, group: int)
    requires
        0 <= group,
    ensures
        group_bits(bytes, group) == six_bits(bytes, 4 * group) * 0x4_0000 + six_bits(
            bytes,
            4 * group + 1,
        ) * 0x1000 + six_bits(bytes, 4 * group + 2) * 0x40 + six_bits(bytes, 4 * group + 3),
        byte_or_zero(bytes, 3 * group) == group_bits(bytes, group) / 0x1_0000,
        byte_or_zero(bytes, 3 * group + 1) == group_bits(bytes, group) / 0x100 % 0x100,
        byte_or_zero(bytes, 3 * group + 2) == group_bits(bytes, group) % 0x100,
{
    lemma_bits_taken_apart(
        byte_or_zero(bytes, 3 * group),
        byte_or_zero(bytes, 3 * group + 1),
        byte_or_zero(bytes, 3 * group + 2),
    );
    assert(4 * group / 4 == group && 4 * group % 4 == 0);
    assert((4 * group + 1) / 4 == group && (4 * group + 1) % 4 == 1);
    assert((4 * group + 2) / 4 == group && (4 * group + 2) % 4 == 2);
    assert((4 * group + 3) / 4 == group && (4 * group + 3) % 4 == 3);
}

/// Six bits that hold no bit of any byte are all zero.
proof fn lemma_no_bits_past_the_bytes(bytes: Seq<u8>, i: int)
    requires
        0 <= i,
        6 * i >= 8 * bytes.len(),
    ensures
        six_bits(bytes, i) == 0,
{
}

proof fn lemma_length_is_told_by_the_text(left: Seq<u8>, right: Seq<u8>)
    requires
        base64_text(left) == base64_text(right),
    ensures
        left.len() >= right.len(),
{
    if left.len() < right.len() {
        let i = (8 * left.len() + 5) / 6;
        assert(base64_text(left).len() == (left.len() + 2) / 3 * 4);
        assert(base64_text(right).len() == (right.len() + 2) / 3 * 4);
        assert((left.len() + 2) / 3 == (right.len() + 2) / 3);
        assert(8 * left.len() <= 6 * i < 8 * right.len());
        lemma_six_bits_bounds(right, i as int);
        lemma_digit_is_told_apart(six_bits(right, i as int), 0);
        assert(base64_text(left)[i as int] == '=');
        assert(base64_text(right)[i as int] == base64_digit(six_bits(right, i as int)));
    }
}

proof fn lemma_six_bits_are_told_by_the_text(left: Seq<u8>, right: Seq<u8>, i: int)
    requires
        base64_text(left) == base64_text(right),
        left.len() == right.len(),
        0 <= i < base64_text(left).len(),
    ensures
        six_bits(left, i) == six_bits(right, i),
{
    if 6 * i < 8 * left.len() {
        lemma_six_bits_bounds(left, i);
        lemma_six_bits_bounds(right, i);
        lemma_digit_is_told_apart(six_bits(left, i), six_bits(right, i));
        assert(base64_text(left)[i] == base64_digit(six_bits(left, i)));
        assert(base64_text(right)[i] == base64_digit(six_bits(right, i)));
    } else {
        lemma_no_bits_past_the_bytes(left, i);
        lemma_no_bits_past_the_bytes(right, i);
    }
}

/// Different bytes differ in base64.
proof fn lemma_base64_is_told_apart(left: Seq<u8>, right: Seq<u8>)
    requires
        base64_text(left) == base64_text(right),
    ensures
        left == right,
{
    lemma_length_is_told_by_the_text(left, right);
    lemma_length_is_told_by_the_text(right, left);
    assert forall|i: int| 0 <= i < left.len() implies left[i] == right[i] by {
        let group = i / 3;
        lemma_group_is_read_back(left, group);
        lemma_group_is_read_back(right, group);
        lemma_six_bits_are_told_by_the_text(left, right, 4 * group);
        lemma_six_bits_are_told_by_the_text(left, right, 4 * group + 1);
        lemma_six_bits_are_told_by_the_text(left, right, 4 * group + 2);
        lemma_six_bits_are_told_by_the_text(left, right, 4 * group + 3);
        assert(byte_or_zero(left, i) == byte_or_zero(right, i));
    }
    assert(left =~= right);
}

/// Bytes written in base64 are read back as they were.
pub proof fn law_base64_is_read_back(bytes: Seq<u8>)
    ensures
        base64_bytes(base64_text(bytes)) == Some(bytes),
{
    let text = base64_text(bytes);
    let read = choose|read: Seq<u8>| #[trigger] base64_text(read) == text;
    lemma_base64_is_told_apart(read, bytes);
}

/// Base64 goes by groups of three bytes: whole groups in front are written as if they stood alone,
/// in four characters each.
pub proof fn law_base64_goes_by_groups_of_three(front: Seq<u8>, rest: Seq<u8>)
    requires
        front.len() % 3 == 0,
    ensures
        base64_text(front + rest) == base64_text(front) + base64_text(rest),
        base64_text(front).len() == front.len() / 3 * 4,
{
    let all = front + rest;
    let groups = (front.len() / 3) as int;
    assert(front.len() == 3 * groups);
    assert((front.len() + 2) / 3 == groups);
    assert((all.len() + 2) / 3 == groups + (rest.len() + 2) / 3);
    assert forall|i: int| 0 <= i < base64_text(all).len() implies (#[trigger] base64_text(all)[i])
        == (base64_text(front) + base64_text(rest))[i] by {
        if i < 4 * groups {
            let group = i / 4;
            assert(3 * group + 2 < front.len());
            assert(group_bits(all, group) == group_bits(front, group));
        } else {
            let j = i - 4 * groups;
            let group = j / 4;
            assert(i / 4 == groups + group && i % 4 == j % 4);
            assert(byte_or_zero(all, 3 * (groups + group)) == byte_or_zero(rest, 3 * group));
            assert(byte_or_zero(all, 3 * (groups + group) + 1) == byte_or_zero(
                rest,
                3 * group + 1,
            ));
            assert(byte_or_zero(all, 3 * (groups + group) + 2) == byte_or_zero(
                rest,
                3 * group + 2,
            ));
        }
    }
    assert(base64_text(all) =~= base64_text(front) + base64_text(rest));
}

/// Six bits are written as the character at their place in the standard alphabet.
pub proof fn law_six_bits_are_written_in_the_standard_alphabet(bits: int)
    requires
        0 <= bits < 64,
    ensures
        base64_digit(bits)
            == "ABCDEFGHIJKLMNOPQRSTUVWXYZabcdefghijklmnopqrstuvwxyz0123456789+/"@[bits],
{
    reveal_strlit("ABCDEFGHIJKLMNOPQRSTUVWXYZabcdefghijklmnopqrstuvwxyz0123456789+/");
}

} // verus!
