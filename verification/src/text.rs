//! Characters of text: case, blanks and comparison.

use vstd::prelude::*;
use vstd::std_specs::iter::IteratorSpec;
use vstd::utf8::encode_utf8;

verus! {

/// A character is white space.
pub uninterp spec fn white_space(character: char) -> bool;

/// `char::is_whitespace`: whether the character has the Unicode property White_Space, which depends
/// on the character alone.
#[verifier::external_body]
pub(crate) fn is_white_space(character: char) -> (white: bool)
    ensures
        white == white_space(character),
{
    character.is_whitespace()
}

/// The characters of a text.
pub(crate) fn characters(text: &str) -> (characters: Vec<char>)
    ensures
        characters@ == text@,
{
    broadcast use vstd::string::axiom_spec_iter;

    let mut characters: Vec<char> = Vec::new();
    for character in iter: text.chars()
        invariant
            iter.snapshot@.remaining() == text@,
            characters@ == text@.subrange(0, iter.index@),
    {
        characters.push(character);
        assert(characters@ =~= text@.subrange(0, iter.index@ + 1));
    }
    assert(text@.subrange(0, text@.len() as int) =~= text@);
    characters
}

/// Nothing but white space.
pub open spec fn blank(text: Seq<char>) -> bool {
    forall|i: int| 0 <= i < text.len() ==> white_space(#[trigger] text[i])
}

pub(crate) fn is_blank(text: &str) -> (result: bool)
    ensures
        result == blank(text@),
{
    let all = characters(text);
    for index in 0..all.len()
        invariant
            all@ == text@,
            forall|i: int| 0 <= i < index ==> white_space(#[trigger] text@[i]),
    {
        if !is_white_space(all[index]) {
            assert(!white_space(text@[index as int]));
            return false;
        }
    }
    true
}

/// A byte with ASCII capitals made small.
pub open spec fn small_byte(byte: u8) -> u8 {
    if 65 <= byte <= 90 {
        (byte + 32) as u8
    } else {
        byte
    }
}

/// Texts that differ in the case of ASCII letters only.
pub open spec fn same_but_case(left: Seq<char>, right: Seq<char>) -> bool {
    let first = encode_utf8(left);
    let second = encode_utf8(right);
    first.len() == second.len() && forall|i: int|
        0 <= i < first.len() ==> small_byte(#[trigger] first[i]) == small_byte(second[i])
}

/// Two bytes differ in case only: they are the same, or one is an ASCII capital and the other the small
/// letter to it.
pub proof fn law_case_of_bytes(left: u8, right: u8)
    ensures
        small_byte(left) == small_byte(right) <==> left == right || 65 <= left <= 90 && right == left
            + 32 || 65 <= right <= 90 && left == right + 32,
{
}

/// A text is the same as itself, in whatever case, and a text of another length in bytes is not.
pub proof fn law_case_comparison(left: Seq<char>, right: Seq<char>)
    ensures
        same_but_case(left, left),
        same_but_case(left, right) == same_but_case(right, left),
        encode_utf8(left).len() != encode_utf8(right).len() ==> !same_but_case(left, right),
        forall|i: int|
            0 <= i < encode_utf8(left).len() && same_but_case(left, right)
                ==> #[trigger] encode_utf8(left)[i] == encode_utf8(right)[i] || encode_utf8(left)[i]
                + 32 == encode_utf8(right)[i] || encode_utf8(right)[i] + 32 == encode_utf8(left)[i],
{
    let first = encode_utf8(left);
    let second = encode_utf8(right);
    if same_but_case(left, right) {
        assert forall|i: int| 0 <= i < second.len() implies small_byte(#[trigger] second[i])
            == small_byte(first[i]) by {
            assert(small_byte(first[i]) == small_byte(second[i]));
        }
        assert forall|i: int| 0 <= i < first.len() implies #[trigger] first[i] == second[i]
            || first[i] + 32 == second[i] || second[i] + 32 == first[i] by {
            law_case_of_bytes(first[i], second[i]);
        }
    }
    if same_but_case(right, left) {
        assert forall|i: int| 0 <= i < first.len() implies small_byte(#[trigger] first[i])
            == small_byte(second[i]) by {
            assert(small_byte(second[i]) == small_byte(first[i]));
        }
    }
}

fn to_small(byte: u8) -> (small: u8)
    ensures
        small == small_byte(byte),
{
    if byte >= 65 && byte <= 90 {
        byte + 32
    } else {
        byte
    }
}

pub(crate) fn equal_but_case(left: &str, right: &str) -> (same: bool)
    ensures
        same == same_but_case(left@, right@),
{
    let first = left.as_bytes();
    let second = right.as_bytes();
    if first.len() != second.len() {
        return false;
    }
    for index in 0..first.len()
        invariant
            first@ == encode_utf8(left@),
            second@ == encode_utf8(right@),
            first@.len() == second@.len(),
            forall|i: int|
                0 <= i < index ==> small_byte(#[trigger] first@[i]) == small_byte(second@[i]),
    {
        if to_small(first[index]) != to_small(second[index]) {
            assert(small_byte(encode_utf8(left@)[index as int]) != small_byte(
                encode_utf8(right@)[index as int],
            ));
            return false;
        }
    }
    true
}

} // verus!
