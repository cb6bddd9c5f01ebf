//! Text as normalized terms.

use crate::index::keys::{code_of, key_less, precedes, IndexKey, Key};
use unicode_normalization::UnicodeNormalization;
use vstd::prelude::*;

verus! {

/// A text in Unicode normalization form KC.
pub uninterp spec fn compatibility_form(text: Seq<char>) -> Seq<char>;

/// `UnicodeNormalization::nfkc`: the characters of the text in normalization form KC, which depends on
/// the text alone.
#[verifier::external_body]
fn normalized(text: &str) -> (characters: Vec<char>)
    ensures
        characters@ == compatibility_form(text@),
{
    text.nfkc().collect()
}

/// A character in lower case.
pub uninterp spec fn lower_case(character: char) -> Seq<char>;

/// `char::to_lowercase`: the characters of the lower case, which depends on the character alone.
#[verifier::external_body]
fn lowered(character: char) -> (characters: Vec<char>)
    ensures
        characters@ == lower_case(character),
{
    character.to_lowercase().collect()
}

/// A letter or a digit.
pub uninterp spec fn alphanumeric(character: char) -> bool;

/// `char::is_alphanumeric`: whether the character is alphabetic or numeric, which depends on the
/// character alone.
#[verifier::external_body]
fn is_alphanumeric(character: char) -> (result: bool)
    ensures
        result == alphanumeric(character),
{
    character.is_alphanumeric()
}

/// `String::push`: appends a character.
pub assume_specification[ std::string::String::push ](text: &mut std::string::String, character: char)
    ensures
        final(text)@ == old(text)@.push(character),
;

/// Characters in lower case, one after the other.
pub open spec fn lower_all(characters: Seq<char>) -> Seq<char>
    decreases characters.len(),
{
    if characters.len() == 0 {
        Seq::empty()
    } else {
        lower_all(characters.drop_last()) + lower_case(characters.last())
    }
}

/// The text that terms are read from.
pub open spec fn folded(text: Seq<char>) -> Seq<char> {
    lower_all(compatibility_form(text))
}

/// A longest run of letters and digits.
pub open spec fn run_at(text: Seq<char>, start: int, end: int) -> bool {
    &&& 0 <= start < end <= text.len()
    &&& forall|i: int| start <= i < end ==> alphanumeric(#[trigger] text[i])
    &&& start > 0 ==> !alphanumeric(text[start - 1])
    &&& end < text.len() ==> !alphanumeric(text[end])
}

/// A term of a text.
pub open spec fn term_of(text: Seq<char>, term: Seq<char>) -> bool {
    exists|start: int, end: int| #[trigger]
        run_at(text, start, end) && term == text.subrange(start, end)
}

/// Every letter and digit of a text is in exactly one of its terms, and a term has nothing else.
pub proof fn law_terms_hold_every_letter(text: Seq<char>, place: int)
    requires
        0 <= place < text.len(),
    ensures
        alphanumeric(text[place]) ==> exists|start: int, end: int|
            start <= place < end && #[trigger] term_of(text, text.subrange(start, end)) && 0
                <= start && end <= text.len() && (forall|i: int|
                start <= i < end ==> alphanumeric(#[trigger] text[i])),
        forall|term: Seq<char>| #[trigger]
            term_of(text, term) ==> term.len() > 0 && (forall|i: int|
                0 <= i < term.len() ==> alphanumeric(#[trigger] term[i])),
{
    if alphanumeric(text[place]) {
        let start = lemma_run_start(text, place);
        let end = lemma_run_end(text, place + 1);
        assert forall|i: int| start <= i < end implies alphanumeric(#[trigger] text[i]) by {}
        assert(run_at(text, start, end));
        assert(term_of(text, text.subrange(start, end)));
    }
    assert forall|term: Seq<char>| #[trigger] term_of(text, term) implies term.len() > 0 && (forall|
        i: int,
    |
        0 <= i < term.len() ==> alphanumeric(#[trigger] term[i])) by {
        let (start, end) = choose|start: int, end: int| #[trigger]
            run_at(text, start, end) && term == text.subrange(start, end);
        assert forall|i: int| 0 <= i < term.len() implies alphanumeric(#[trigger] term[i]) by {
            assert(alphanumeric(text[start + i]));
        }
    }
}

/// A term stands between characters that are neither letters nor digits, or at an end of the text.
pub proof fn law_terms_are_not_parts_of_words(text: Seq<char>, term: Seq<char>)
    requires
        term_of(text, term),
    ensures
        exists|start: int, end: int|
            #![trigger text.subrange(start, end)]
            0 <= start < end <= text.len() && term == text.subrange(start, end) && (start == 0
                || !alphanumeric(text[start - 1])) && (end == text.len() || !alphanumeric(
                text[end],
            )),
{
    let (start, end) = choose|start: int, end: int| #[trigger]
        run_at(text, start, end) && term == text.subrange(start, end);
    assert(term == text.subrange(start, end));
}

proof fn lemma_run_start(text: Seq<char>, place: int) -> (start: int)
    requires
        0 <= place < text.len(),
        alphanumeric(text[place]),
    ensures
        0 <= start <= place,
        forall|i: int| start <= i <= place ==> alphanumeric(#[trigger] text[i]),
        start > 0 ==> !alphanumeric(text[start - 1]),
    decreases place,
{
    if place > 0 && alphanumeric(text[place - 1]) {
        lemma_run_start(text, place - 1)
    } else {
        place
    }
}

proof fn lemma_run_end(text: Seq<char>, from: int) -> (end: int)
    requires
        0 <= from <= text.len(),
    ensures
        from <= end <= text.len(),
        forall|i: int| from <= i < end ==> alphanumeric(#[trigger] text[i]),
        end < text.len() ==> !alphanumeric(text[end]),
    decreases text.len() - from,
{
    if from < text.len() && alphanumeric(text[from]) {
        lemma_run_end(text, from + 1)
    } else {
        from
    }
}

/// Folding makes the characters of the normalized text small, one after the other.
pub proof fn law_folding_lowers_each_character(text: Seq<char>, rest: Seq<char>, last: char)
    ensures
        compatibility_form(text).len() == 0 ==> folded(text).len() == 0,
        compatibility_form(text) == compatibility_form(rest).push(last) ==> folded(text) == folded(
            rest,
        ) + lower_case(last),
{
    if compatibility_form(text) == compatibility_form(rest).push(last) {
        assert(compatibility_form(text).drop_last() =~= compatibility_form(rest));
    }
}

/// Distinct terms in ascending order of their bytes.
pub open spec fn ascending_terms(terms: Seq<Seq<char>>) -> bool {
    forall|i: int, j: int|
        0 <= i < j < terms.len() ==> key_less(
            Key::Text(#[trigger] terms[i]),
            Key::Text(#[trigger] terms[j]),
        )
}

/// What the strings of a vector are.
pub open spec fn texts(terms: Seq<String>) -> Seq<Seq<char>> {
    Seq::new(terms.len(), |i: int| terms[i]@)
}

proof fn lemma_text_order(left: Seq<char>, right: Seq<char>, third: Seq<char>)
    ensures
        !key_less(Key::Text(left), Key::Text(left)),
        key_less(Key::Text(left), Key::Text(right)) && key_less(Key::Text(right), Key::Text(third))
            ==> key_less(Key::Text(left), Key::Text(third)),
        left != right ==> key_less(Key::Text(left), Key::Text(right)) || key_less(
            Key::Text(right),
            Key::Text(left),
        ),
{
    crate::index::keys::law_keys_are_ordered(Key::Text(left), Key::Text(right), Key::Text(third));
    if crate::index::keys::alike(Key::Text(left), Key::Text(right)) {
        crate::index::keys::law_plain_keys(Key::Text(left), Key::Text(right));
    }
}

/// Whether terms are in ascending order.
pub(crate) fn check_ascending_terms(terms: &Vec<String>) -> (ascending: bool)
    ensures
        ascending == ascending_terms(texts(terms@)),
{
    let ghost words = texts(terms@);
    let mut index: usize = 1;
    while index < terms.len()
        invariant
            words == texts(terms@),
            1 <= index,
            forall|i: int, j: int|
                0 <= i < j < index && j < words.len() ==> key_less(
                    Key::Text(#[trigger] words[i]),
                    Key::Text(#[trigger] words[j]),
                ),
        decreases terms.len() - index,
    {
        if !term_less(&terms[index - 1], &terms[index]) {
            assert(!key_less(Key::Text(words[index - 1]), Key::Text(words[index as int])));
            return false;
        }
        proof {
            assert forall|i: int, j: int| 0 <= i < j < index + 1 && j < words.len() implies key_less(
                Key::Text(#[trigger] words[i]),
                Key::Text(#[trigger] words[j]),
            ) by {
                if j == index && i < index - 1 {
                    lemma_text_order(words[i], words[index - 1], words[j]);
                }
            }
        }
        index = index + 1;
    }
    true
}

/// Ascending terms are distinct.
pub proof fn lemma_distinct_terms(terms: Seq<Seq<char>>)
    requires
        ascending_terms(terms),
    ensures
        terms.no_duplicates(),
{
    assert forall|i: int, j: int| 0 <= i < terms.len() && 0 <= j < terms.len() && i != j implies
        terms[i] != terms[j] by {
        let (a, b) = if i < j {
            (i, j)
        } else {
            (j, i)
        };
        assert(key_less(Key::Text(terms[a]), Key::Text(terms[b])));
        lemma_text_order(terms[a], terms[b], terms[a]);
    }
}

fn term_less(left: &String, right: &String) -> (less: bool)
    ensures
        less == key_less(Key::Text(left@), Key::Text(right@)),
{
    let a = code_of(&IndexKey::String(left.clone()));
    let b = code_of(&IndexKey::String(right.clone()));
    precedes(&a, &b)
}

/// Adds a term to ascending terms.
fn add_term(terms: &mut Vec<String>, term: String)
    requires
        ascending_terms(texts(old(terms)@)),
    ensures
        ascending_terms(texts(final(terms)@)),
        forall|other: Seq<char>| #[trigger]
            texts(final(terms)@).contains(other) <==> texts(old(terms)@).contains(other) || other
                == term@,
{
    let ghost before = texts(terms@);
    let mut place: usize = 0;
    while place < terms.len() && term_less(&terms[place], &term)
        invariant
            texts(terms@) == before,
            place <= terms.len(),
            forall|i: int|
                0 <= i < place ==> key_less(Key::Text(#[trigger] before[i]), Key::Text(term@)),
        decreases terms.len() - place,
    {
        assert(before[place as int] == terms@[place as int]@);
        place = place + 1;
    }
    let present = place < terms.len() && !term_less(&term, &terms[place]);
    proof {
        if place < terms.len() {
            assert(before[place as int] == terms@[place as int]@);
            lemma_text_order(before[place as int], term@, term@);
        }
    }
    if present {
        proof {
            assert(before[place as int] == term@);
        }
        return;
    }
    let ghost word = term@;
    terms.insert(place, term);
    proof {
        let after = texts(terms@);
        assert forall|i: int| 0 <= i < after.len() implies #[trigger] after[i] == if i < place {
            before[i]
        } else if i == place {
            word
        } else {
            before[i - 1]
        } by {}
        assert forall|i: int, j: int| 0 <= i < j < after.len() implies key_less(
            Key::Text(#[trigger] after[i]),
            Key::Text(#[trigger] after[j]),
        ) by {
            if j < place {
                assert(key_less(Key::Text(before[i]), Key::Text(before[j])));
            } else if i > place {
                assert(key_less(Key::Text(before[i - 1]), Key::Text(before[j - 1])));
            } else if i < place && j > place {
                assert(key_less(Key::Text(before[i]), Key::Text(before[j - 1])));
            } else if i == place {
                let here = before[place as int];
                if j - 1 > place {
                    assert(key_less(Key::Text(here), Key::Text(before[j - 1])));
                    lemma_text_order(word, here, before[j - 1]);
                }
            }
        }
        assert forall|other: Seq<char>| #[trigger]
            after.contains(other) <==> before.contains(other) || other == word by {
            if before.contains(other) {
                let i = choose|i: int| 0 <= i < before.len() && before[i] == other;
                let k = if i < place {
                    i
                } else {
                    i + 1
                };
                assert(after[k] == other);
            }
            if other == word {
                assert(after[place as int] == word);
            }
            if after.contains(other) {
                let i = choose|i: int| 0 <= i < after.len() && after[i] == other;
                if i < place {
                    assert(before[i] == other);
                } else if i > place {
                    assert(before[i - 1] == other);
                }
            }
        }
    }
}

/// The longest runs of letters and digits, each once, in ascending order of their bytes.
#[verifier::rlimit(40)]
#[verifier::spinoff_prover]
pub fn split_terms(characters: &Vec<char>) -> (terms: Vec<String>)
    ensures
        ascending_terms(texts(terms@)),
        forall|term: Seq<char>| #[trigger]
            texts(terms@).contains(term) <==> term_of(characters@, term),
{
    let text = characters;
    let ghost all = characters@;
    let mut terms: Vec<String> = Vec::new();
    let mut current = String::new();
    let mut start: usize = 0;
    for index in 0..text.len()
        invariant
            all == text@,
            start <= index,
            current@ == all.subrange(start as int, index as int),
            forall|i: int| start <= i < index ==> alphanumeric(#[trigger] all[i]),
            start > 0 ==> !alphanumeric(all[start - 1]),
            ascending_terms(texts(terms@)),
            forall|term: Seq<char>| #[trigger]
                texts(terms@).contains(term) <==> exists|a: int, b: int| #[trigger]
                    run_at(all, a, b) && b <= start && b < index && term == all.subrange(a, b),
    {
        let ghost before = texts(terms@);
        let ghost old_start = start as int;
        if is_alphanumeric(text[index]) {
            current.push(text[index]);
            assert(current@ =~= all.subrange(start as int, index + 1));
            proof {
                assert forall|term: Seq<char>| #[trigger]
                    texts(terms@).contains(term) <==> exists|a: int, b: int| #[trigger]
                        run_at(all, a, b) && b <= start && b < index + 1 && term == all.subrange(
                            a,
                            b,
                        ) by {
                    if exists|a: int, b: int| #[trigger]
                        run_at(all, a, b) && b <= start && b < index + 1 && term == all.subrange(
                            a,
                            b,
                        ) {
                        let (a, b) = choose|a: int, b: int| #[trigger]
                            run_at(all, a, b) && b <= start && b < index + 1 && term
                                == all.subrange(a, b);
                        if b == index {
                            assert(alphanumeric(all[b]));
                        }
                        assert(run_at(all, a, b) && b <= start && b < index);
                    }
                }
            }
        } else {
            if start < index {
                assert(run_at(all, start as int, index as int));
                add_term(&mut terms, current);
            }
            proof {
                assert forall|term: Seq<char>| #[trigger]
                    texts(terms@).contains(term) <==> exists|a: int, b: int| #[trigger]
                        run_at(all, a, b) && b <= index + 1 && b < index + 1 && term
                            == all.subrange(a, b) by {
                    if before.contains(term) {
                        let (a, b) = choose|a: int, b: int| #[trigger]
                            run_at(all, a, b) && b <= old_start && b < index && term
                                == all.subrange(a, b);
                        assert(run_at(all, a, b) && b < index + 1);
                    }
                    if exists|a: int, b: int| #[trigger]
                        run_at(all, a, b) && b <= index + 1 && b < index + 1 && term
                            == all.subrange(a, b) {
                        let (a, b) = choose|a: int, b: int| #[trigger]
                            run_at(all, a, b) && b <= index + 1 && b < index + 1 && term
                                == all.subrange(a, b);
                        lemma_run_place(all, old_start, index as int, a, b);
                        if b <= old_start && b < index {
                            assert(before.contains(term));
                        }
                    }
                }
            }
            current = String::new();
            start = index + 1;
            assert(current@ =~= all.subrange(start as int, index + 1));
        }
    }
    let ghost before = texts(terms@);
    let ghost length = all.len() as int;
    if start < text.len() {
        assert(run_at(all, start as int, length));
        add_term(&mut terms, current);
    }
    proof {
        assert forall|term: Seq<char>| #[trigger]
            texts(terms@).contains(term) <==> term_of(all, term) by {
            if before.contains(term) {
                let (a, b) = choose|a: int, b: int| #[trigger]
                    run_at(all, a, b) && b <= start && b < length && term == all.subrange(a, b);
                assert(run_at(all, a, b));
            }
            if term_of(all, term) {
                let (a, b) = choose|a: int, b: int| #[trigger]
                    run_at(all, a, b) && term == all.subrange(a, b);
                lemma_run_place(all, start as int, length, a, b);
                if b <= start && b < length {
                    assert(before.contains(term));
                } else if start == length {
                    if b == length {
                        assert(alphanumeric(all[b - 1]));
                    }
                }
            }
        }
    }
    terms
}

/// A run that ends by `end` is the one in progress, or lies before it.
proof fn lemma_run_place(text: Seq<char>, start: int, end: int, a: int, b: int)
    requires
        0 <= start <= end <= text.len(),
        run_at(text, a, b),
        b <= end,
        forall|i: int| start <= i < end ==> alphanumeric(#[trigger] text[i]),
        start > 0 ==> !alphanumeric(text[start - 1]),
    ensures
        (a == start && b == end) || (b <= start && b < end) || (start == end && b == end),
{
    if b > start {
        if a < start {
            assert(alphanumeric(text[start - 1]));
        }
        if a > start {
            assert(alphanumeric(text[a - 1]));
        }
        if b < end {
            assert(alphanumeric(text[b]));
        }
    }
}

/// The terms of a text: in normalization form KC and lower case, split at everything that is neither a
/// letter nor a digit.
pub fn tokenize(text: &str) -> (terms: Vec<String>)
    ensures
        ascending_terms(texts(terms@)),
        forall|term: Seq<char>| #[trigger]
            texts(terms@).contains(term) <==> term_of(folded(text@), term),
{
    let characters = normalized(text);
    let mut small: Vec<char> = Vec::new();
    assert(characters@.take(0) =~= Seq::empty());
    for index in 0..characters.len()
        invariant
            small@ == lower_all(characters@.take(index as int)),
    {
        let mut lower = lowered(characters[index]);
        small.append(&mut lower);
        assert(characters@.take(index + 1).drop_last() =~= characters@.take(index as int));
    }
    assert(characters@.take(characters@.len() as int) =~= characters@);
    split_terms(&small)
}

} // verus!
