//! Reading how much memory a host has left from the text of its system tools.

use crate::arith::{saturated, saturating_product};
use crate::text::{characters, is_white_space, white_space};
use crate::decimal::decimal;
use vstd::prelude::*;

verus! {

/// The digits stand for this number: at least one of them, and nothing else.
pub open spec fn digits_value(digits: Seq<char>) -> Option<int>
    decreases digits.len(),
{
    if digits.len() == 0 {
        None
    } else if !('0' <= digits.last() && digits.last() <= '9') {
        None
    } else if digits.len() == 1 {
        Some(digits.last() as int - '0' as int)
    } else {
        match digits_value(digits.drop_last()) {
            Some(value) => Some(value * 10 + (digits.last() as int - '0' as int)),
            None => None,
        }
    }
}

/// A number that a text without sign stands for, where it fits. One plus sign may stand in front.
pub open spec fn number_value(text: Seq<char>) -> Option<int> {
    let digits = if text.len() > 0 && text[0] == '+' {
        text.skip(1)
    } else {
        text
    };
    match digits_value(digits) {
        Some(value) => if value <= usize::MAX {
            Some(value)
        } else {
            None
        },
        None => None,
    }
}

proof fn lemma_digits_positive(digits: Seq<char>)
    ensures
        digits_value(digits) matches Some(value) ==> value >= 0,
    decreases digits.len(),
{
    if digits.len() > 1 {
        lemma_digits_positive(digits.drop_last());
    }
}

/// Later digits only make a number greater, and a text with a bad prefix is bad.
proof fn lemma_digits_prefix(digits: Seq<char>, count: int)
    requires
        1 <= count <= digits.len(),
    ensures
        digits_value(digits.take(count)) is None ==> digits_value(digits) is None,
        digits_value(digits) matches Some(value) ==> (digits_value(
            digits.take(count),
        ) matches Some(prefix) && prefix <= value),
    decreases digits.len(),
{
    if count == digits.len() {
        assert(digits.take(count) =~= digits);
    } else {
        lemma_digits_prefix(digits.drop_last(), count);
        assert(digits.drop_last().take(count) =~= digits.take(count));
        lemma_digits_positive(digits.drop_last());
    }
}

fn parse_digits(digits: &[char]) -> (value: Option<usize>)
    ensures
        match value {
            Some(value) => digits_value(digits@) == Some(value as int),
            None => match digits_value(digits@) {
                Some(value) => value > usize::MAX,
                None => true,
            },
        },
{
    if digits.len() == 0 {
        return None;
    }
    let mut value: usize = 0;
    for index in 0..digits.len()
        invariant
            index == 0 ==> value == 0,
            index > 0 ==> digits_value(digits@.take(index as int)) == Some(value as int),
    {
        let digit = digits[index];
        let ghost prefix = digits@.take(index + 1);
        proof {
            assert(prefix.drop_last() =~= digits@.take(index as int));
            assert(prefix.last() == digit);
            lemma_digits_prefix(digits@, index + 1);
        }
        if digit < '0' || digit > '9' {
            return None;
        }
        let number: usize = (digit as u32 - '0' as u32) as usize;
        match value.checked_mul(10) {
            Some(tens) => match tens.checked_add(number) {
                Some(sum) => {
                    value = sum;
                },
                None => {
                    return None;
                },
            },
            None => {
                return None;
            },
        }
    }
    assert(digits@.take(digits@.len() as int) =~= digits@);
    Some(value)
}

fn copy_range(text: &[char], from: usize, to: usize) -> (copy: Vec<char>)
    requires
        from <= to <= text@.len(),
    ensures
        copy@ == text@.subrange(from as int, to as int),
{
    let mut copy: Vec<char> = Vec::with_capacity(to - from);
    for index in from..to
        invariant
            from <= index <= to <= text@.len(),
            copy@ == text@.subrange(from as int, index as int),
    {
        copy.push(text[index]);
        assert(copy@ =~= text@.subrange(from as int, index + 1));
    }
    copy
}

fn parse_number(text: &[char]) -> (value: Option<usize>)
    ensures
        match value {
            Some(value) => number_value(text@) == Some(value as int),
            None => number_value(text@) is None,
        },
{
    if text.len() > 0 && text[0] == '+' {
        let digits = copy_range(text, 1, text.len());
        assert(digits@ =~= text@.skip(1));
        parse_digits(digits.as_slice())
    } else {
        parse_digits(text)
    }
}

/// A character that is taken from the ends of a text: a quote, or white space.
pub open spec fn is_edge(character: char, quotes: bool) -> bool {
    if quotes {
        character == '"'
    } else {
        white_space(character)
    }
}

/// What is between the two places is the text without such characters at its ends.
pub open spec fn is_trimmed(text: Seq<char>, quotes: bool, front: int, back: int) -> bool {
    &&& 0 <= front <= back <= text.len()
    &&& forall|i: int| 0 <= i < front ==> is_edge(#[trigger] text[i], quotes)
    &&& forall|i: int| back <= i < text.len() ==> is_edge(#[trigger] text[i], quotes)
    &&& front < back ==> !is_edge(text[front], quotes) && !is_edge(text[back - 1], quotes)
    &&& front == back ==> front == text.len()
}

/// What is left after white space is taken from both ends.
pub open spec fn trimmed(text: Seq<char>) -> Seq<char> {
    let ends = choose|front: int, back: int| #[trigger]
        is_trimmed(text, false, front, back);
    text.subrange(ends.0, ends.1)
}

/// What is left after quotes are taken from both ends.
pub open spec fn unquoted(text: Seq<char>) -> Seq<char> {
    let ends = choose|front: int, back: int| #[trigger]
        is_trimmed(text, true, front, back);
    text.subrange(ends.0, ends.1)
}

proof fn lemma_trim_unique(
    text: Seq<char>,
    quotes: bool,
    front: int,
    back: int,
    other_front: int,
    other_back: int,
)
    requires
        is_trimmed(text, quotes, front, back),
        is_trimmed(text, quotes, other_front, other_back),
    ensures
        front == other_front,
        back == other_back,
{
    if front < other_front {
        assert(is_edge(text[front], quotes));
    }
    if other_front < front {
        assert(is_edge(text[other_front], quotes));
    }
    if back < other_back {
        assert(is_edge(text[other_back - 1], quotes));
    }
    if other_back < back {
        assert(is_edge(text[back - 1], quotes));
    }
}

fn trim(text: &[char]) -> (rest: Vec<char>)
    ensures
        rest@ == trimmed(text@),
{
    let mut front: usize = 0;
    while front < text.len() && is_white_space(text[front])
        invariant
            front <= text@.len(),
            forall|i: int| 0 <= i < front ==> white_space(#[trigger] text@[i]),
        decreases text@.len() - front,
    {
        front = front + 1;
    }
    let mut back: usize = text.len();
    while back > front && is_white_space(text[back - 1])
        invariant
            front <= back <= text@.len(),
            front < text@.len() ==> !white_space(text@[front as int]),
            forall|i: int| back <= i < text@.len() ==> white_space(#[trigger] text@[i]),
        decreases back,
    {
        back = back - 1;
    }
    proof {
        if front == back && front < text@.len() {
            assert(white_space(text@[front as int]));
        }
        assert(is_trimmed(text@, false, front as int, back as int));
        let ends = choose|front: int, back: int| #[trigger]
            is_trimmed(text@, false, front, back);
        lemma_trim_unique(text@, false, front as int, back as int, ends.0, ends.1);
    }
    copy_range(text, front, back)
}

fn unquote(text: &[char]) -> (rest: Vec<char>)
    ensures
        rest@ == unquoted(text@),
{
    let mut front: usize = 0;
    while front < text.len() && text[front] == '"'
        invariant
            front <= text@.len(),
            forall|i: int| 0 <= i < front ==> #[trigger] text@[i] == '"',
        decreases text@.len() - front,
    {
        front = front + 1;
    }
    let mut back: usize = text.len();
    while back > front && text[back - 1] == '"'
        invariant
            front <= back <= text@.len(),
            front < text@.len() ==> text@[front as int] != '"',
            forall|i: int| back <= i < text@.len() ==> #[trigger] text@[i] == '"',
        decreases back,
    {
        back = back - 1;
    }
    proof {
        if front == back && front < text@.len() {
            assert(text@[front as int] == '"');
        }
        assert(is_trimmed(text@, true, front as int, back as int));
        let ends = choose|front: int, back: int| #[trigger]
            is_trimmed(text@, true, front, back);
        lemma_trim_unique(text@, true, front as int, back as int, ends.0, ends.1);
    }
    copy_range(text, front, back)
}

/// What is left after full stops are taken from the end.
pub open spec fn without_stops(text: Seq<char>) -> Seq<char>
    decreases text.len(),
{
    if text.len() > 0 && text.last() == '.' {
        without_stops(text.drop_last())
    } else {
        text
    }
}

fn drop_stops(text: &[char]) -> (rest: Vec<char>)
    ensures
        rest@ == without_stops(text@),
{
    let mut back: usize = text.len();
    assert(text@.take(back as int) =~= text@);
    while back > 0 && text[back - 1] == '.'
        invariant
            back <= text@.len(),
            without_stops(text@.take(back as int)) == without_stops(text@),
        decreases back,
    {
        assert(text@.take(back as int).drop_last() =~= text@.take(back - 1));
        back = back - 1;
    }
    assert(text@.subrange(0, back as int) =~= text@.take(back as int));
    copy_range(text, 0, back)
}

/// Where the first of a character stands, or the length.
pub open spec fn first_place(text: Seq<char>, mark: char, from: int) -> int
    decreases text.len() - from,
{
    if from >= text.len() || from < 0 {
        text.len() as int
    } else if text[from] == mark {
        from
    } else {
        first_place(text, mark, from + 1)
    }
}

fn find(text: &[char], mark: char, from: usize) -> (place: usize)
    requires
        from <= text@.len(),
    ensures
        place == first_place(text@, mark, from as int),
        from <= place <= text@.len(),
        place < text@.len() ==> text@[place as int] == mark,
{
    let mut place: usize = from;
    while place < text.len() && text[place] != mark
        invariant
            from <= place <= text@.len(),
            first_place(text@, mark, from as int) == first_place(text@, mark, place as int),
        decreases text@.len() - place,
    {
        place = place + 1;
    }
    place
}

/// The label is one whose pages can be had at once.
pub open spec fn is_reclaimable(label: Seq<char>) -> bool {
    label == "Pages free"@ || label == "Pages inactive"@ || label == "Pages speculative"@
}

/// The pages that a line counts, if it counts pages that can be had at once.
pub open spec fn line_pages(line: Seq<char>) -> Option<int> {
    let colon = first_place(line, ':', 0);
    if colon >= line.len() {
        None
    } else if !is_reclaimable(unquoted(trimmed(line.take(colon)))) {
        None
    } else {
        number_value(without_stops(trimmed(line.skip(colon + 1))))
    }
}

fn same_characters(left: &[char], right: &str) -> (same: bool)
    ensures
        same == (left@ == right@),
{
    let other = characters(right);
    if left.len() != other.len() {
        return false;
    }
    for index in 0..left.len()
        invariant
            other@ == right@,
            left@.len() == other@.len(),
            forall|i: int| 0 <= i < index ==> left@[i] == #[trigger] other@[i],
    {
        if left[index] != other[index] {
            return false;
        }
    }
    assert(left@ =~= right@);
    true
}

fn count_line(line: &[char]) -> (pages: Option<usize>)
    ensures
        match pages {
            Some(pages) => line_pages(line@) == Some(pages as int),
            None => line_pages(line@) is None,
        },
{
    let colon: usize = find(line, ':', 0);
    if colon >= line.len() {
        return None;
    }
    let before = copy_range(line, 0, colon);
    assert(before@ =~= line@.take(colon as int));
    let label = unquote(trim(before.as_slice()).as_slice());
    if !(same_characters(label.as_slice(), "Pages free") || same_characters(
        label.as_slice(),
        "Pages inactive",
    ) || same_characters(label.as_slice(), "Pages speculative")) {
        return None;
    }
    let after = copy_range(line, colon + 1, line.len());
    assert(after@ =~= line@.skip(colon + 1));
    parse_number(drop_stops(trim(after.as_slice()).as_slice()).as_slice())
}

/// Pages and counted lines of a text from a place on.
pub open spec fn page_count(text: Seq<char>, from: int) -> (int, int)
    decreases text.len() - from + 1,
{
    if from < 0 || from >= text.len() {
        (0, 0)
    } else {
        let end = first_place(text, '\n', from);
        let rest = if from <= end <= text.len() {
            page_count(text, end + 1)
        } else {
            (0, 0)
        };
        match line_pages(text.subrange(from, end)) {
            Some(pages) => (rest.0 + pages, rest.1 + 1),
            None => rest,
        }
    }
}

proof fn lemma_pages_positive(text: Seq<char>, from: int)
    ensures
        page_count(text, from).0 >= 0,
        page_count(text, from).1 >= 0,
        0 <= from <= text.len() ==> page_count(text, from).1 <= text.len() - from,
    decreases text.len() - from + 1,
{
    if 0 <= from < text.len() {
        let end = first_place(text, '\n', from);
        lemma_place_after(text, '\n', from);
        lemma_pages_positive(text, end + 1);
        let line = text.subrange(from, end);
        let colon = first_place(line, ':', 0);
        if colon < line.len() {
            lemma_digits_positive(
                without_stops(trimmed(line.skip(colon + 1))),
            );
            let digits = without_stops(trimmed(line.skip(colon + 1)));
            lemma_digits_positive(digits.skip(1));
        }
    }
}

proof fn lemma_place_after(text: Seq<char>, mark: char, from: int)
    requires
        0 <= from <= text.len(),
    ensures
        from <= first_place(text, mark, from) <= text.len(),
    decreases text.len() - from,
{
    if from < text.len() && text[from] != mark {
        lemma_place_after(text, mark, from + 1);
    }
}

/// Bytes that a host still has: free, inactive and speculative pages, as the tool counts them, times the
/// page size, which the host gives as text. Nothing where a number is missing: a partial count would
/// understate what there is.
pub fn available_bytes(page_size: &str, statistics: &str) -> (bytes: Option<usize>)
    ensures
        bytes == match number_value(trimmed(page_size@)) {
            Some(size) => if page_count(statistics@, 0).1 == 3 {
                Some(saturated(saturated(page_count(statistics@, 0).0) * size) as usize)
            } else {
                None
            },
            None => None::<usize>,
        },
{
    let size_text = characters(page_size);
    let size: usize = match parse_number(trim(size_text.as_slice()).as_slice()) {
        Some(size) => size,
        None => {
            return None;
        },
    };
    let text = characters(statistics);
    let mut from: usize = 0;
    let mut pages: usize = 0;
    let mut seen: usize = 0;
    while from < text.len()
        invariant
            text@ == statistics@,
            from <= text@.len(),
            seen <= from,
            saturated(page_count(text@, 0).0) == saturated(pages + page_count(text@, from as int).0),
            page_count(text@, 0).1 == seen + page_count(text@, from as int).1,
        decreases text@.len() - from,
    {
        let end: usize = find(text.as_slice(), '\n', from);
        let line = copy_range(text.as_slice(), from, end);
        proof {
            lemma_pages_positive(text@, end + 1);
            lemma_pages_positive(text@, from as int);
        }
        match count_line(line.as_slice()) {
            Some(count) => {
                pages = pages.saturating_add(count);
                seen = seen + 1;
            },
            None => {},
        }
        if end == text.len() {
            from = end;
        } else {
            from = end + 1;
        }
    }
    if seen == 3 {
        Some(saturating_product(pages, size))
    } else {
        None
    }
}

/// A number reads back from its decimal digits, and free, inactive and speculative pages alone count as
/// available.
pub proof fn law_numbers_read_back(value: nat, label: Seq<char>)
    requires
        value <= usize::MAX,
    ensures
        number_value(decimal(value)) == Some(value as int),
        is_reclaimable(label) <==> label == "Pages free"@ || label == "Pages inactive"@ || label
            == "Pages speculative"@,
{
    lemma_decimal_value(value);
    lemma_decimal_start(value);
}

proof fn lemma_decimal_value(value: nat)
    ensures
        decimal(value).len() > 0,
        digits_value(decimal(value)) == Some(value as int),
    decreases value,
{
    if value >= 10 {
        lemma_decimal_value(value / 10);
        assert(decimal(value).drop_last() =~= decimal(value / 10));
    }
}

proof fn lemma_decimal_start(value: nat)
    ensures
        decimal(value).len() > 0,
        decimal(value)[0] != '+',
    decreases value,
{
    if value >= 10 {
        lemma_decimal_start(value / 10);
    }
}

} // verus!
