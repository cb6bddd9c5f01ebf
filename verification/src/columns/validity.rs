//! A compact null bitmap.

use crate::error::{fails_with, Error, ErrorCode, Result};
use crate::persistent::paged::PagedVec;
use crate::shared::{clone_faithful, SharedFlat};
use vstd::prelude::*;

verus! {

pub const MIXED_FULL_VALIDITY_WORD_MARKER: u64 = 0x4d49_5845_445f_434f;

/// A compact null bitmap. A set bit means the corresponding value is present.
pub struct Validity {
    pub words: PagedVec<u64>,
    pub len: usize,
}

/// One bit of a word.
pub open spec fn word_bit(word: u64, index: int) -> bool {
    word & (1u64 << (index as u64)) != 0
}

/// The bit of a row.
pub open spec fn row_bit(words: Seq<u64>, row: int) -> bool {
    row / 64 < words.len() && word_bit(words[row / 64], row % 64)
}

/// Words for this many rows.
pub open spec fn word_total(rows: int) -> int {
    (rows + 63) / 64
}

/// No bit behind the last row is set.
pub open spec fn trailing_clear(words: Seq<u64>, rows: int) -> bool {
    rows % 64 != 0 ==> word_total(rows) <= words.len() && words[word_total(rows) - 1] >> ((rows
        % 64) as u64) == 0
}

/// The words of a bitmap with one more row.
pub open spec fn pushed_words(words: Seq<u64>, rows: int, present: bool) -> Seq<u64> {
    if rows % 64 == 0 {
        words.push(
            if present {
                1u64
            } else {
                0u64
            },
        )
    } else if present {
        words.update(words.len() - 1, words.last() | (1u64 << ((rows % 64) as u64)))
    } else {
        words
    }
}

proof fn lemma_bit_set(word: u64, index: u64, other: u64)
    requires
        index < 64,
        other < 64,
    ensures
        word_bit(word | (1u64 << index), other as int) == (other == index || word_bit(
            word,
            other as int,
        )),
        word_bit(word & !(1u64 << index), other as int) == (other != index && word_bit(
            word,
            other as int,
        )),
{
    assert(((word | (1u64 << index)) & (1u64 << other) != 0) == (other == index || word & (1u64
        << other) != 0)) by (bit_vector)
        requires
            index < 64,
            other < 64,
    ;
    assert(((word & !(1u64 << index)) & (1u64 << other) != 0) == (other != index && word & (1u64
        << other) != 0)) by (bit_vector)
        requires
            index < 64,
            other < 64,
    ;
}

proof fn lemma_first_bit(index: u64)
    requires
        index < 64,
    ensures
        word_bit(1, index as int) == (index == 0),
        !word_bit(0, index as int),
{
    assert((1u64 & (1u64 << index) != 0) == (index == 0)) by (bit_vector)
        requires
            index < 64,
    ;
    assert(0u64 & (1u64 << index) == 0) by (bit_vector);
}

/// Bits behind a clear tail are clear, and setting or clearing a bit before it keeps it clear.
proof fn lemma_tail(word: u64, tail: u64, index: u64)
    requires
        tail < 64,
        index < 64,
        word >> tail == 0,
    ensures
        index >= tail ==> !word_bit(word, index as int),
        index < tail ==> (word | (1u64 << index)) >> tail == 0,
        (word & !(1u64 << index)) >> tail == 0,
        tail < 63 ==> (word | (1u64 << tail)) >> ((tail + 1) as u64) == 0,
        tail < 63 ==> word >> ((tail + 1) as u64) == 0,
{
    assert(index >= tail ==> word & (1u64 << index) == 0) by (bit_vector)
        requires
            index < 64,
            word >> tail == 0,
    ;
    assert(index < tail ==> (word | (1u64 << index)) >> tail == 0) by (bit_vector)
        requires
            tail < 64,
            word >> tail == 0,
    ;
    assert((word & !(1u64 << index)) >> tail == 0) by (bit_vector)
        requires
            word >> tail == 0,
    ;
    assert(tail < 63 ==> (word | (1u64 << tail)) >> ((tail + 1) as u64) == 0 && word >> ((tail
        + 1) as u64) == 0) by (bit_vector)
        requires
            word >> tail == 0,
    ;
}

proof fn lemma_top_bit(word: u64, tail: u64)
    requires
        0 < tail < 64,
        word >> tail == 0,
    ensures
        word & (1u64 << 63) == 0,
        (word | (1u64 << 63)) & (1u64 << 63) != 0,
        (word | (1u64 << 63)) & !(1u64 << 63) == word,
{
    assert(word & (1u64 << 63) == 0) by (bit_vector)
        requires
            tail < 64,
            word >> tail == 0,
    ;
    assert((word | (1u64 << 63)) & (1u64 << 63) != 0) by (bit_vector);
    assert(word & (1u64 << 63) == 0 ==> (word | (1u64 << 63)) & !(1u64 << 63) == word)
        by (bit_vector);
}

pub(crate) fn replace_paged<T: Clone>(values: &mut PagedVec<T>, row: usize, value: T) -> (result:
    Result<()>)
    requires
        old(values).wf(),
        clone_faithful::<T>(),
    ensures
        final(values).wf(),
        if row < old(values)@.len() {
            result is Ok && final(values)@ == old(values)@.update(row as int, value)
        } else {
            fails_with(result, ErrorCode::CorruptStorage, "paged vector index is out of bounds"@)
                && final(values)@ == old(values)@
        },
{
    match values.replace(row, value) {
        Ok(_) => Ok(()),
        Err(message) => Err(Error::new(ErrorCode::CorruptStorage, message)),
    }
}

impl Default for Validity {
    fn default() -> (validity: Self)
        ensures
            validity.wf(),
            validity.len == 0,
            validity.words@.len() == 0,
    {
        Validity { words: PagedVec::default(), len: 0 }
    }
}

impl Clone for Validity {
    fn clone(&self) -> (copy: Self)
        ensures
            copy == *self,
    {
        Validity { words: self.words.clone(), len: self.len }
    }
}

impl Validity {
    /// One word for every 64 rows, and no bit behind the last row.
    pub open spec fn wf(&self) -> bool {
        &&& self.words.wf()
        &&& self.words@.len() == word_total(self.len as int)
        &&& trailing_clear(self.words@, self.len as int)
    }

    /// The row has a value.
    pub open spec fn present(&self, row: int) -> bool {
        0 <= row < self.len && row_bit(self.words@, row)
    }

    /// Rebinds the words to a shared allocation.
    pub fn rebase_shared_words(&mut self, words: SharedFlat<u64>) -> (result: Result<()>)
        ensures
            final(self).len == old(self).len,
            if words@.len() == word_total(old(self).len as int) {
                result is Ok && final(self).words.wf() && final(self).words@ == words@
            } else {
                fails_with(
                    result,
                    ErrorCode::CorruptStorage,
                    "shared validity word count does not match its row count"@,
                ) && *final(self) == *old(self)
            },
    {
        let expected: usize = word_count(self.len);
        if words.len() != expected {
            return Err(
                Error::new(
                    ErrorCode::CorruptStorage,
                    "shared validity word count does not match its row count",
                ),
            );
        }
        match self.words.rebase_shared(words) {
            Ok(_) => Ok(()),
            Err(message) => Err(Error::new(ErrorCode::CorruptStorage, message)),
        }
    }

    /// The words of the bitmap.
    pub fn words(&self) -> (words: Vec<u64>)
        requires
            self.words.wf(),
        ensures
            words@ == self.words@,
    {
        self.words.to_vec()
    }

    /// Adds a row.
    pub fn push(&mut self, present: bool) -> (result: Result<()>)
        requires
            old(self).words.wf(),
            old(self).len < usize::MAX,
            old(self).words@.len() < usize::MAX,
        ensures
            final(self).words.wf(),
            if old(self).len % 64 != 0 && old(self).words@.len() == 0 {
                fails_with(
                    result,
                    ErrorCode::CorruptStorage,
                    "validity bitmap is missing its active word"@,
                ) && final(self).len == old(self).len && final(self).words@ == old(self).words@
            } else {
                result is Ok && final(self).len == old(self).len + 1 && final(self).words@
                    == pushed_words(old(self).words@, old(self).len as int, present)
            },
            old(self).wf() ==> result is Ok && final(self).wf() && final(self).present(
                old(self).len as int,
            ) == present && forall|row: int|
                0 <= row < old(self).len ==> #[trigger] final(self).present(row)
                    == old(self).present(row),
    {
        let bit: usize = self.len % 64;
        let ghost before = *self;
        if bit == 0 {
            self.words.push(
                if present {
                    1
                } else {
                    0
                },
            );
        } else {
            let total: usize = self.words.len();
            if total == 0 {
                return Err(
                    Error::new(
                        ErrorCode::CorruptStorage,
                        "validity bitmap is missing its active word",
                    ),
                );
            }
            let word: usize = total - 1;
            let current: u64 = match self.words.get(word) {
                Some(current) => *current,
                None => {
                    return Err(
                        Error::new(
                            ErrorCode::CorruptStorage,
                            "validity bitmap is missing its active word",
                        ),
                    );
                },
            };
            if present {
                match replace_paged(&mut self.words, word, current | (1u64 << bit as u64)) {
                    Ok(_) => {},
                    Err(error) => {
                        return Err(error);
                    },
                }
            }
        }
        self.len = self.len + 1;
        proof {
            if before.wf() {
                lemma_pushed(before, *self, present);
            }
        }
        Ok(())
    }

    /// Marks a row as present or absent.
    pub fn set(&mut self, row: usize, present: bool) -> (result: Result<()>)
        requires
            old(self).words.wf(),
        ensures
            final(self).words.wf(),
            final(self).len == old(self).len,
            final(self).words@.len() == old(self).words@.len(),
            if row >= old(self).len {
                fails_with(result, ErrorCode::InvalidData, "column row is out of bounds"@)
                    && final(self).words@ == old(self).words@
            } else if row / 64 >= old(self).words@.len() {
                fails_with(
                    result,
                    ErrorCode::CorruptStorage,
                    "validity bitmap row has no backing word"@,
                ) && final(self).words@ == old(self).words@
            } else {
                result is Ok && forall|other: int|
                    0 <= other ==> #[trigger] row_bit(final(self).words@, other) == if other == row {
                        present
                    } else {
                        row_bit(old(self).words@, other)
                    }
            },
            old(self).wf() ==> final(self).wf(),
    {
        if row >= self.len {
            return Err(Error::invalid_data("column row is out of bounds"));
        }
        let ghost before = *self;
        let word: usize = row / 64;
        let index: u64 = (row % 64) as u64;
        let mask: u64 = 1u64 << index;
        let current: u64 = match self.words.get(word) {
            Some(current) => *current,
            None => {
                return Err(
                    Error::new(
                        ErrorCode::CorruptStorage,
                        "validity bitmap row has no backing word",
                    ),
                );
            },
        };
        let updated: u64 = if present {
            current | mask
        } else {
            current & !mask
        };
        let result = replace_paged(&mut self.words, word, updated);
        proof {
            assert forall|other: int| 0 <= other implies #[trigger] row_bit(self.words@, other)
                == if other == row {
                present
            } else {
                row_bit(before.words@, other)
            } by {
                lemma_bit_set(current, index, (other % 64) as u64);
                if other / 64 == word && other % 64 == index {
                    assert(other == row);
                }
            }
            if before.wf() {
                let rows = before.len as int;
                if rows % 64 != 0 {
                    let last = word_total(rows) - 1;
                    let tail = (rows % 64) as u64;
                    lemma_tail(before.words@[last], tail, index);
                    if word == last {
                        assert(index < tail);
                    }
                }
            }
        }
        result
    }

    pub fn is_present(&self, row: usize) -> (present: bool)
        requires
            self.words.wf(),
        ensures
            present == self.present(row as int),
    {
        row < self.len && match self.words.get(row / 64) {
            Some(word) => *word & (1u64 << (row % 64) as u64) != 0,
            None => false,
        }
    }

    pub fn len(&self) -> (len: usize)
        ensures
            len == self.len,
    {
        self.len
    }

    pub fn is_empty(&self) -> (empty: bool)
        ensures
            empty == (self.len == 0),
    {
        self.len == 0
    }

    /// Byte-per-row mask used directly by accelerator kernels during project admission.
    pub fn to_byte_mask(&self) -> (mask: Vec<u8>)
        requires
            self.words.wf(),
        ensures
            mask@ == Seq::new(
                self.len as nat,
                |row: int|
                    if self.present(row) {
                        1u8
                    } else {
                        0u8
                    },
            ),
    {
        let mut mask: Vec<u8> = Vec::with_capacity(self.len);
        for row in 0..self.len
            invariant
                self.words.wf(),
                mask.len() == row,
                forall|i: int|
                    0 <= i < row ==> #[trigger] mask@[i] == if self.present(i) {
                        1u8
                    } else {
                        0u8
                    },
        {
            mask.push(
                if self.is_present(row) {
                    1
                } else {
                    0
                },
            );
        }
        assert(mask@ =~= Seq::new(
            self.len as nat,
            |row: int|
                if self.present(row) {
                    1u8
                } else {
                    0u8
                },
        ));
        mask
    }

    /// What is wrong with the bitmap.
    pub open spec fn fault(&self) -> Option<Seq<char>> {
        if self.words@.len() != word_total(self.len as int) {
            Some("validity word count does not match its row count"@)
        } else if !trailing_clear(self.words@, self.len as int) {
            Some("validity contains non-canonical trailing bits"@)
        } else {
            None
        }
    }

    pub fn validate(&self) -> (result: Result<()>)
        requires
            self.words.wf(),
        ensures
            match self.fault() {
                Some(message) => fails_with(result, ErrorCode::CorruptStorage, message),
                None => result is Ok && self.wf(),
            },
    {
        let expected: usize = word_count(self.len);
        if self.words.len() != expected {
            return Err(
                Error::new(
                    ErrorCode::CorruptStorage,
                    "validity word count does not match its row count",
                ),
            );
        }
        let trailing: usize = self.len % 64;
        if trailing != 0 {
            if let Some(word) = self.words.get(expected - 1) {
                if *word >> trailing as u64 != 0 {
                    return Err(
                        Error::new(
                            ErrorCode::CorruptStorage,
                            "validity contains non-canonical trailing bits",
                        ),
                    );
                }
            }
        }
        Ok(())
    }

    /// Marks the words of a mixed column on their way to a checkpoint: behind full words stands a
    /// marker word, else the last bit of the last word is set.
    pub fn mark_mixed_wire(&mut self) -> (result: Result<()>)
        requires
            old(self).words.wf(),
            old(self).words@.len() < usize::MAX,
        ensures
            final(self).words.wf(),
            final(self).len == old(self).len,
            match old(self).fault() {
                Some(message) =>
                    fails_with(result, ErrorCode::CorruptStorage, message) && final(self).words@
                        == old(self).words@,
                None => result is Ok && final(self).words@ == marked_words(
                    old(self).words@,
                    old(self).len as int,
                ),
            },
    {
        match self.validate() {
            Ok(_) => {},
            Err(error) => {
                return Err(error);
            },
        }
        let expected: usize = word_count(self.len);
        if self.len % 64 == 0 {
            self.words.push(MIXED_FULL_VALIDITY_WORD_MARKER);
            Ok(())
        } else {
            let word: usize = expected - 1;
            let current: u64 = match self.words.get(word) {
                Some(current) => *current,
                None => {
                    return Err(
                        Error::new(
                            ErrorCode::CorruptStorage,
                            "mixed validity marker has no backing word",
                        ),
                    );
                },
            };
            replace_paged(&mut self.words, word, current | (1u64 << 63))
        }
    }

    /// Takes the mark of a mixed column away, if it is there.
    pub fn take_mixed_wire_marker(&mut self) -> (result: Result<bool>)
        requires
            old(self).words.wf(),
        ensures
            final(self).words.wf(),
            final(self).len == old(self).len,
            result == Ok::<bool, Error>(has_mark(old(self).words@, old(self).len as int)),
            final(self).words@ == if has_mark(old(self).words@, old(self).len as int) {
                unmarked_words(old(self).words@, old(self).len as int)
            } else {
                old(self).words@
            },
    {
        let expected: usize = word_count(self.len);
        if self.len % 64 == 0 {
            let total: usize = self.words.len();
            if total == 0 || total - 1 != expected {
                return Ok(false);
            }
            match self.words.get(expected) {
                Some(word) => {
                    if *word != MIXED_FULL_VALIDITY_WORD_MARKER {
                        return Ok(false);
                    }
                },
                None => {
                    return Ok(false);
                },
            }
            let mut retained: PagedVec<u64> = PagedVec::default();
            for index in 0..expected
                invariant
                    self.words.wf(),
                    retained.wf(),
                    expected < self.words@.len() <= usize::MAX,
                    retained@ == self.words@.subrange(0, index as int),
            {
                if let Some(word) = self.words.get(index) {
                    retained.push(*word);
                }
                assert(retained@ =~= self.words@.subrange(0, index + 1));
            }
            assert(self.words@.subrange(0, expected as int) =~= self.words@.drop_last());
            self.words = retained;
            return Ok(true);
        }
        if self.words.len() != expected {
            return Ok(false);
        }
        let word: usize = expected - 1;
        let current: u64 = match self.words.get(word) {
            Some(current) => *current,
            None => {
                return Ok(false);
            },
        };
        if current & (1u64 << 63) == 0 {
            return Ok(false);
        }
        match replace_paged(&mut self.words, word, current & !(1u64 << 63)) {
            Ok(_) => Ok(true),
            Err(error) => Err(error),
        }
    }
}

/// The words with the mark of a mixed column.
pub open spec fn marked_words(words: Seq<u64>, rows: int) -> Seq<u64> {
    if rows % 64 == 0 {
        words.push(MIXED_FULL_VALIDITY_WORD_MARKER)
    } else {
        words.update(words.len() - 1, words.last() | (1u64 << 63))
    }
}

/// The words carry the mark of a mixed column.
pub open spec fn has_mark(words: Seq<u64>, rows: int) -> bool {
    if rows % 64 == 0 {
        words.len() == word_total(rows) + 1 && words.last() == MIXED_FULL_VALIDITY_WORD_MARKER
    } else {
        words.len() == word_total(rows) && words.last() & (1u64 << 63) != 0
    }
}

/// The words without the mark of a mixed column.
pub open spec fn unmarked_words(words: Seq<u64>, rows: int) -> Seq<u64> {
    if rows % 64 == 0 {
        words.drop_last()
    } else {
        words.update(words.len() - 1, words.last() & !(1u64 << 63))
    }
}

/// A sound bitmap carries no mark; marked, it carries one, and taking the mark away gives the bitmap
/// back.
pub proof fn law_mixed_mark_round_trip(validity: Validity)
    requires
        validity.wf(),
    ensures
        !has_mark(validity.words@, validity.len as int),
        has_mark(marked_words(validity.words@, validity.len as int), validity.len as int),
        unmarked_words(
            marked_words(validity.words@, validity.len as int),
            validity.len as int,
        ) == validity.words@,
{
    let rows = validity.len as int;
    let words = validity.words@;
    if rows % 64 != 0 {
        lemma_top_bit(words.last(), (rows % 64) as u64);
        assert(words[word_total(rows) - 1] == words.last());
    }
    assert(unmarked_words(marked_words(words, rows), rows) =~= words);
}

proof fn lemma_pushed(before: Validity, after: Validity, present: bool)
    requires
        before.wf(),
        before.len < usize::MAX,
        after.words.wf(),
        after.len == before.len + 1,
        after.words@ == pushed_words(before.words@, before.len as int, present),
    ensures
        after.wf(),
        after.present(before.len as int) == present,
        forall|row: int|
            0 <= row < before.len ==> #[trigger] after.present(row) == before.present(row),
{
    let rows = before.len as int;
    let bit = (rows % 64) as u64;
    assert forall|row: int| 0 <= row < before.len implies #[trigger] after.present(row)
        == before.present(row) by {
        if bit != 0 {
            lemma_bit_set(before.words@.last(), bit, (row % 64) as u64);
            if row / 64 == rows / 64 {
                assert(row % 64 != rows % 64);
            }
        }
    }
    if bit == 0 {
        lemma_first_bit(0);
        assert(1u64 >> 1u64 == 0 && 0u64 >> 1u64 == 0) by (bit_vector);
    } else {
        lemma_bit_set(before.words@.last(), bit, bit);
        lemma_tail(before.words@.last(), bit, bit);
    }
}

fn word_count(rows: usize) -> (words: usize)
    ensures
        words == word_total(rows as int),
{
    if rows % 64 == 0 {
        rows / 64
    } else {
        rows / 64 + 1
    }
}

} // verus!
