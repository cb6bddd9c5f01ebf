//! Byte ranges by row, and the append-only string dictionary.

use crate::arith::saturated;
use crate::bytes::{same_bytes, text_of};
use crate::columns::packed::{
    delimited, flat, row_offsets, tight_bytes, valid_offsets, PackedLists,
};
use crate::digest::{digest_key, key_of};
use crate::error::{fails_with, Error, ErrorCode, Result};
use crate::persistent::arena::full_message;
use crate::persistent::radix::PersistentMap;
use crate::shared::{lemma_handle_faithful, Handle, SharedFlat};
use crate::values::copy_bytes;
use vstd::prelude::*;
use vstd::utf8::{decode_utf8, encode_utf8, valid_utf8};

verus! {

/// One flat byte range per row.
pub struct ByteValues(PackedLists<u8>);

impl View for ByteValues {
    type V = Seq<Seq<u8>>;

    closed spec fn view(&self) -> Seq<Seq<u8>> {
        self.0@
    }
}

impl Default for ByteValues {
    fn default() -> (values: Self)
        ensures
            values.wf(),
            values@ == Seq::<Seq<u8>>::empty(),
            values.tight(0),
    {
        ByteValues(PackedLists::default())
    }
}

impl Clone for ByteValues {
    fn clone(&self) -> (copy: Self)
        ensures
            copy == *self,
    {
        ByteValues(self.0.clone())
    }
}

impl ByteValues {
    pub closed spec fn wf(&self) -> bool {
        self.0.wf()
    }

    /// The storage cannot take this many more bytes.
    pub closed spec fn arena_full(&self, additional: int) -> bool {
        self.0.arena_full(additional)
    }

    /// What is said where a row cannot be stored beside this many bytes.
    pub open spec fn full_row(&self, kept: int, additional: int, message: Seq<char>) -> bool {
        if kept + additional > u32::MAX {
            message == "packed list exhausted"@
        } else {
            full_message(self.arena_overflows(additional), self.arena_overlong(), message)
        }
    }

    /// The storage cannot count this many more bytes.
    pub closed spec fn arena_overflows(&self, additional: int) -> bool {
        self.0.arena_overflows(additional)
    }

    /// The storage has a page that is longer than an offset can say.
    pub closed spec fn arena_overlong(&self) -> bool {
        self.0.arena_overlong()
    }

    /// The storage holds the bytes of the rows and nothing else.
    pub closed spec fn tight(&self, rows: int) -> bool {
        self.0.tight(rows)
    }

    /// Tight storage has room for as much as 32 bits can count.
    pub proof fn lemma_tight(&self, rows: int, additional: int)
        requires
            self.wf(),
            self.tight(rows),
            rows <= u32::MAX,
            rows < usize::MAX,
            0 <= additional,
            flat(self@).len() + additional <= u32::MAX,
        ensures
            !self.arena_full(additional),
    {
        self.0.lemma_tight(rows, additional);
    }

    /// The bytes of all rows can be counted by 32 bits.
    pub proof fn lemma_live(&self)
        requires
            self.wf(),
        ensures
            flat(self@).len() <= u32::MAX,
    {
        self.0.lemma_live();
    }

    pub(crate) fn validate_push_len(&self, additional: usize) -> (result: Result<()>)
        requires
            self.wf(),
        ensures
            if flat(self@).len() + additional > u32::MAX {
                fails_with(result, ErrorCode::ResultBudgetExceeded, "packed list exhausted"@)
            } else {
                result is Ok
            },
    {
        self.0.validate_push_len(additional)
    }

    /// Appends a row.
    pub fn push(&mut self, value: &[u8]) -> (result: Result<()>)
        requires
            old(self).wf(),
            old(self)@.len() < usize::MAX,
        ensures
            final(self).wf(),
            value@.len() == 0 ==> result is Ok,
            match result {
                Ok(_) => {
                    &&& final(self)@ == old(self)@.push(value@)
                    &&& flat(old(self)@).len() + value@.len() <= u32::MAX
                    &&& forall|rows: int| #[trigger]
                        old(self).tight(rows) ==> final(self).tight(rows + 1)
                },
                Err(error) => {
                    &&& final(self)@ == old(self)@
                    &&& error.code == ErrorCode::ResultBudgetExceeded
                    &&& flat(old(self)@).len() + value@.len() > u32::MAX || old(self).arena_full(
                        value@.len() as int,
                    )
                    &&& old(self).full_row(
                        flat(old(self)@).len() as int,
                        value@.len() as int,
                        error.message@,
                    )
                },
            },
    {
        self.0.push(copy_bytes(value))
    }

    /// Replaces a row.
    pub fn replace(&mut self, row: u32, value: &[u8]) -> (result: Result<()>)
        requires
            old(self).wf(),
        ensures
            final(self).wf(),
            row >= old(self)@.len() ==> fails_with(
                result,
                ErrorCode::InvalidData,
                "packed-list row is out of bounds"@,
            ),
            row < old(self)@.len() && value@.len() == 0 ==> result is Ok,
            match result {
                Ok(_) => row < old(self)@.len() && final(self)@ == old(self)@.update(
                    row as int,
                    value@,
                ),
                Err(error) => {
                    &&& final(self)@ == old(self)@
                    &&& row < old(self)@.len() ==> error.code == ErrorCode::ResultBudgetExceeded
                        && (flat(old(self)@).len() - old(self)@[row as int].len() + value@.len()
                        > u32::MAX || old(self).arena_full(value@.len() as int))
                        && old(self).full_row(
                        flat(old(self)@).len() - old(self)@[row as int].len(),
                        value@.len() as int,
                        error.message@,
                    )
                },
            },
    {
        self.0.replace(row, copy_bytes(value))
    }

    /// The bytes of a row. Rows are addressed by 32 bits.
    pub fn get(&self, row: usize) -> (value: Option<&[u8]>)
        requires
            self.wf(),
        ensures
            match value {
                Some(value) => row < self@.len() && value@ == self@[row as int],
                None => row >= self@.len() || row > u32::MAX,
            },
    {
        if row as u64 > u32::MAX as u64 {
            return None;
        }
        self.0.get(row as u32)
    }

    pub fn len(&self) -> (len: usize)
        requires
            self.wf(),
        ensures
            len == self@.len(),
    {
        self.0.rows()
    }

    /// Every row, in order.
    pub fn iter(&self) -> (rows: Vec<&[u8]>)
        requires
            self.wf(),
            self@.len() <= u32::MAX,
        ensures
            rows@.len() == self@.len(),
            forall|row: int| 0 <= row < self@.len() ==> (#[trigger] rows@[row])@ == self@[row],
    {
        let total: usize = self.len();
        let mut rows: Vec<&[u8]> = Vec::with_capacity(total);
        for row in 0..total
            invariant
                self.wf(),
                total == self@.len(),
                total <= u32::MAX,
                rows@.len() == row,
                forall|i: int| 0 <= i < row ==> (#[trigger] rows@[i])@ == self@[i],
        {
            if let Some(value) = self.get(row) {
                rows.push(value);
            }
        }
        rows
    }

    pub fn offsets(&self) -> (offsets: Vec<u32>)
        requires
            self.wf(),
            self@.len() <= u32::MAX,
        ensures
            offsets@ == row_offsets(self@),
    {
        self.0.offsets()
    }

    pub fn values(&self) -> (values: Vec<u8>)
        requires
            self.wf(),
            self@.len() <= u32::MAX,
        ensures
            values@ == flat(self@),
    {
        self.0.values()
    }

    pub fn rebase_shared(&mut self, offsets: SharedFlat<u32>, values: SharedFlat<u8>) -> (result:
        Result<()>)
        ensures
            if valid_offsets(offsets@, values@.len() as int) {
                result is Ok && final(self).wf() && final(self)@ == delimited(offsets@, values@)
            } else {
                fails_with(
                    result,
                    ErrorCode::CorruptStorage,
                    "shared packed-list offsets are invalid"@,
                ) && *final(self) == *old(self)
            },
    {
        self.0.rebase_shared(offsets, values)
    }

    pub closed spec fn spec_estimated_bytes(&self) -> int {
        self.0.spec_estimated_bytes()
    }

    pub fn estimated_bytes(&self) -> (bytes: usize)
        ensures
            bytes == self.spec_estimated_bytes(),
    {
        self.0.estimated_bytes()
    }

    pub closed spec fn spec_needs_seal(&self) -> bool {
        self.0.spec_needs_seal()
    }

    pub fn needs_seal(&self) -> (needed: bool)
        requires
            self.wf(),
        ensures
            needed == self.spec_needs_seal(),
    {
        self.0.needs_seal()
    }

    /// Writes the rows anew, without what no row uses any more.
    pub fn seal(&mut self) -> (result: Result<()>)
        requires
            old(self).wf(),
            old(self)@.len() <= u32::MAX,
        ensures
            result is Ok,
            final(self).wf(),
            final(self)@ == old(self)@,
            final(self).tight(old(self)@.len() as int),
            !final(self).spec_needs_seal(),
            final(self).spec_estimated_bytes() == tight_bytes::<u8>(
                old(self)@.len() as int,
                flat(old(self)@).len() as int,
            ),
    {
        let mut sealed = ByteValues::default();
        let total: usize = self.len();
        for row in 0..total
            invariant
                self.wf(),
                *self == *old(self),
                total == self@.len(),
                total <= u32::MAX,
                sealed.wf(),
                sealed.tight(row as int),
                sealed@ == self@.take(row as int),
        {
            if let Some(value) = self.get(row) {
                proof {
                    crate::columns::packed::lemma_flat_through(self@, row as int);
                    self.lemma_live();
                    sealed.lemma_tight(row as int, value@.len() as int);
                }
                match sealed.push(value) {
                    Ok(_) => {},
                    Err(error) => {
                        assert(false);
                        return Err(error);
                    },
                }
            }
            assert(self@.take(row + 1) =~= self@.take(row as int).push(self@[row as int]));
        }
        assert(self@.take(total as int) =~= self@);
        proof {
            sealed.0.lemma_tight_bytes(total as int);
        }
        *self = sealed;
        Ok(())
    }
}

/// Append-only dictionary used by repeated strings and schema names. The lookup holds numeric
/// identifiers only, by the digest of the text.
pub struct Dictionary {
    values: PackedLists<u8>,
    lookup: PersistentMap<Handle<Vec<u32>>>,
}

impl View for Dictionary {
    type V = Seq<Seq<char>>;

    closed spec fn view(&self) -> Seq<Seq<char>> {
        Seq::new(self.values@.len(), |id: int| decode_utf8(self.values@[id]))
    }
}

/// How far one number exceeds another.
pub open spec fn grown(now: int, before: int) -> int {
    if now > before {
        now - before
    } else {
        0
    }
}

/// The entries once a text is interned: it comes last, if it is new.
pub open spec fn interned(texts: Seq<Seq<char>>, text: Seq<char>) -> Seq<Seq<char>> {
    if texts.contains(text) {
        texts
    } else {
        texts.push(text)
    }
}

/// The entries once several texts are interned, one after the other.
pub open spec fn interned_all(texts: Seq<Seq<char>>, added: Seq<Seq<char>>) -> Seq<Seq<char>>
    decreases added.len(),
{
    if added.len() == 0 {
        texts
    } else {
        interned(interned_all(texts, added.drop_last()), added.last())
    }
}

/// The key of a text in the lookup.
pub open spec fn dictionary_key(text: Seq<char>) -> u128 {
    digest_key(encode_utf8("dictionary\0"@) + encode_utf8(text))
}

fn dictionary_key_hash(value: &str) -> (key: u128)
    ensures
        key == dictionary_key(value@),
{
    let mut input: Vec<u8> = Vec::new();
    input.extend_from_slice("dictionary\0".as_bytes());
    input.extend_from_slice(value.as_bytes());
    assert(input@ =~= encode_utf8("dictionary\0"@) + encode_utf8(value@));
    key_of(input.as_slice())
}

impl Default for Dictionary {
    fn default() -> (dictionary: Self)
        ensures
            dictionary.wf(),
            dictionary@ == Seq::<Seq<char>>::empty(),
            dictionary.interned_alone(),
    {
        let dictionary = Dictionary {
            values: PackedLists::default(),
            lookup: PersistentMap::default(),
        };
        assert(dictionary@ =~= Seq::<Seq<char>>::empty());
        dictionary
    }
}

impl Clone for Dictionary {
    fn clone(&self) -> (copy: Self)
        ensures
            copy == *self,
    {
        Dictionary { values: self.values.clone(), lookup: self.lookup.clone() }
    }
}

impl Dictionary {
    /// The bytes of each entry.
    pub closed spec fn rows(&self) -> Seq<Seq<u8>> {
        self.values@
    }

    /// Entries and lookup can be read.
    pub closed spec fn readable(&self) -> bool {
        self.values.wf() && self.lookup.wf()
    }

    spec fn bucket(&self, key: u128) -> Seq<u32> {
        if self.lookup@.dom().contains(key) {
            self.lookup@[key].spec_value()@
        } else {
            Seq::empty()
        }
    }

    /// Entries are UTF-8 and distinct, and the lookup leads to each of them.
    pub closed spec fn wf(&self) -> bool {
        &&& self.readable()
        &&& self.values@.len() <= u32::MAX as int + 1
        &&& forall|id: int| 0 <= id < self.values@.len() ==> valid_utf8(#[trigger] self.values@[id])
        &&& forall|i: int, j: int|
            0 <= i < self.values@.len() && 0 <= j < self.values@.len() && #[trigger] self.values@[i]
                == #[trigger] self.values@[j] ==> i == j
        &&& forall|id: int|
            0 <= id < self.values@.len() ==> self.bucket(
                dictionary_key(decode_utf8(#[trigger] self.values@[id])),
            ).contains(id as u32)
        &&& forall|key: u128, i: int|
            0 <= i < self.bucket(key).len() ==> (#[trigger] self.bucket(key)[i])
                < self.values@.len()
        &&& forall|key: u128| #[trigger] self.lookup@.dom().contains(key) ==> self.bucket(key).len()
            > 0 && dictionary_key(decode_utf8(self.values@[self.bucket(key)[0] as int])) == key
    }

    /// No further entry can be numbered.
    pub open spec fn exhausted(&self) -> bool {
        self.rows().len() > u32::MAX || self.rows().len() == usize::MAX
    }

    /// The storage cannot take this many more bytes.
    pub closed spec fn storage_full(&self, additional: int) -> bool {
        flat(self.values@).len() + additional > u32::MAX || self.values.arena_full(additional)
    }

    /// The storage cannot count this many more bytes.
    pub closed spec fn storage_overflows(&self, additional: int) -> bool {
        self.values.arena_overflows(additional)
    }

    /// The storage has a page that is longer than an offset can say.
    pub closed spec fn storage_overlong(&self) -> bool {
        self.values.arena_overlong()
    }

    /// What is said where a text of this many bytes cannot become an entry.
    pub open spec fn full_entry(&self, additional: int, message: Seq<char>) -> bool {
        if self.exhausted() {
            message == "string dictionary exhausted"@
        } else if flat(self.rows()).len() + additional > u32::MAX {
            message == "packed list exhausted"@
        } else {
            full_message(self.storage_overflows(additional), self.storage_overlong(), message)
        }
    }

    /// Nothing but interning has written to the dictionary: its storage has no byte that no entry uses.
    pub closed spec fn interned_alone(&self) -> bool {
        self.values.tight(self.values@.len() as int)
    }

    /// A dictionary reached by interning alone takes every text for which 32 bits can count the entries
    /// and the bytes.
    pub proof fn law_interned_dictionary_has_room(&self, text: Seq<char>)
        requires
            self.wf(),
            self.interned_alone(),
            self@.len() <= u32::MAX,
            self@.len() < usize::MAX,
            flat(self.rows()).len() + encode_utf8(text).len() <= u32::MAX,
        ensures
            !self.exhausted(),
            !self.storage_full(encode_utf8(text).len() as int),
    {
        self.values.lemma_tight(self.values@.len() as int, encode_utf8(text).len() as int);
    }

    /// The entry of a text.
    pub open spec fn holds(&self, id: int, text: Seq<char>) -> bool {
        0 <= id < self@.len() && self@[id] == text
    }

    /// Texts are told apart by their bytes.
    proof fn lemma_entry(&self, id: int, text: Seq<char>)
        requires
            self.wf(),
            0 <= id < self.values@.len(),
        ensures
            self@[id] == text <==> self.values@[id] == encode_utf8(text),
    {
        broadcast use {vstd::utf8::decode_utf8_encode_utf8, vstd::utf8::encode_utf8_decode_utf8};

        assert(valid_utf8(self.values@[id]));
        assert(encode_utf8(decode_utf8(self.values@[id])) == self.values@[id]);
        assert(decode_utf8(encode_utf8(text)) == text);
    }

    /// Every entry of a sound dictionary is text.
    pub proof fn lemma_resolves(&self, id: int)
        requires
            self.wf(),
            0 <= id < self@.len(),
        ensures
            self@.len() == self.rows().len(),
            valid_utf8(self.rows()[id]),
    {
    }

    /// What interning gives: the entries that were there, and possibly one more.
    pub proof fn lemma_extends(&self, later: Self)
        requires
            later@ == self@ || exists|text: Seq<char>| later@ == #[trigger] self@.push(text),
        ensures
            self@.len() <= later@.len(),
            later@.take(self@.len() as int) == self@,
    {
        if later@ == self@ {
            assert(later@.take(self@.len() as int) =~= self@);
        } else {
            let text = choose|text: Seq<char>| later@ == #[trigger] self@.push(text);
            assert(self@.push(text).take(self@.len() as int) =~= self@);
        }
    }

    pub proof fn lemma_readable(&self)
        requires
            self.wf(),
        ensures
            self.readable(),
    {
    }

    /// An entry that resolves is the only one with its text.
    pub proof fn law_entries_are_distinct(&self, left: int, right: int)
        requires
            self.wf(),
            0 <= left < self@.len(),
            0 <= right < self@.len(),
            self@[left] == self@[right],
        ensures
            left == right,
    {
        self.lemma_entry(left, self@[left]);
        self.lemma_entry(right, self@[left]);
        assert(self.values@[left] == self.values@[right]);
    }

    /// The entries, interned in their order into an empty dictionary, get the identifiers that they
    /// have: each is new when its turn comes, and the number before it is the number of those interned.
    pub proof fn law_interning_anew_keeps_identifiers(&self, id: int)
        requires
            self.wf(),
            0 <= id <= self@.len(),
        ensures
            interned_all(Seq::empty(), self@.take(id)) == self@.take(id),
            id < self@.len() ==> !self@.take(id).contains(self@[id]) && interned(
                self@.take(id),
                self@[id],
            ) == self@.take(id + 1),
        decreases id,
    {
        if id > 0 {
            self.law_interning_anew_keeps_identifiers(id - 1);
            assert(self@.take(id).drop_last() =~= self@.take(id - 1));
            assert(self@.take(id).last() == self@[id - 1]);
        } else {
            assert(self@.take(id) =~= Seq::<Seq<char>>::empty());
        }
        if id < self@.len() {
            if self@.take(id).contains(self@[id]) {
                let i = choose|i: int| 0 <= i < id && self@.take(id)[i] == self@[id];
                self.law_entries_are_distinct(i, id);
            }
            assert(self@.take(id).push(self@[id]) =~= self@.take(id + 1));
        }
    }

    /// The identifier of a text.
    pub fn id(&self, value: &str) -> (id: Option<u32>)
        requires
            self.wf(),
        ensures
            match id {
                Some(id) => self.holds(id as int, value@),
                None => forall|id: int| !#[trigger] self.holds(id, value@),
            },
    {
        let key: u128 = dictionary_key_hash(value);
        let wanted = value.as_bytes();
        match self.lookup.get(key) {
            Some(bucket) => {
                let ids = bucket.value();
                assert(ids@ == self.bucket(key));
                for index in 0..ids.len()
                    invariant
                        self.wf(),
                        ids@ == self.bucket(key),
                        key == dictionary_key(value@),
                        wanted@ == encode_utf8(value@),
                        forall|i: int|
                            0 <= i < index ==> self.values@[#[trigger] ids@[i] as int] != wanted@,
                {
                    assert(self.bucket(key)[index as int] < self.values@.len());
                    if let Some(bytes) = self.values.get(ids[index]) {
                        if same_bytes(bytes, wanted) {
                            proof {
                                self.lemma_entry(ids@[index as int] as int, value@);
                            }
                            return Some(ids[index]);
                        }
                    }
                }
                proof {
                    assert forall|id: int| !#[trigger] self.holds(id, value@) by {
                        if self.holds(id, value@) {
                            self.lemma_entry(id, value@);
                            assert(self.bucket(
                                dictionary_key(decode_utf8(self.values@[id])),
                            ).contains(id as u32));
                            let i = choose|i: int| 0 <= i < ids@.len() && ids@[i] == id as u32;
                            assert(self.values@[ids@[i] as int] != wanted@);
                        }
                    }
                }
                None
            },
            None => {
                proof {
                    assert forall|id: int| !#[trigger] self.holds(id, value@) by {
                        if self.holds(id, value@) {
                            assert(self.bucket(
                                dictionary_key(decode_utf8(self.values@[id])),
                            ).contains(id as u32));
                        }
                    }
                }
                None
            },
        }
    }

    /// The text of an identifier.
    pub fn resolve(&self, id: u32) -> (text: Option<&str>)
        requires
            self.readable(),
        ensures
            match text {
                Some(text) => id < self@.len() && valid_utf8(self.rows()[id as int]) && text@
                    == self@[id as int],
                None => id >= self@.len() || !valid_utf8(self.rows()[id as int]),
            },
            self.wf() ==> (text is Some <==> id < self@.len()),
    {
        match self.values.get(id) {
            Some(bytes) => text_of(bytes),
            None => None,
        }
    }

    pub fn len(&self) -> (len: usize)
        requires
            self.readable(),
        ensures
            len == self@.len(),
            self@.len() == self.rows().len(),
    {
        self.values.rows()
    }

    pub fn is_empty(&self) -> (empty: bool)
        requires
            self.readable(),
        ensures
            empty == (self@.len() == 0),
    {
        self.len() == 0
    }

    /// The identifier of a text, which becomes the next entry if it has none yet.
    pub fn intern(&mut self, value: &str) -> (result: Result<u32>)
        requires
            old(self).wf(),
        ensures
            final(self).wf(),
            match result {
                Ok(id) => {
                    &&& final(self).holds(id as int, value@)
                    &&& final(self)@ == interned(old(self)@, value@)
                    &&& !old(self)@.contains(value@) ==> id == old(self)@.len()
                },
                Err(error) => {
                    &&& final(self)@ == old(self)@
                    &&& error.code == ErrorCode::ResultBudgetExceeded
                    &&& !old(self)@.contains(value@)
                    &&& old(self).exhausted() || old(self).storage_full(
                        encode_utf8(value@).len() as int,
                    )
                    &&& old(self).full_entry(encode_utf8(value@).len() as int, error.message@)
                },
            },
            result is Ok && old(self).interned_alone() ==> final(self).interned_alone(),
            old(self).interned_alone() && old(self)@.len() <= u32::MAX && old(self)@.len()
                < usize::MAX && flat(old(self).rows()).len() + encode_utf8(value@).len()
                <= u32::MAX ==> result is Ok,
            !old(self)@.contains(value@) && old(self).exhausted() ==> fails_with(
                result,
                ErrorCode::ResultBudgetExceeded,
                "string dictionary exhausted"@,
            ),
    {
        if let Some(id) = self.id(value) {
            assert(self@.contains(value@)) by {
                assert(self@[id as int] == value@);
            }
            return Ok(id);
        }
        assert(!self@.contains(value@)) by {
            if self@.contains(value@) {
                let i = choose|i: int| 0 <= i < self@.len() && self@[i] == value@;
                assert(self.holds(i, value@));
            }
        }
        let total: usize = self.values.rows();
        if total as u64 > u32::MAX as u64 || total == usize::MAX {
            return Err(
                Error::new(ErrorCode::ResultBudgetExceeded, "string dictionary exhausted"),
            );
        }
        let id: u32 = total as u32;
        let ghost before = *self;
        proof {
            if before.interned_alone() && flat(before.rows()).len() + encode_utf8(value@).len()
                <= u32::MAX {
                before.law_interned_dictionary_has_room(value@);
            }
        }
        match self.values.push(copy_bytes(value.as_bytes())) {
            Ok(_) => {},
            Err(error) => {
                proof {
                    before.lemma_same_rows(*self);
                }
                return Err(error);
            },
        }
        let key: u128 = dictionary_key_hash(value);
        let mut bucket: Vec<u32> = match self.lookup.get(key) {
            Some(ids) => copy_ids(ids.value()),
            None => Vec::new(),
        };
        assert(bucket@ =~= before.bucket(key));
        bucket.push(id);
        let _ = self.lookup.len();
        proof {
            lemma_handle_faithful::<Vec<u32>>();
            before.lemma_few_keys();
        }
        let _ = self.lookup.insert(key, Handle::new(bucket));
        proof {
            lemma_interned(before, *self, value@, key, id);
        }
        Ok(id)
    }

    /// Every lookup key stands for an entry of its own.
    proof fn lemma_few_keys(&self)
        requires
            self.wf(),
            self.lookup@.dom().finite(),
        ensures
            self.lookup@.dom().len() <= self.values@.len(),
    {
        let first = |key: u128| self.bucket(key)[0] as int;
        let ids = self.lookup@.dom().map(first);
        let all = vstd::set_lib::set_int_range(0, self.values@.len() as int);
        vstd::set_lib::lemma_int_range(0, self.values@.len() as int);
        assert(ids.subset_of(all));
        vstd::set_lib::lemma_len_subset(ids, all);
        assert forall|a: u128, b: u128|
            self.lookup@.dom().contains(a) && self.lookup@.dom().contains(b) && #[trigger] first(a)
                == #[trigger] first(b) implies a == b by {
            assert(dictionary_key(decode_utf8(self.values@[self.bucket(a)[0] as int])) == a);
            assert(dictionary_key(decode_utf8(self.values@[self.bucket(b)[0] as int])) == b);
        }
        vstd::set_lib::lemma_map_size(self.lookup@.dom(), ids, first);
    }

    proof fn lemma_same_rows(&self, other: Self)
        requires
            self.wf(),
            other.values.wf(),
            other.values@ == self.values@,
            other.lookup == self.lookup,
        ensures
            other.wf(),
            other@ == self@,
    {
        assert(other@ =~= self@);
        assert forall|key: u128, i: int| 0 <= i < other.bucket(key).len() implies (
        #[trigger] other.bucket(key)[i]) < other.values@.len() by {
            assert(self.bucket(key)[i] < self.values@.len());
        }
        assert forall|id: int| 0 <= id < other.values@.len() implies other.bucket(
            dictionary_key(decode_utf8(#[trigger] other.values@[id])),
        ).contains(id as u32) by {
            assert(self.bucket(dictionary_key(decode_utf8(self.values@[id]))).contains(id as u32));
        }
    }

    /// Entries in the order of their identifiers.
    pub fn values(&self) -> (texts: Vec<&str>)
        requires
            self.wf(),
        ensures
            texts@.len() == self@.len(),
            forall|id: int| 0 <= id < self@.len() ==> (#[trigger] texts@[id])@ == self@[id],
    {
        let total: usize = self.len();
        let mut texts: Vec<&str> = Vec::with_capacity(total);
        for id in 0..total
            invariant
                self.wf(),
                total == self@.len(),
                self@.len() <= u32::MAX as int + 1,
                texts@.len() == id,
                forall|i: int| 0 <= i < id ==> (#[trigger] texts@[i])@ == self@[i],
        {
            if let Some(text) = self.resolve(id as u32) {
                texts.push(text);
            }
        }
        texts
    }

    pub fn offsets(&self) -> (offsets: Vec<u32>)
        requires
            self.readable(),
            self.rows().len() <= u32::MAX,
        ensures
            offsets@ == row_offsets(self.rows()),
    {
        self.values.offsets()
    }

    pub fn bytes(&self) -> (bytes: Vec<u8>)
        requires
            self.readable(),
            self.rows().len() <= u32::MAX,
        ensures
            bytes@ == flat(self.rows()),
    {
        self.values.values()
    }

    pub closed spec fn spec_estimated_bytes(&self) -> int {
        self.values.spec_estimated_bytes()
    }

    pub fn estimated_bytes(&self) -> (bytes: usize)
        ensures
            bytes == self.spec_estimated_bytes(),
    {
        self.values.estimated_bytes()
    }

    /// A number of bytes for the nodes of the lookup, without some that are the same in `previous`
    /// at their place.
    pub closed spec fn lookup_detaches(&self, previous: &Self, total: int) -> bool {
        self.lookup.detaches(&previous.lookup, total)
    }

    /// Bytes of this generation that `previous` does not have: more bytes of entries, and nodes of the
    /// lookup that are not shared. Which of the equal nodes are shared is a fact about the process.
    pub fn detached_storage_bytes_from(&self, previous: &Self) -> (bytes: usize)
        ensures
            exists|total: int| #[trigger]
                self.lookup_detaches(previous, total) && bytes == saturated(
                    grown(self.spec_estimated_bytes(), previous.spec_estimated_bytes()) + total,
                ),
    {
        let grown: usize = self.values.estimated_bytes().saturating_sub(
            previous.values.estimated_bytes(),
        );
        let nodes: usize = self.lookup.detached_node_bytes_from(&previous.lookup);
        proof {
            let total = choose|total: int| #[trigger]
                self.lookup.detaches(&previous.lookup, total) && nodes == saturated(total);
            assert(self.lookup_detaches(previous, total));
        }
        grown.saturating_add(nodes)
    }

    /// Rebinds the entries to shared flat allocations. The lookup stays, so the allocations are to
    /// hold the entries that are there.
    pub fn rebase_shared(&mut self, offsets: SharedFlat<u32>, values: SharedFlat<u8>) -> (result:
        Result<()>)
        requires
            old(self).readable(),
        ensures
            final(self).readable(),
            if valid_offsets(offsets@, values@.len() as int) {
                result is Ok && final(self).rows() == delimited(offsets@, values@)
            } else {
                fails_with(
                    result,
                    ErrorCode::CorruptStorage,
                    "shared packed-list offsets are invalid"@,
                ) && *final(self) == *old(self)
            },
            result is Ok && old(self).wf() && delimited(offsets@, values@) == old(self).rows()
                ==> final(self).wf() && final(self)@ == old(self)@,
    {
        let ghost before = *self;
        let result = self.values.rebase_shared(offsets, values);
        proof {
            if result is Ok && before.wf() && delimited(offsets@, values@) == before.rows() {
                before.lemma_same_rows(*self);
            }
        }
        result
    }
}

fn copy_ids(ids: &Vec<u32>) -> (copy: Vec<u32>)
    ensures
        copy@ == ids@,
{
    crate::shared::detach(ids.as_slice())
}

#[verifier::spinoff_prover]
proof fn lemma_interned(
    before: Dictionary,
    after: Dictionary,
    text: Seq<char>,
    key: u128,
    id: u32,
)
    requires
        before.wf(),
        before.values@.len() <= u32::MAX,
        !before@.contains(text),
        id == before.values@.len(),
        key == dictionary_key(text),
        after.values.wf(),
        after.values@ == before.values@.push(encode_utf8(text)),
        after.lookup.wf(),
        after.lookup@.dom() == before.lookup@.dom().insert(key),
        after.lookup@[key].spec_value()@ == before.bucket(key).push(id),
        forall|other: u128|
            other != key && before.lookup@.dom().contains(other) ==> #[trigger] after.lookup@[other]
                == before.lookup@[other],
    ensures
        after.wf(),
        after@ == before@.push(text),
{
    broadcast use {vstd::utf8::encode_utf8_decode_utf8, vstd::utf8::encode_utf8_valid_utf8};

    assert(decode_utf8(encode_utf8(text)) == text);
    assert(after@ =~= before@.push(text));
    assert forall|other: u128| #[trigger] after.bucket(other) == if other == key {
        before.bucket(key).push(id)
    } else {
        before.bucket(other)
    } by {
        if other != key && before.lookup@.dom().contains(other) {
            assert(after.lookup@[other] == before.lookup@[other]);
        }
    }
    assert forall|i: int, j: int|
        0 <= i < after.values@.len() && 0 <= j < after.values@.len() && #[trigger] after.values@[i]
            == #[trigger] after.values@[j] implies i == j by {
        if i < id && j < id {
            assert(before.values@[i] == before.values@[j]);
        } else if i != j {
            let old_id = if i < id {
                i
            } else {
                j
            };
            assert(before.values@[old_id] == encode_utf8(text));
            assert(before@[old_id] == text);
        }
    }
    assert forall|i: int| 0 <= i < after.values@.len() implies after.bucket(
        dictionary_key(decode_utf8(#[trigger] after.values@[i])),
    ).contains(i as u32) by {
        let own = dictionary_key(decode_utf8(after.values@[i]));
        if i < id {
            assert(before.bucket(dictionary_key(decode_utf8(before.values@[i]))).contains(i as u32));
            if own == key {
                let k = choose|k: int|
                    0 <= k < before.bucket(key).len() && before.bucket(key)[k] == i as u32;
                assert(after.bucket(key)[k] == i as u32);
            }
        } else {
            let k = before.bucket(key).len() as int;
            assert(after.bucket(key)[k] == id);
        }
    }
    assert forall|other: u128, i: int| 0 <= i < after.bucket(other).len() implies (
    #[trigger] after.bucket(other)[i]) < after.values@.len() by {
        if other != key || i < before.bucket(key).len() {
            assert(before.bucket(other)[i] < before.values@.len());
        }
    }
    assert forall|other: u128| #[trigger] after.lookup@.dom().contains(other) implies after.bucket(
        other,
    ).len() > 0 && dictionary_key(decode_utf8(after.values@[after.bucket(other)[0] as int]))
        == other by {
        if before.lookup@.dom().contains(other) {
            let first = before.bucket(other)[0];
            assert(first < before.values@.len());
            assert(after.bucket(other)[0] == first);
            assert(after.values@[first as int] == before.values@[first as int]);
        } else {
            assert(before.bucket(key) =~= Seq::empty());
            assert(after.values@[id as int] == encode_utf8(text));
        }
    }
}

} // verus!
