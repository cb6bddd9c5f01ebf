//! Postings: the rows of each key, as an immutable base and the changes on top of it.

use crate::digest::{digest_key, key_of};
use crate::index::bitmap::{add_row, bitmap_rows, copy_bitmap, drop_row, first_rows, rows_of_bitmap};
use crate::index::keys::{
    alike, code_of, index_key_hash, key_bytes, key_code, key_less, lemma_code_order, numbers,
    precedes, IndexKey, Key,
};
use crate::persistent::radix::PersistentMap;
use roaring::RoaringBitmap;
use vstd::prelude::*;
use vstd::utf8::encode_utf8;

verus! {

/// What the keys of an index are: scalar values or terms of text.
#[derive(Clone, Copy, Debug, PartialEq, Eq, Structural)]
pub enum PostingDomain {
    Scalar,
    Term,
}

/// The digest by which a key of a domain is looked up.
pub open spec fn lookup_key(domain: PostingDomain, key: Key) -> u128 {
    match (domain, key) {
        (PostingDomain::Term, Key::Text(term)) => digest_key(
            encode_utf8("text-posting\0"@) + encode_utf8(term),
        ),
        _ => digest_key(key_bytes(key)),
    }
}

fn text_term_hash(term: &str) -> (hash: u128)
    ensures
        hash == digest_key(encode_utf8("text-posting\0"@) + encode_utf8(term@)),
{
    let mut input: Vec<u8> = Vec::new();
    input.extend_from_slice("text-posting\0".as_bytes());
    input.extend_from_slice(term.as_bytes());
    assert(input@ =~= encode_utf8("text-posting\0"@) + encode_utf8(term@));
    key_of(input.as_slice())
}

pub(crate) fn bucket_key(domain: PostingDomain, key: &IndexKey) -> (hash: u128)
    ensures
        hash == lookup_key(domain, key.key()),
{
    match (domain, key) {
        (PostingDomain::Term, IndexKey::String(term)) => text_term_hash(term.as_str()),
        _ => index_key_hash(key),
    }
}

/// One key of a base, with the numbers by which it is ordered and its rows.
pub struct PostingRow {
    pub key: IndexKey,
    pub code: Vec<i128>,
    pub rows: RoaringBitmap,
}

impl PostingRow {
    pub open spec fn sound(&self) -> bool {
        numbers(self.code@) == key_code(self.key.key())
    }
}

/// Keys in ascending order, each with its rows.
pub struct PostingTable {
    pub entries: Vec<PostingRow>,
}

/// The rows of an entry, if there is one.
pub open spec fn entry_rows(entry: Option<(Key, Set<u32>)>) -> Set<u32> {
    match entry {
        Some(entry) => entry.1,
        None => Set::empty(),
    }
}

impl PostingTable {
    pub closed spec fn wf(&self) -> bool {
        &&& forall|i: int| 0 <= i < self.entries.len() ==> (#[trigger] self.entries@[i]).sound()
        &&& forall|i: int, j: int|
            0 <= i < j < self.entries.len() ==> key_less(
                (#[trigger] self.entries@[i]).key.key(),
                (#[trigger] self.entries@[j]).key.key(),
            )
    }

    /// The table has a key like this one at this place.
    pub open spec fn at(&self, place: int, key: Key) -> bool {
        0 <= place < self.entries.len() && alike(self.entries@[place].key.key(), key)
    }

    /// The key of the table that is like this one, with its rows.
    pub open spec fn entry(&self, key: Key) -> Option<(Key, Set<u32>)> {
        if exists|place: int| #[trigger] self.at(place, key) {
            let entry = self.entries@[choose|place: int| #[trigger] self.at(place, key)];
            Some((entry.key.key(), bitmap_rows(entry.rows)))
        } else {
            None
        }
    }

    /// The rows of a key.
    pub open spec fn rows(&self, key: Key) -> Set<u32> {
        entry_rows(self.entry(key))
    }

    pub proof fn lemma_rows(&self, place: int, key: Key)
        requires
            self.wf(),
            self.at(place, key),
        ensures
            self.entry(key) == Some(
                (self.entries@[place].key.key(), bitmap_rows(self.entries@[place].rows)),
            ),
            self.rows(key) == bitmap_rows(self.entries@[place].rows),
    {
        let chosen = choose|place: int| #[trigger] self.at(place, key);
        assert(self.at(chosen, key));
        lemma_code_order(key_code(key), key_code(key), key_code(key));
        if chosen < place {
            assert(key_less(self.entries@[chosen].key.key(), self.entries@[place].key.key()));
        } else if place < chosen {
            assert(key_less(self.entries@[place].key.key(), self.entries@[chosen].key.key()));
        }
    }

    /// Keys that are alike have one entry.
    pub proof fn lemma_alike_entry(&self, key: Key, other: Key)
        requires
            self.wf(),
            alike(key, other),
        ensures
            self.entry(key) == self.entry(other),
    {
        if exists|place: int| #[trigger] self.at(place, key) {
            let place = choose|place: int| #[trigger] self.at(place, key);
            assert(self.at(place, other));
            self.lemma_rows(place, key);
            self.lemma_rows(place, other);
        } else if exists|place: int| #[trigger] self.at(place, other) {
            let place = choose|place: int| #[trigger] self.at(place, other);
            assert(self.at(place, key));
        }
    }

    /// Keys are listed once.
    pub proof fn lemma_distinct(&self, left: int, right: int)
        requires
            self.wf(),
            0 <= left < right < self.entries.len(),
        ensures
            !alike(self.entries@[left].key.key(), self.entries@[right].key.key()),
    {
        let key = self.entries@[left].key.key();
        assert(key_less(key, self.entries@[right].key.key()));
        lemma_code_order(key_code(key), key_code(key), key_code(key));
    }

    pub fn empty() -> (table: Self)
        ensures
            table.wf(),
            table.entries@.len() == 0,
            forall|key: Key| (#[trigger] table.entry(key)) is None,
    {
        PostingTable { entries: Vec::new() }
    }

    /// Where a key is, or where it would be.
    fn find(&self, code: &Vec<i128>, Ghost(key): Ghost<Key>) -> (found: (usize, bool))
        requires
            self.wf(),
            numbers(code@) == key_code(key),
        ensures
            found.0 <= self.entries.len(),
            found.1 ==> self.at(found.0 as int, key),
            !found.1 ==> forall|place: int| !#[trigger] self.at(place, key),
            forall|i: int|
                0 <= i < found.0 ==> key_less((#[trigger] self.entries@[i]).key.key(), key),
            forall|i: int|
                found.0 <= i < self.entries.len() && !(found.1 && i == found.0) ==> key_less(
                    key,
                    (#[trigger] self.entries@[i]).key.key(),
                ),
    {
        let mut low: usize = 0;
        let mut high: usize = self.entries.len();
        while low < high
            invariant
                self.wf(),
                numbers(code@) == key_code(key),
                low <= high <= self.entries.len(),
                forall|i: int| 0 <= i < low ==> key_less((#[trigger] self.entries@[i]).key.key(), key),
                forall|i: int|
                    high <= i < self.entries.len() ==> !key_less(
                        (#[trigger] self.entries@[i]).key.key(),
                        key,
                    ),
            decreases high - low,
        {
            let middle: usize = low + (high - low) / 2;
            assert(self.entries@[middle as int].sound());
            if precedes(&self.entries[middle].code, code) {
                proof {
                    assert forall|i: int| 0 <= i < middle + 1 implies key_less(
                        (#[trigger] self.entries@[i]).key.key(),
                        key,
                    ) by {
                        if i < middle {
                            assert(key_less(
                                self.entries@[i].key.key(),
                                self.entries@[middle as int].key.key(),
                            ));
                            lemma_code_order(
                                key_code(self.entries@[i].key.key()),
                                key_code(self.entries@[middle as int].key.key()),
                                key_code(key),
                            );
                        }
                    }
                }
                low = middle + 1;
            } else {
                proof {
                    assert forall|i: int| middle <= i < self.entries.len() implies !key_less(
                        (#[trigger] self.entries@[i]).key.key(),
                        key,
                    ) by {
                        if i > middle {
                            assert(key_less(
                                self.entries@[middle as int].key.key(),
                                self.entries@[i].key.key(),
                            ));
                            lemma_code_order(
                                key_code(self.entries@[middle as int].key.key()),
                                key_code(self.entries@[i].key.key()),
                                key_code(key),
                            );
                        }
                    }
                }
                high = middle;
            }
        }
        let found = low < self.entries.len() && !precedes(code, &self.entries[low].code);
        proof {
            let here = key_code(key);
            if low < self.entries.len() {
                let there = self.entries@[low as int].key.key();
                assert(self.entries@[low as int].sound());
                lemma_code_order(key_code(there), here, here);
                if found {
                    assert(key_code(there) == here);
                }
            }
            lemma_code_order(here, here, here);
            assert forall|i: int| low <= i < self.entries.len() && !(found && i
                == low) implies key_less(key, (#[trigger] self.entries@[i]).key.key()) by {
                let other = self.entries@[i].key.key();
                lemma_code_order(here, key_code(other), here);
                if i > low {
                    assert(key_less(self.entries@[low as int].key.key(), other));
                    lemma_code_order(
                        here,
                        key_code(self.entries@[low as int].key.key()),
                        key_code(other),
                    );
                }
            }
            if !found {
                assert forall|place: int| !#[trigger] self.at(place, key) by {
                    if self.at(place, key) {
                        if place < low {
                            assert(key_less(self.entries@[place].key.key(), key));
                        } else {
                            assert(key_less(key, self.entries@[place].key.key()));
                        }
                    }
                }
            }
        }
        (low, found)
    }

    /// The rows of a key, if the table has it.
    pub fn get(&self, key: &IndexKey) -> (rows: Option<&RoaringBitmap>)
        requires
            self.wf(),
        ensures
            match rows {
                Some(rows) => self.entry(key.key()) is Some && bitmap_rows(*rows) == self.rows(
                    key.key(),
                ),
                None => self.entry(key.key()) is None,
            },
    {
        let code = code_of(key);
        let (place, found) = self.find(&code, Ghost(key.key()));
        if found {
            proof {
                self.lemma_rows(place as int, key.key());
            }
            Some(&self.entries[place].rows)
        } else {
            None
        }
    }

    /// Gives a key these rows. A key like it that is there stays.
    #[verifier::spinoff_prover]
    pub(crate) fn set(&mut self, key: IndexKey, rows: RoaringBitmap)
        requires
            old(self).wf(),
        ensures
            final(self).wf(),
            forall|other: Key| #[trigger]
                final(self).entry(other) == if alike(other, key.key()) {
                    Some(
                        (
                            match old(self).entry(other) {
                                Some(entry) => entry.0,
                                None => key.key(),
                            },
                            bitmap_rows(rows),
                        ),
                    )
                } else {
                    old(self).entry(other)
                },
    {
        let ghost model = key.key();
        let code = code_of(&key);
        let (place, found) = self.find(&code, Ghost(model));
        let ghost before = *self;
        let ghost held = bitmap_rows(rows);
        let ghost kept = if found {
            self.entries@[place as int].key.key()
        } else {
            model
        };
        assert(found ==> self.entries@[place as int].sound());
        let entry = if found {
            let key = self.entries[place].key.clone();
            PostingRow { key, code, rows }
        } else {
            PostingRow { key, code, rows }
        };
        assert(entry.key.key() == kept && alike(kept, model));
        if found {
            self.entries.set(place, entry);
        } else {
            self.entries.insert(place, entry);
        }
        proof {
            let shift = if found {
                0int
            } else {
                1int
            };
            assert forall|i: int| 0 <= i < self.entries.len() implies #[trigger] self.entries@[i]
                == if i < place {
                before.entries@[i]
            } else if i == place {
                entry
            } else {
                before.entries@[i - shift]
            } by {}
            assert forall|i: int| 0 <= i < self.entries.len() implies (
            #[trigger] self.entries@[i]).sound() by {
                if i < place {
                    assert(before.entries@[i].sound());
                } else if i > place {
                    assert(before.entries@[i - shift].sound());
                }
            }
            assert forall|i: int, j: int| 0 <= i < j < self.entries.len() implies key_less(
                (#[trigger] self.entries@[i]).key.key(),
                (#[trigger] self.entries@[j]).key.key(),
            ) by {
                if j < place {
                    assert(key_less(before.entries@[i].key.key(), before.entries@[j].key.key()));
                } else if i > place {
                    assert(key_less(
                        before.entries@[i - shift].key.key(),
                        before.entries@[j - shift].key.key(),
                    ));
                } else if i < place && j > place {
                    assert(key_less(
                        before.entries@[i].key.key(),
                        before.entries@[j - shift].key.key(),
                    ));
                } else if i < place {
                    assert(key_less(before.entries@[i].key.key(), model));
                } else {
                    assert(key_less(model, before.entries@[j - shift].key.key()));
                }
            }
            assert forall|other: Key| #[trigger]
                self.entry(other) == if alike(other, model) {
                    Some(
                        (
                            match before.entry(other) {
                                Some(entry) => entry.0,
                                None => model,
                            },
                            held,
                        ),
                    )
                } else {
                    before.entry(other)
                } by {
                if alike(other, model) {
                    assert(self.at(place as int, other));
                    self.lemma_rows(place as int, other);
                    if found {
                        assert(before.at(place as int, other));
                        before.lemma_rows(place as int, other);
                    } else if exists|p: int| #[trigger] before.at(p, other) {
                        let p = choose|p: int| #[trigger] before.at(p, other);
                        assert(before.at(p, model));
                    }
                } else if exists|p: int| #[trigger] before.at(p, other) {
                    let p = choose|p: int| #[trigger] before.at(p, other);
                    let q = if p < place {
                        p
                    } else {
                        p + shift
                    };
                    assert(found ==> p != place);
                    assert(self.entries@[q] == before.entries@[p]);
                    assert(self.at(q, other));
                    self.lemma_rows(q, other);
                    before.lemma_rows(p, other);
                } else if exists|q: int| #[trigger] self.at(q, other) {
                    let q = choose|q: int| #[trigger] self.at(q, other);
                    if q < place {
                        assert(before.at(q, other));
                    } else {
                        assert(q != place);
                        assert(before.at(q - shift, other));
                    }
                }
            }
        }
    }

    /// Takes a key away.
    #[verifier::spinoff_prover]
    pub(crate) fn remove(&mut self, key: &IndexKey)
        requires
            old(self).wf(),
        ensures
            final(self).wf(),
            forall|other: Key| #[trigger]
                final(self).entry(other) == if alike(other, key.key()) {
                    None
                } else {
                    old(self).entry(other)
                },
    {
        let ghost model = key.key();
        let code = code_of(key);
        let (place, found) = self.find(&code, Ghost(model));
        if !found {
            proof {
                assert forall|other: Key| alike(other, model) implies (#[trigger] self.entry(
                    other,
                )) is None by {
                    if exists|p: int| #[trigger] self.at(p, other) {
                        let p = choose|p: int| #[trigger] self.at(p, other);
                        assert(self.at(p, model));
                    }
                }
            }
            return;
        }
        let ghost before = *self;
        let _ = self.entries.remove(place);
        proof {
            assert forall|i: int| 0 <= i < self.entries.len() implies #[trigger] self.entries@[i]
                == if i < place {
                before.entries@[i]
            } else {
                before.entries@[i + 1]
            } by {}
            assert forall|i: int| 0 <= i < self.entries.len() implies (
            #[trigger] self.entries@[i]).sound() by {
                if i < place {
                    assert(before.entries@[i].sound());
                } else {
                    assert(before.entries@[i + 1].sound());
                }
            }
            assert forall|i: int, j: int| 0 <= i < j < self.entries.len() implies key_less(
                (#[trigger] self.entries@[i]).key.key(),
                (#[trigger] self.entries@[j]).key.key(),
            ) by {
                let a = if i < place {
                    i
                } else {
                    i + 1
                };
                let b = if j < place {
                    j
                } else {
                    j + 1
                };
                assert(key_less(before.entries@[a].key.key(), before.entries@[b].key.key()));
            }
            lemma_code_order(key_code(model), key_code(model), key_code(model));
            assert forall|q: int| !#[trigger] self.at(q, model) by {
                if self.at(q, model) {
                    if q < place {
                        assert(key_less(before.entries@[q].key.key(), model));
                    } else {
                        assert(key_less(model, before.entries@[q + 1].key.key()));
                    }
                }
            }
            assert forall|other: Key| #[trigger]
                self.entry(other) == if alike(other, model) {
                    None
                } else {
                    before.entry(other)
                } by {
                if alike(other, model) {
                    if exists|p: int| #[trigger] self.at(p, other) {
                        let p = choose|p: int| #[trigger] self.at(p, other);
                        assert(self.at(p, model));
                    }
                } else if exists|p: int| #[trigger] before.at(p, other) {
                    let p = choose|p: int| #[trigger] before.at(p, other);
                    let q = if p < place {
                        p
                    } else {
                        p - 1
                    };
                    assert(p != place);
                    assert(self.entries@[q] == before.entries@[p]);
                    assert(self.at(q, other));
                    self.lemma_rows(q, other);
                    before.lemma_rows(p, other);
                } else if exists|q: int| #[trigger] self.at(q, other) {
                    let q = choose|q: int| #[trigger] self.at(q, other);
                    if q < place {
                        assert(before.at(q, other));
                    } else {
                        assert(before.at(q + 1, other));
                    }
                }
            }
        }
    }

    pub(crate) fn copy(&self) -> (copy: Self)
        requires
            self.wf(),
        ensures
            copy.wf(),
            forall|key: Key| #[trigger] copy.entry(key) == self.entry(key),
    {
        let mut copy = PostingTable::empty();
        for index in 0..self.entries.len()
            invariant
                self.wf(),
                copy.entries.len() == index,
                forall|i: int|
                    0 <= i < index ==> (#[trigger] copy.entries@[i]).key.key()
                        == self.entries@[i].key.key() && copy.entries@[i].sound() && bitmap_rows(
                        copy.entries@[i].rows,
                    ) == bitmap_rows(self.entries@[i].rows),
        {
            let entry = &self.entries[index];
            assert(self.entries@[index as int].sound());
            let key = entry.key.clone();
            let code = code_of(&key);
            copy.entries.push(PostingRow { key, code, rows: copy_bitmap(&entry.rows) });
        }
        proof {
            assert forall|i: int, j: int| 0 <= i < j < copy.entries.len() implies key_less(
                (#[trigger] copy.entries@[i]).key.key(),
                (#[trigger] copy.entries@[j]).key.key(),
            ) by {
                assert(key_less(self.entries@[i].key.key(), self.entries@[j].key.key()));
            }
            assert forall|key: Key| #[trigger] copy.entry(key) == self.entry(key) by {
                if exists|p: int| #[trigger] self.at(p, key) {
                    let p = choose|p: int| #[trigger] self.at(p, key);
                    assert(copy.entries@[p].key.key() == self.entries@[p].key.key());
                    assert(copy.at(p, key));
                    copy.lemma_rows(p, key);
                    self.lemma_rows(p, key);
                } else if exists|p: int| #[trigger] copy.at(p, key) {
                    let p = choose|p: int| #[trigger] copy.at(p, key);
                    assert(self.at(p, key));
                }
            }
        }
        copy
    }
}

/// Rows with changes applied: a changed row is there if the change says so.
pub open spec fn changed_rows(base: Set<u32>, changes: Map<u128, bool>) -> Set<u32> {
    Set::new(
        |row: u32|
            if changes.dom().contains(row as u128) {
                changes[row as u128]
            } else {
                base.contains(row)
            },
    )
}

/// The first rows of a set in ascending order, at most `limit`.
pub open spec fn first_of(result: Seq<u32>, rows: Set<u32>, limit: int) -> bool {
    &&& result.len() <= limit
    &&& forall|i: int, j: int|
        0 <= i < j < result.len() ==> (#[trigger] result[i]) < (#[trigger] result[j])
    &&& forall|i: int| 0 <= i < result.len() ==> rows.contains(#[trigger] result[i])
    &&& forall|row: u32|
        rows.contains(row) ==> (#[trigger] result.contains(row)) || (result.len() == limit
            && forall|i: int| 0 <= i < result.len() ==> (#[trigger] result[i]) < row)
}

/// A listing of changes by ascending row.
pub open spec fn lists_changes(list: Seq<(u32, bool)>, changes: Map<u128, bool>) -> bool {
    &&& forall|i: int, j: int|
        0 <= i < j < list.len() ==> (#[trigger] list[i]).0 < (#[trigger] list[j]).0
    &&& forall|i: int|
        0 <= i < list.len() ==> changes.dom().contains((#[trigger] list[i]).0 as u128)
            && changes[list[i].0 as u128] == list[i].1
    &&& forall|row: u32| #[trigger]
        changes.dom().contains(row as u128) ==> exists|i: int|
            0 <= i < list.len() && (#[trigger] list[i]).0 == row
}

pub(crate) fn change_list(changes: &PersistentMap<bool>) -> (list: Vec<(u32, bool)>)
    requires
        changes.wf(),
        forall|row: u128| #[trigger] changes@.dom().contains(row) ==> row <= u32::MAX,
    ensures
        lists_changes(list@, changes@),
        list@.len() == changes@.dom().len(),
{
    let entries = changes.iter();
    let mut list: Vec<(u32, bool)> = Vec::with_capacity(entries.len());
    for index in 0..entries.len()
        invariant
            forall|row: u128| #[trigger] changes@.dom().contains(row) ==> row <= u32::MAX,
            forall|i: int|
                0 <= i < entries@.len() ==> changes@.dom().contains((#[trigger] entries@[i]).0)
                    && changes@[entries@[i].0] == *entries@[i].1,
            list@.len() == index,
            forall|i: int|
                0 <= i < index ==> (#[trigger] list@[i]).0 as u128 == entries@[i].0 && list@[i].1
                    == *entries@[i].1,
    {
        assert(changes@.dom().contains(entries@[index as int].0));
        list.push((entries[index].0 as u32, *entries[index].1));
    }
    proof {
        assert forall|i: int, j: int| 0 <= i < j < list@.len() implies (#[trigger] list@[i]).0 < (
        #[trigger] list@[j]).0 by {
            assert(entries@[i].0 < entries@[j].0);
        }
        assert forall|i: int| 0 <= i < list@.len() implies changes@.dom().contains(
            (#[trigger] list@[i]).0 as u128,
        ) && changes@[list@[i].0 as u128] == list@[i].1 by {
            assert(changes@.dom().contains(entries@[i].0));
        }
        assert forall|row: u32| #[trigger] changes@.dom().contains(row as u128) implies exists|
            i: int,
        | 0 <= i < list@.len() && (#[trigger] list@[i]).0 == row by {
            let i = choose|i: int|
                0 <= i < entries@.len() && (#[trigger] entries@[i]).0 == row as u128;
            assert(list@[i].0 == row);
        }
    }
    list
}

/// Applies changes to a bitmap.
pub(crate) fn apply_changes(rows: &mut RoaringBitmap, changes: &PersistentMap<bool>)
    requires
        changes.wf(),
        forall|row: u128| #[trigger] changes@.dom().contains(row) ==> row <= u32::MAX,
    ensures
        bitmap_rows(*final(rows)) == changed_rows(bitmap_rows(*old(rows)), changes@),
{
    let list = change_list(changes);
    let ghost base = bitmap_rows(*rows);
    for index in 0..list.len()
        invariant
            base == bitmap_rows(*old(rows)),
            lists_changes(list@, changes@),
            forall|row: u32| #[trigger]
                bitmap_rows(*rows).contains(row) <==> partly_changed(base, list@, index as int, row),
    {
        let (row, present) = list[index];
        let ghost before = bitmap_rows(*rows);
        if present {
            let _ = add_row(rows, row);
        } else {
            let _ = drop_row(rows, row);
        }
        proof {
            assert forall|other: u32| #[trigger]
                bitmap_rows(*rows).contains(other) <==> partly_changed(
                    base,
                    list@,
                    index + 1,
                    other,
                ) by {
                assert(before.contains(other) <==> partly_changed(base, list@, index as int, other));
                lemma_partly_step(base, list@, index as int, other);
            }
        }
    }
    proof {
        assert(bitmap_rows(*rows) =~= changed_rows(base, changes@)) by {
            assert forall|row: u32|
                bitmap_rows(*rows).contains(row) <==> changed_rows(base, changes@).contains(row) by {
                lemma_fully_changed(base, list@, changes@, row);
                assert(bitmap_rows(*rows).contains(row) <==> partly_changed(
                    base,
                    list@,
                    list@.len() as int,
                    row,
                ));
            }
        }
    }
}

/// The row is there after the first changes.
spec fn partly_changed(base: Set<u32>, list: Seq<(u32, bool)>, count: int, row: u32) -> bool {
    if exists|i: int| 0 <= i < count && (#[trigger] list[i]).0 == row {
        list[choose|i: int| 0 <= i < count && (#[trigger] list[i]).0 == row].1
    } else {
        base.contains(row)
    }
}

proof fn lemma_partly_step(base: Set<u32>, list: Seq<(u32, bool)>, count: int, row: u32)
    requires
        0 <= count < list.len(),
        forall|i: int, j: int|
            0 <= i < j < list.len() ==> (#[trigger] list[i]).0 < (#[trigger] list[j]).0,
    ensures
        partly_changed(base, list, count + 1, row) == if row == list[count].0 {
            list[count].1
        } else {
            partly_changed(base, list, count, row)
        },
{
    if row == list[count].0 {
        assert(0 <= count < count + 1 && list[count].0 == row);
        let i = choose|i: int| 0 <= i < count + 1 && (#[trigger] list[i]).0 == row;
        if i < count {
            assert(list[i].0 < list[count].0);
        }
    } else {
        if exists|i: int| 0 <= i < count && (#[trigger] list[i]).0 == row {
            let i = choose|i: int| 0 <= i < count && (#[trigger] list[i]).0 == row;
            assert(0 <= i < count + 1 && list[i].0 == row);
            let j = choose|j: int| 0 <= j < count + 1 && (#[trigger] list[j]).0 == row;
            if i < j {
                assert(list[i].0 < list[j].0);
            } else if j < i {
                assert(list[j].0 < list[i].0);
            }
        } else if exists|i: int| 0 <= i < count + 1 && (#[trigger] list[i]).0 == row {
            let i = choose|i: int| 0 <= i < count + 1 && (#[trigger] list[i]).0 == row;
            assert(i < count);
        }
    }
}

proof fn lemma_fully_changed(
    base: Set<u32>,
    list: Seq<(u32, bool)>,
    changes: Map<u128, bool>,
    row: u32,
)
    requires
        lists_changes(list, changes),
    ensures
        partly_changed(base, list, list.len() as int, row) == changed_rows(base, changes).contains(
            row,
        ),
{
    if changes.dom().contains(row as u128) {
        let i = choose|i: int| 0 <= i < list.len() && (#[trigger] list[i]).0 == row;
        assert(0 <= i < list.len() && list[i].0 == row);
        let j = choose|j: int| 0 <= j < list.len() && (#[trigger] list[j]).0 == row;
        assert(changes[list[j].0 as u128] == list[j].1);
    } else if exists|i: int| 0 <= i < list.len() && (#[trigger] list[i]).0 == row {
        let i = choose|i: int| 0 <= i < list.len() && (#[trigger] list[i]).0 == row;
        assert(changes.dom().contains(list[i].0 as u128));
    }
}

/// The first rows of a posting, in ascending order and at most `limit`, without more work than the
/// limit and the changes ask for.
#[verifier::rlimit(60)]
#[verifier::spinoff_prover]
pub(crate) fn bounded_bitmap_with_changes(
    base: Option<&RoaringBitmap>,
    changes: Option<&PersistentMap<bool>>,
    limit: usize,
) -> (rows: Vec<u32>)
    requires
        changes matches Some(changes) ==> changes.wf() && forall|row: u128| #[trigger]
            changes@.dom().contains(row) ==> row <= u32::MAX,
    ensures
        first_of(
            rows@,
            changed_rows(
                match base {
                    Some(base) => bitmap_rows(*base),
                    None => Set::empty(),
                },
                match changes {
                    Some(changes) => changes@,
                    None => Map::empty(),
                },
            ),
            limit as int,
        ),
{
    let ghost before = match base {
        Some(base) => bitmap_rows(*base),
        None => Set::empty(),
    };
    let ghost map: Map<u128, bool> = match changes {
        Some(changes) => changes@,
        None => Map::empty(),
    };
    let ghost target = changed_rows(before, map);
    let list: Vec<(u32, bool)> = match changes {
        Some(changes) => change_list(changes),
        None => Vec::new(),
    };
    let ghost wanted = limit + list@.len();
    let old_rows: Vec<u32> = match base {
        Some(base) => match limit.checked_add(list.len()) {
            Some(count) => first_rows(base, count),
            None => rows_of_bitmap(base),
        },
        None => Vec::new(),
    };
    let mut rows: Vec<u32> = Vec::new();
    let mut b: usize = 0;
    let mut c: usize = 0;
    proof {
        if base is Some && limit + list@.len() > usize::MAX {
            assert forall|i: int| 0 <= i < old_rows@.len() implies before.contains(
                #[trigger] old_rows@[i],
            ) by {
                assert(old_rows@.contains(old_rows@[i]));
            }
        }
        assert(lists_changes(list@, map));
        assert(ascending_rows(old_rows@));
        assert(old_rows.len() <= wanted);
        assert forall|row: u32|
            before.contains(row) implies (#[trigger] old_rows@.contains(row)) || (old_rows@.len()
            == wanted && forall|i: int| 0 <= i < old_rows@.len() ==> (#[trigger] old_rows@[i])
            < row) by {}
        assert(merge_sources(before, map, old_rows@, list@, wanted));
        assert forall|row: u32| target.contains(row) implies !#[trigger] decided(
            old_rows@,
            0,
            list@,
            0,
            wanted,
            row,
        ) by {
            if map.dom().contains(row as u128) {
                let k = choose|k: int| 0 <= k < list@.len() && (#[trigger] list@[k]).0 == row;
                if k > 0 {
                    assert(list@[0].0 < list@[k].0);
                }
            } else if old_rows@.contains(row) {
                let k = choose|k: int| 0 <= k < old_rows@.len() && old_rows@[k] == row;
                if k > 0 {
                    assert(old_rows@[0] < old_rows@[k]);
                }
            } else {
                assert(before.contains(row));
                if old_rows@.len() > 0 {
                    assert(old_rows@[old_rows@.len() - 1] < row);
                }
            }
        }
    }
    while rows.len() < limit && (b < old_rows.len() || c < list.len())
        invariant
            merge_sources(before, map, old_rows@, list@, wanted),
            target == changed_rows(before, map),
            wanted == limit + list@.len(),
            rows@.len() <= limit,
            b <= rows@.len() + c,
            merged(target, old_rows@, b as int, list@, c as int, rows@, wanted),
        decreases old_rows@.len() - b + list@.len() - c,
    {
        let take_base = b < old_rows.len() && (c >= list.len() || old_rows[b] <= list[c].0);
        let take_change = c < list.len() && (b >= old_rows.len() || list[c].0 <= old_rows[b]);
        let row: u32 = if take_base {
            old_rows[b]
        } else {
            list[c].0
        };
        let present: bool = if take_change {
            list[c].1
        } else {
            true
        };
        let ghost seen = rows@;
        proof {
            if old_rows@.len() == wanted {
                // A cut base is not used up before the limit is reached.
                assert(b < old_rows@.len());
            }
            lemma_merge_step(
                before,
                map,
                old_rows@,
                b as int,
                list@,
                c as int,
                seen,
                wanted,
                take_base,
                take_change,
                row,
                present,
            );
        }
        if take_base {
            b = b + 1;
        }
        if take_change {
            c = c + 1;
        }
        if present {
            rows.push(row);
        }
    }
    proof {
        assert forall|row: u32| target.contains(row) implies (#[trigger] rows@.contains(row)) || (
        rows@.len() == limit && forall|i: int| 0 <= i < rows@.len() ==> (#[trigger] rows@[i])
            < row) by {
            if !rows@.contains(row) {
                assert(!decided(old_rows@, b as int, list@, c as int, wanted, row));
                if rows@.len() < limit {
                    assert(b == old_rows@.len() && c == list@.len());
                    assert(old_rows@.len() < wanted);
                }
                assert forall|i: int| 0 <= i < rows@.len() implies (#[trigger] rows@[i]) < row by {
                    if b < old_rows@.len() && row >= old_rows@[b as int] {
                        assert(rows@[i] < old_rows@[b as int]);
                    } else if c < list@.len() && row >= list@[c as int].0 {
                        assert(rows@[i] < list@[c as int].0);
                    } else {
                        assert(old_rows@.len() == wanted);
                        assert(old_rows@.len() > 0 ==> rows@[i] <= old_rows@.last());
                    }
                }
            }
        }
    }
    rows
}

/// What a merge reads: the first rows of a base and its changes.
spec fn merge_sources(
    before: Set<u32>,
    map: Map<u128, bool>,
    base: Seq<u32>,
    list: Seq<(u32, bool)>,
    wanted: int,
) -> bool {
    &&& lists_changes(list, map)
    &&& ascending_rows(base)
    &&& base.len() <= wanted
    &&& forall|i: int| 0 <= i < base.len() ==> before.contains(#[trigger] base[i])
    &&& forall|row: u32|
        before.contains(row) ==> (#[trigger] base.contains(row)) || (base.len() == wanted && forall|
            i: int,
        | 0 <= i < base.len() ==> (#[trigger] base[i]) < row)
}

/// A merge has come past a row: neither side has it ahead, and it is not behind a cut base.
spec fn decided(
    base: Seq<u32>,
    b: int,
    list: Seq<(u32, bool)>,
    c: int,
    wanted: int,
    row: u32,
) -> bool {
    &&& b < base.len() ==> row < base[b]
    &&& c < list.len() ==> row < list[c].0
    &&& base.len() == wanted ==> base.len() > 0 && row <= base.last()
}

/// Where a merge stands: it holds the wanted rows that it has come past.
spec fn merged(
    target: Set<u32>,
    base: Seq<u32>,
    b: int,
    list: Seq<(u32, bool)>,
    c: int,
    rows: Seq<u32>,
    wanted: int,
) -> bool {
    &&& 0 <= b <= base.len()
    &&& 0 <= c <= list.len()
    &&& ascending_rows(rows)
    &&& forall|i: int| 0 <= i < rows.len() ==> target.contains(#[trigger] rows[i])
    &&& forall|i: int, j: int|
        0 <= i < rows.len() && b <= j < base.len() ==> (#[trigger] rows[i]) < (#[trigger] base[j])
    &&& forall|i: int, j: int|
        0 <= i < rows.len() && c <= j < list.len() ==> (#[trigger] rows[i]) < (
        #[trigger] list[j]).0
    &&& forall|i: int, j: int|
        0 <= i < b && c <= j < list.len() ==> (#[trigger] base[i]) < (#[trigger] list[j]).0
    &&& forall|i: int, j: int|
        0 <= i < c && b <= j < base.len() ==> (#[trigger] list[i]).0 < (#[trigger] base[j])
    &&& base.len() == wanted ==> forall|i: int|
        0 <= i < rows.len() ==> base.len() > 0 && (#[trigger] rows[i]) <= base.last()
    &&& forall|row: u32|
        target.contains(row) && decided(base, b, list, c, wanted, row)
            ==> #[trigger] rows.contains(row)
}

#[verifier::rlimit(60)]
#[verifier::spinoff_prover]
proof fn lemma_merge_step(
    before: Set<u32>,
    map: Map<u128, bool>,
    base: Seq<u32>,
    b: int,
    list: Seq<(u32, bool)>,
    c: int,
    rows: Seq<u32>,
    wanted: int,
    take_base: bool,
    take_change: bool,
    row: u32,
    present: bool,
)
    requires
        merge_sources(before, map, base, list, wanted),
        merged(changed_rows(before, map), base, b, list, c, rows, wanted),
        b < base.len() || c < list.len(),
        base.len() == wanted ==> b < base.len(),
        take_base == (b < base.len() && (c >= list.len() || base[b] <= list[c].0)),
        take_change == (c < list.len() && (b >= base.len() || list[c].0 <= base[b])),
        row == if take_base {
            base[b]
        } else {
            list[c].0
        },
        present == if take_change {
            list[c].1
        } else {
            true
        },
    ensures
        merged(
            changed_rows(before, map),
            base,
            if take_base {
                b + 1
            } else {
                b
            },
            list,
            if take_change {
                c + 1
            } else {
                c
            },
            if present {
                rows.push(row)
            } else {
                rows
            },
            wanted,
        ),
{
    let target = changed_rows(before, map);
    let b1 = if take_base {
        b + 1
    } else {
        b
    };
    let c1 = if take_change {
        c + 1
    } else {
        c
    };
    let after = if present {
        rows.push(row)
    } else {
        rows
    };
    if take_change {
        assert(map.dom().contains(list[c].0 as u128));
        assert(list[c].0 == row);
    } else {
        assert(before.contains(base[b]));
        assert(!map.dom().contains(row as u128)) by {
            if map.dom().contains(row as u128) {
                let k = choose|k: int| 0 <= k < list.len() && (#[trigger] list[k]).0 == row;
                if k < c {
                    assert(list[k].0 < base[b]);
                } else if k > c {
                    assert(list[c].0 < list[k].0);
                }
            }
        }
    }
    assert(target.contains(row) == present);
    assert forall|i: int, j: int| 0 <= i < j < after.len() implies (#[trigger] after[i]) < (
    #[trigger] after[j]) by {
        if j == rows.len() {
            if take_base {
                assert(rows[i] < base[b]);
            } else {
                assert(rows[i] < list[c].0);
            }
        } else {
            assert(rows[i] < rows[j]);
        }
    }
    assert forall|i: int| 0 <= i < after.len() implies target.contains(#[trigger] after[i]) by {
        if i < rows.len() {
            assert(target.contains(rows[i]));
        }
    }
    assert forall|i: int, j: int| 0 <= i < after.len() && b1 <= j < base.len() implies (
    #[trigger] after[i]) < (#[trigger] base[j]) by {
        if i < rows.len() {
            assert(rows[i] < base[j]);
        } else if take_base {
            assert(base[b] < base[j]);
        } else {
            if j > b {
                assert(base[b] < base[j]);
            }
        }
    }
    assert forall|i: int, j: int| 0 <= i < after.len() && c1 <= j < list.len() implies (
    #[trigger] after[i]) < (#[trigger] list[j]).0 by {
        if i < rows.len() {
            assert(rows[i] < list[j].0);
        } else if take_change {
            assert(list[c].0 < list[j].0);
        } else if j > c {
            assert(list[c].0 < list[j].0);
        }
    }
    assert forall|i: int, j: int| 0 <= i < b1 && c1 <= j < list.len() implies (#[trigger] base[i])
        < (#[trigger] list[j]).0 by {
        if i == b {
            if j > c {
                assert(list[c].0 < list[j].0);
            }
        }
    }
    assert forall|i: int, j: int| 0 <= i < c1 && b1 <= j < base.len() implies (
    #[trigger] list[i]).0 < (#[trigger] base[j]) by {
        if i == c {
            if j > b {
                assert(base[b] < base[j]);
            }
        }
    }
    if base.len() == wanted {
        if b < base.len() - 1 {
            assert(base[b] < base[base.len() - 1]);
        }
    }
    assert forall|other: u32|
        target.contains(other) && decided(
            base,
            b1,
            list,
            c1,
            wanted,
            other,
        ) implies #[trigger] after.contains(other) by {
        if other == row {
            assert(after[rows.len() as int] == row);
        } else {
            if b < base.len() && other >= base[b] {
                assert(take_base);
                if before.contains(other) {
                    assert(base.contains(other)) by {
                        if base.len() == wanted && !base.contains(other) {
                            assert(base[base.len() - 1] < other);
                        }
                    }
                    let k = choose|k: int| 0 <= k < base.len() && base[k] == other;
                    if k < b {
                        assert(base[k] < base[b]);
                    } else if k > b {
                        if k > b1 {
                            assert(base[b1] < base[k]);
                        }
                    }
                } else {
                    assert(map.dom().contains(other as u128));
                    let k = choose|k: int| 0 <= k < list.len() && (#[trigger] list[k]).0 == other;
                    if k < c {
                        assert(list[k].0 < base[b]);
                    } else if k > c1 {
                        assert(list[c1].0 < list[k].0);
                    }
                }
            }
            if c < list.len() && other >= list[c].0 {
                assert(take_change);
                if map.dom().contains(other as u128) {
                    let k = choose|k: int| 0 <= k < list.len() && (#[trigger] list[k]).0 == other;
                    if k < c {
                        assert(list[k].0 < list[c].0);
                    } else if k > c1 {
                        assert(list[c1].0 < list[k].0);
                    }
                } else {
                    assert(before.contains(other));
                    assert(base.contains(other)) by {
                        if base.len() == wanted && !base.contains(other) {
                            assert(base[base.len() - 1] < other);
                        }
                    }
                    let k = choose|k: int| 0 <= k < base.len() && base[k] == other;
                    if k < b {
                        assert(base[k] < list[c].0);
                    } else if k > b1 {
                        assert(base[b1] < base[k]);
                    }
                }
            }
            assert(decided(base, b, list, c, wanted, other));
            assert(rows.contains(other));
            let k = choose|k: int| 0 <= k < rows.len() && rows[k] == other;
            assert(after[k] == other);
        }
    }
}

pub open spec fn ascending_rows(rows: Seq<u32>) -> bool {
    forall|i: int, j: int| 0 <= i < j < rows.len() ==> (#[trigger] rows[i]) < (#[trigger] rows[j])
}

} // verus!
