//! Equality and range indexes over postings with changes.

use crate::arith::{saturated64, saturating_product64, spec_max};
use crate::error::{fails_with, ErrorCode, Result};
use crate::index::bitmap::{
    bitmap_rows, copy_bitmap, empty_bitmap, holds_row, lemma_rows_finite, row_total, unite,
};
use crate::index::keys::{
    alike, code_of, index_key_estimated_bytes, is_alike, key_code, key_less, key_size, kind_place,
    law_keys_of_one_kind_compare_like_values, law_kinds_compare_in_order, law_plain_keys,
    lemma_code_order, lemma_size_positive, plain_key, precedes, value_key, IndexKey,
    Key,
};
use crate::index::postings::{
    apply_changes, bounded_bitmap_with_changes, bucket_key, change_list, changed_rows, entry_rows,
    first_of, lists_changes, lookup_key, PostingDomain, PostingTable,
};
use crate::persistent::radix::PersistentMap;
use crate::shared::{lemma_handle_faithful, Handle};
use crate::values::{Scalar, ScalarValue};
use roaring::RoaringBitmap;
use vstd::prelude::*;
use vstd::utf8::encode_utf8;

verus! {

/// The changes of one key: which rows came and which went.
pub struct PostingDelta {
    pub key: IndexKey,
    pub changes: PersistentMap<bool>,
}

/// Rows by key: an immutable base that generations share, and changes on top of it. The base holds a
/// key under its order, so keys that are alike are one there. Changes are found by the digest of the
/// bits of their key, so changes of keys that are alike stand apart until they are written into a base.
pub struct Postings {
    domain: PostingDomain,
    base: Handle<PostingTable>,
    deltas: PersistentMap<Handle<Vec<PostingDelta>>>,
}

impl PostingDelta {
    /// Changes of row ordinals.
    pub open spec fn sound(&self) -> bool {
        &&& self.changes.wf()
        &&& forall|row: u128| #[trigger] self.changes@.dom().contains(row) ==> row <= u32::MAX
    }
}

impl Clone for Postings {
    fn clone(&self) -> (copy: Self)
        ensures
            copy == *self,
    {
        Postings { domain: self.domain, base: self.base.clone(), deltas: self.deltas.clone() }
    }
}

/// The entry of a key once changes are written one after the other: a key like it that is there stays,
/// and one without rows goes.
pub open spec fn written_entry(
    key: Key,
    start: Option<(Key, Set<u32>)>,
    changes: Seq<(Key, Map<u128, bool>)>,
) -> Option<(Key, Set<u32>)>
    decreases changes.len(),
{
    if changes.len() == 0 {
        start
    } else {
        let before = written_entry(key, start, changes.drop_last());
        let (changed, last) = changes.last();
        if !alike(changed, key) {
            before
        } else {
            let rows = changed_rows(entry_rows(before), last);
            if rows == Set::<u32>::empty() {
                None
            } else {
                Some(
                    (
                        match before {
                            Some(entry) => entry.0,
                            None => changed,
                        },
                        rows,
                    ),
                )
            }
        }
    }
}

/// The first key of a list that is like this one.
pub open spec fn first_alike(key: Key, changes: Seq<(Key, Map<u128, bool>)>) -> Option<Key>
    decreases changes.len(),
{
    if changes.len() == 0 {
        None
    } else if first_alike(key, changes.drop_last()) is Some {
        first_alike(key, changes.drop_last())
    } else if alike(changes.last().0, key) {
        Some(changes.last().0)
    } else {
        None
    }
}

proof fn lemma_written_concat(
    key: Key,
    start: Option<(Key, Set<u32>)>,
    first: Seq<(Key, Map<u128, bool>)>,
    second: Seq<(Key, Map<u128, bool>)>,
)
    ensures
        written_entry(key, start, first + second) == written_entry(
            key,
            written_entry(key, start, first),
            second,
        ),
    decreases second.len(),
{
    if second.len() == 0 {
        assert(first + second =~= first);
    } else {
        lemma_written_concat(key, start, first, second.drop_last());
        assert((first + second).drop_last() =~= first + second.drop_last());
        assert((first + second).last() == second.last());
    }
}

/// Postings after a row came to a key or left it. A lookup finds the change where its key is like the
/// one that was changed and has the same digest. Where no more changes can be counted, all are written
/// into the base first, which leaves what plain keys find as it was.
pub open spec fn row_put(
    before: Postings,
    after: Postings,
    key: Key,
    row: u32,
    present: bool,
) -> bool {
    &&& after.spec_domain() == before.spec_domain()
    &&& forall|other: Key| #[trigger]
        after.rows(other) == if before.same_slot(key, other) {
            if present {
                before.counted_rows(key, other).insert(row)
            } else {
                before.counted_rows(key, other).remove(row)
            }
        } else {
            before.counted_rows(key, other)
        }
    &&& forall|other: Key|
        before.has_room(key) || plain_key(other) ==> #[trigger] before.counted_rows(key, other)
            == before.rows(other)
    &&& forall|count: nat| #[trigger] before.written(count) ==> after.written(count + 1)
    &&& before.has_room(key) && present && before.additions() ==> after.additions()
}

impl Postings {
    /// No key has a row.
    pub fn empty(domain: PostingDomain) -> (postings: Self)
        ensures
            postings.wf(),
            postings.spec_domain() == domain,
            postings.written(0),
            postings.additions(),
            forall|key: Key| #[trigger] postings.rows(key) == Set::<u32>::empty(),
    {
        let postings = Postings {
            domain,
            base: Handle::new(PostingTable::empty()),
            deltas: PersistentMap::default(),
        };
        proof {
            assert(postings.deltas@.dom() =~= Set::<u128>::empty());
            assert forall|key: Key| #[trigger] postings.rows(key) == Set::<u32>::empty() by {
                assert(postings.table().entry(key) is None);
                assert(postings.rows(key) =~= Set::<u32>::empty());
            }
        }
        postings
    }

    spec fn table(&self) -> PostingTable {
        self.base.spec_value()
    }

    spec fn bucket(&self, hash: u128) -> Seq<PostingDelta> {
        if self.deltas@.dom().contains(hash) {
            self.deltas@[hash].spec_value()@
        } else {
            Seq::empty()
        }
    }

    /// The bucket has the changes of the key at this place.
    spec fn changed_at(&self, hash: u128, place: int, key: Key) -> bool {
        0 <= place < self.bucket(hash).len() && alike(self.bucket(hash)[place].key.key(), key)
    }

    spec fn changes(&self, key: Key) -> Map<u128, bool> {
        let hash = lookup_key(self.domain, key);
        if exists|place: int| #[trigger] self.changed_at(hash, place, key) {
            self.bucket(hash)[choose|place: int| #[trigger]
                self.changed_at(hash, place, key)].changes@
        } else {
            Map::empty()
        }
    }

    /// What the keys are.
    pub closed spec fn spec_domain(&self) -> PostingDomain {
        self.domain
    }

    /// The changes of one key are found under the other.
    pub open spec fn same_slot(&self, key: Key, other: Key) -> bool {
        alike(key, other) && lookup_key(self.spec_domain(), key) == lookup_key(
            self.spec_domain(),
            other,
        )
    }

    /// The rows that a lookup of a key finds.
    pub closed spec fn rows(&self, key: Key) -> Set<u32> {
        changed_rows(self.table().rows(key), self.changes(key))
    }

    /// What a lookup finds where one more change of a key is to be counted.
    pub open spec fn counted_rows(&self, key: Key, other: Key) -> Set<u32> {
        if self.has_room(key) {
            self.rows(other)
        } else {
            self.sealed_rows(other)
        }
    }

    /// The key of the base that is like this one, with its rows.
    pub closed spec fn base_entry(&self, key: Key) -> Option<(Key, Set<u32>)> {
        self.table().entry(key)
    }

    /// The rows of a key in the base.
    pub open spec fn base_rows(&self, key: Key) -> Set<u32> {
        entry_rows(self.base_entry(key))
    }

    /// The changes of one digest, in the order in which their keys were first changed.
    spec fn bucket_changes(&self, hash: u128) -> Seq<(Key, Map<u128, bool>)> {
        Seq::new(
            self.bucket(hash).len(),
            |i: int| (self.bucket(hash)[i].key.key(), self.bucket(hash)[i].changes@),
        )
    }

    /// The changes of the digests below a limit.
    spec fn changes_below(&self, limit: int) -> Seq<(Key, Map<u128, bool>)>
        decreases limit,
    {
        if limit <= 0 {
            Seq::empty()
        } else {
            self.changes_below(limit - 1) + self.bucket_changes((limit - 1) as u128)
        }
    }

    /// All changes by ascending digest of their keys; those of one digest in the order in which their
    /// keys were first changed.
    pub closed spec fn change_order(&self) -> Seq<(Key, Map<u128, bool>)> {
        self.changes_below(u128::MAX as int + 1)
    }

    /// The entry of a key once all changes are written into the base.
    pub open spec fn sealed_entry(&self, key: Key) -> Option<(Key, Set<u32>)> {
        written_entry(key, self.base_entry(key), self.change_order())
    }

    /// The rows of a key once all changes are written into the base.
    pub open spec fn sealed_rows(&self, key: Key) -> Set<u32> {
        entry_rows(self.sealed_entry(key))
    }

    /// No change stands beside the base.
    pub closed spec fn is_sealed(&self) -> bool {
        self.deltas@.dom() == Set::<u128>::empty()
    }

    /// No more than this many changes were made since the base was written.
    pub closed spec fn written(&self, count: nat) -> bool {
        &&& self.deltas@.dom().len() <= count
        &&& forall|hash: u128, i: int|
            0 <= i < self.bucket(hash).len() ==> (#[trigger] self.bucket(
                hash,
            )[i]).changes@.dom().len() <= count
    }

    /// The base is empty, and every change added a row.
    pub closed spec fn additions(&self) -> bool {
        &&& forall|key: Key| (#[trigger] self.table().entry(key)) is None
        &&& forall|hash: u128, i: int, row: u128|
            0 <= i < self.bucket(hash).len() && self.bucket(hash)[i].changes@.dom().contains(row)
                ==> #[trigger] self.bucket(hash)[i].changes@[row]
    }

    /// Every change stands under the digest of its key, and no two keys of a digest are alike.
    pub closed spec fn wf(&self) -> bool {
        &&& self.table().wf()
        &&& self.deltas.wf()
        &&& forall|hash: u128, i: int|
            0 <= i < self.bucket(hash).len() ==> (#[trigger] self.bucket(hash)[i]).sound()
                && lookup_key(self.domain, self.bucket(hash)[i].key.key()) == hash
        &&& forall|hash: u128, i: int, j: int|
            0 <= i < j < self.bucket(hash).len() ==> !alike(
                (#[trigger] self.bucket(hash)[i]).key.key(),
                (#[trigger] self.bucket(hash)[j]).key.key(),
            )
    }

    proof fn lemma_changes(&self, hash: u128, place: int, key: Key)
        requires
            self.wf(),
            hash == lookup_key(self.domain, key),
            self.changed_at(hash, place, key),
        ensures
            self.changes(key) == self.bucket(hash)[place].changes@,
    {
        let chosen = choose|place: int| #[trigger] self.changed_at(hash, place, key);
        assert(self.changed_at(hash, chosen, key));
        if chosen < place {
            assert(!alike(self.bucket(hash)[chosen].key.key(), self.bucket(hash)[place].key.key()));
        } else if place < chosen {
            assert(!alike(self.bucket(hash)[place].key.key(), self.bucket(hash)[chosen].key.key()));
        }
    }

    /// Few changes leave room for one more.
    pub proof fn lemma_room(&self, count: nat, key: Key)
        requires
            self.wf(),
            self.written(count),
            count < usize::MAX,
        ensures
            self.has_room(key),
    {
        let hash = lookup_key(self.domain, key);
        if exists|place: int| #[trigger] self.changed_at(hash, place, key) {
            let place = choose|place: int| #[trigger] self.changed_at(hash, place, key);
            self.lemma_changes(hash, place, key);
            assert(self.bucket(hash)[place].changes@.dom().len() <= count);
        } else {
            assert(Map::<u128, bool>::empty().dom() =~= Set::<u128>::empty());
        }
    }

    /// A bound on the changes may be larger.
    pub proof fn lemma_written_grows(&self, count: nat)
        requires
            self.written(count),
        ensures
            self.written(count + 1),
    {
        assert forall|hash: u128, i: int| 0 <= i < self.bucket(hash).len() implies (
        #[trigger] self.bucket(hash)[i]).changes@.dom().len() <= count + 1 by {
            assert(self.bucket(hash)[i].changes@.dom().len() <= count);
        }
    }

    /// A lookup of a key finds what a lookup of its slot finds.
    pub proof fn lemma_slot_rows(&self, key: Key, other: Key)
        requires
            self.wf(),
            self.same_slot(key, other),
        ensures
            self.rows(other) == self.rows(key),
    {
        let hash = lookup_key(self.domain, key);
        self.table().lemma_alike_entry(key, other);
        if exists|place: int| #[trigger] self.changed_at(hash, place, key) {
            let place = choose|place: int| #[trigger] self.changed_at(hash, place, key);
            assert(self.changed_at(hash, place, other));
            self.lemma_changes(hash, place, key);
            self.lemma_changes(hash, place, other);
        } else {
            assert forall|place: int| !#[trigger] self.changed_at(hash, place, other) by {
                if self.changed_at(hash, place, other) {
                    assert(self.changed_at(hash, place, key));
                }
            }
        }
    }

    /// The changes of a key, if there are any.
    fn posting_changes(&self, key: &IndexKey) -> (changes: Option<&PersistentMap<bool>>)
        requires
            self.wf(),
        ensures
            match changes {
                Some(changes) => changes.wf() && changes@ == self.changes(key.key()) && forall|
                    row: u128,
                | #[trigger]
                    changes@.dom().contains(row) ==> row <= u32::MAX,
                None => self.changes(key.key()) == Map::<u128, bool>::empty(),
            },
    {
        let hash: u128 = bucket_key(self.domain, key);
        match self.deltas.get(hash) {
            Some(handle) => {
                let bucket = handle.value();
                assert(bucket@ == self.bucket(hash));
                for index in 0..bucket.len()
                    invariant
                        self.wf(),
                        hash == lookup_key(self.domain, key.key()),
                        bucket@ == self.bucket(hash),
                        forall|i: int| 0 <= i < index ==> !self.changed_at(hash, i, key.key()),
                {
                    assert(self.bucket(hash)[index as int].sound());
                    if is_alike(&bucket[index].key, key) {
                        assert(self.changed_at(hash, index as int, key.key()));
                        proof {
                            self.lemma_changes(hash, index as int, key.key());
                        }
                        return Some(&bucket[index].changes);
                    }
                }
                assert forall|place: int| !#[trigger] self.changed_at(hash, place, key.key()) by {}
                None
            },
            None => {
                assert forall|place: int| !#[trigger] self.changed_at(hash, place, key.key()) by {}
                None
            },
        }
    }

    /// The rows of a key, if it has any.
    pub fn get(&self, key: &IndexKey) -> (rows: Option<RoaringBitmap>)
        requires
            self.wf(),
        ensures
            match rows {
                Some(rows) => bitmap_rows(rows) == self.rows(key.key()) && self.rows(
                    key.key(),
                ).len() > 0,
                None => self.rows(key.key()) == Set::<u32>::empty(),
            },
    {
        let rows = self.current(key);
        proof {
            lemma_rows_finite(bitmap_rows(rows));
        }
        if row_total(&rows) == 0 {
            assert(self.rows(key.key()) =~= Set::<u32>::empty());
            None
        } else {
            Some(rows)
        }
    }

    fn current(&self, key: &IndexKey) -> (rows: RoaringBitmap)
        requires
            self.wf(),
        ensures
            bitmap_rows(rows) == self.rows(key.key()),
    {
        let mut rows = match self.base.value().get(key) {
            Some(rows) => copy_bitmap(rows),
            None => empty_bitmap(),
        };
        match self.posting_changes(key) {
            Some(changes) => {
                apply_changes(&mut rows, changes);
            },
            None => {
                assert(changed_rows(bitmap_rows(rows), Map::empty()) =~= bitmap_rows(rows));
            },
        }
        rows
    }

    /// The first rows of a key in ascending order, at most `limit`.
    pub fn get_bounded(&self, key: &IndexKey, limit: usize) -> (rows: Vec<u32>)
        requires
            self.wf(),
        ensures
            first_of(rows@, self.rows(key.key()), limit as int),
    {
        bounded_bitmap_with_changes(self.base.value().get(key), self.posting_changes(key), limit)
    }

    /// How many rows a key has, without building them.
    pub fn cardinality(&self, key: &IndexKey) -> (count: u64)
        requires
            self.wf(),
        ensures
            count == self.rows(key.key()).len(),
    {
        posting_cardinality(self.base.value().get(key), self.posting_changes(key))
    }

    #[verifier::rlimit(60)]
    #[verifier::spinoff_prover]
    fn put_change(&mut self, key: IndexKey, row: u32, present: bool)
        requires
            old(self).wf(),
            old(self).has_room(key.key()),
        ensures
            final(self).wf(),
            row_put(*old(self), *final(self), key.key(), row, present),
    {
        let ghost model = key.key();
        let ghost before = *self;
        let hash: u128 = bucket_key(self.domain, &key);
        let mut bucket: Vec<PostingDelta> = Vec::new();
        let mut found = false;
        let ghost mut place: int = 0;
        let ghost old_bucket = self.bucket(hash);
        proof {
            lemma_handle_faithful::<Vec<PostingDelta>>();
        }
        match self.deltas.get(hash) {
            Some(handle) => {
                let listed = handle.value();
                assert(listed@ == old_bucket);
                for index in 0..listed.len()
                    invariant
                        before.wf(),
                        before.has_room(model),
                        model == key.key(),
                        hash == lookup_key(before.domain, model),
                        old_bucket == before.bucket(hash),
                        listed@ == old_bucket,
                        bucket.len() == index,
                        found ==> 0 <= place < index && alike(old_bucket[place].key.key(), model),
                        !found ==> forall|i: int|
                            0 <= i < index ==> !alike((#[trigger] old_bucket[i]).key.key(), model),
                        forall|i: int|
                            0 <= i < index ==> (#[trigger] bucket@[i]).key.key()
                                == old_bucket[i].key.key() && bucket@[i].sound() && bucket@[i].changes@
                                == if found && i == place {
                                old_bucket[i].changes@.insert(row as u128, present)
                            } else {
                                old_bucket[i].changes@
                            },
                {
                    let delta = &listed[index];
                    assert(before.bucket(hash)[index as int].sound());
                    let mut changes = delta.changes.clone();
                    if !found && is_alike(&delta.key, &key) {
                        found = true;
                        proof {
                            place = index as int;
                        }
                        let _ = changes.len();
                        proof {
                            assert(before.changed_at(hash, index as int, model));
                            before.lemma_changes(hash, index as int, model);
                        }
                        let _ = changes.insert(row as u128, present);
                    }
                    bucket.push(PostingDelta { key: delta.key.clone(), changes });
                }
            },
            None => {},
        }
        if !found {
            proof {
                place = old_bucket.len() as int;
            }
            let mut changes: PersistentMap<bool> = PersistentMap::default();
            proof {
                assert(changes@.dom() =~= Set::<u128>::empty());
            }
            let _ = changes.len();
            let _ = changes.insert(row as u128, present);
            assert(changes@ =~= Map::<u128, bool>::empty().insert(row as u128, present));
            bucket.push(PostingDelta { key, changes });
        }
        let ghost written = bucket@;
        let _ = self.deltas.len();
        let _ = self.deltas.insert(hash, Handle::new(bucket));
        proof {
            assert(self.bucket(hash) == written);
            assert forall|other: u128| other != hash implies #[trigger] self.bucket(other)
                == before.bucket(other) by {}
            assert forall|i: int| 0 <= i < old_bucket.len() implies (
            #[trigger] written[i]).key.key() == old_bucket[i].key.key() by {}
            lemma_put_change(before, *self, model, hash, place, row, present);
        }
    }

    /// One more change of the key can be counted.
    pub closed spec fn has_room(&self, key: Key) -> bool {
        &&& self.deltas@.dom().len() < usize::MAX
        &&& self.changes(key).dom().len() < usize::MAX
    }

    /// Notes that a row came to a key or left it.
    pub fn put(&mut self, key: IndexKey, row: u32, present: bool)
        requires
            old(self).wf(),
        ensures
            final(self).wf(),
            row_put(*old(self), *final(self), key.key(), row, present),
    {
        let full = self.deltas.len() == usize::MAX || match self.posting_changes(&key) {
            Some(changes) => changes.len() == usize::MAX,
            None => false,
        };
        let ghost before = *self;
        let ghost model = key.key();
        if full {
            self.seal();
        } else {
            assert(Map::<u128, bool>::empty().dom() =~= Set::<u128>::empty());
        }
        let ghost middle = *self;
        self.put_change(key, row, present);
        proof {
            if full {
                assert(!before.has_room(model));
                assert forall|other: Key| plain_key(
                    other,
                ) implies #[trigger] before.counted_rows(model, other) == before.rows(other) by {
                    before.law_sealing_keeps_plain_keys(other);
                }
                assert forall|other: Key| #[trigger]
                    self.rows(other) == if before.same_slot(model, other) {
                        if present {
                            before.counted_rows(model, other).insert(row)
                        } else {
                            before.counted_rows(model, other).remove(row)
                        }
                    } else {
                        before.counted_rows(model, other)
                    } by {
                    assert(middle.rows(other) == before.sealed_rows(other));
                    assert(middle.counted_rows(model, other) == middle.rows(other));
                    assert(middle.same_slot(model, other) == before.same_slot(model, other));
                }
                assert forall|count: nat| #[trigger] before.written(count) implies self.written(
                    count + 1,
                ) by {
                    assert(middle.written(count));
                }
            }
        }
    }

    proof fn lemma_no_bucket(&self, low: int, high: int)
        requires
            0 <= low <= high <= u128::MAX as int + 1,
            forall|hash: u128| low <= hash < high ==> !#[trigger] self.deltas@.dom().contains(hash),
        ensures
            self.changes_below(high) == self.changes_below(low),
        decreases high - low,
    {
        if low < high {
            self.lemma_no_bucket(low, high - 1);
            assert(!self.deltas@.dom().contains((high - 1) as u128));
            assert(self.bucket_changes((high - 1) as u128) =~= Seq::empty());
            assert(self.changes_below(high) =~= self.changes_below(high - 1));
        }
    }

    /// Every listed change stands under some digest.
    proof fn lemma_change_place(&self, limit: int, index: int) -> (found: (u128, int))
        requires
            limit <= u128::MAX as int + 1,
            0 <= index < self.changes_below(limit).len(),
        ensures
            found.0 < limit,
            0 <= found.1 < self.bucket(found.0).len(),
            self.changes_below(limit)[index] == self.bucket_changes(found.0)[found.1],
        decreases limit,
    {
        let below = self.changes_below(limit - 1);
        if index < below.len() {
            let found = self.lemma_change_place(limit - 1, index);
            found
        } else {
            ((limit - 1) as u128, index - below.len())
        }
    }

    /// Every change is listed.
    proof fn lemma_change_listed(&self, limit: int, hash: u128, place: int) -> (index: int)
        requires
            hash < limit <= u128::MAX as int + 1,
            0 <= place < self.bucket(hash).len(),
        ensures
            0 <= index < self.changes_below(limit).len(),
            self.changes_below(limit)[index] == self.bucket_changes(hash)[place],
        decreases limit,
    {
        let below = self.changes_below(limit - 1);
        if hash == limit - 1 {
            below.len() + place
        } else {
            let index = self.lemma_change_listed(limit - 1, hash, place);
            index
        }
    }

    /// The first changes of a digest leave a key alone, or change it once.
    proof fn lemma_bucket_written(
        &self,
        hash: u128,
        count: int,
        key: Key,
        start: Option<(Key, Set<u32>)>,
    )
        requires
            self.wf(),
            0 <= count <= self.bucket(hash).len(),
        ensures
            (forall|place: int| 0 <= place < count ==> !#[trigger] self.changed_at(hash, place, key))
                ==> written_entry(key, start, self.bucket_changes(hash).take(count)) == start,
            forall|place: int|
                0 <= place < count && #[trigger] self.changed_at(hash, place, key) ==> entry_rows(
                    written_entry(key, start, self.bucket_changes(hash).take(count)),
                ) == changed_rows(entry_rows(start), self.bucket(hash)[place].changes@),
        decreases count,
    {
        let list = self.bucket_changes(hash);
        if count > 0 {
            self.lemma_bucket_written(hash, count - 1, key, start);
            assert(list.take(count).drop_last() =~= list.take(count - 1));
            assert(list.take(count).last() == list[count - 1]);
            if self.changed_at(hash, count - 1, key) {
                assert forall|place: int| 0 <= place < count - 1 implies !#[trigger] self.changed_at(
                    hash,
                    place,
                    key,
                ) by {
                    assert(!alike(
                        self.bucket(hash)[place].key.key(),
                        self.bucket(hash)[count - 1].key.key(),
                    ));
                }
            }
        } else {
            assert(list.take(0) =~= Seq::empty());
        }
    }

    /// The changes of a plain key are written once.
    proof fn lemma_plain_written(&self, limit: int, key: Key)
        requires
            self.wf(),
            plain_key(key),
            0 <= limit <= u128::MAX as int + 1,
        ensures
            entry_rows(written_entry(key, self.base_entry(key), self.changes_below(limit)))
                == if lookup_key(self.domain, key) < limit {
                self.rows(key)
            } else {
                self.base_rows(key)
            },
        decreases limit,
    {
        let own = lookup_key(self.domain, key);
        if limit > 0 {
            self.lemma_plain_written(limit - 1, key);
            let hash = (limit - 1) as u128;
            let before = written_entry(key, self.base_entry(key), self.changes_below(limit - 1));
            let list = self.bucket_changes(hash);
            lemma_written_concat(key, self.base_entry(key), self.changes_below(limit - 1), list);
            assert(list.take(list.len() as int) =~= list);
            self.lemma_bucket_written(hash, list.len() as int, key, before);
            if hash == own {
                if exists|place: int| #[trigger] self.changed_at(own, place, key) {
                    let place = choose|place: int| #[trigger] self.changed_at(own, place, key);
                    assert(self.changed_at(own, place, key));
                    self.lemma_changes(own, place, key);
                } else {
                    assert(changed_rows(self.table().rows(key), Map::empty())
                        =~= self.table().rows(key));
                }
            } else {
                assert forall|place: int| !#[trigger] self.changed_at(hash, place, key) by {
                    if self.changed_at(hash, place, key) {
                        law_plain_keys(key, self.bucket(hash)[place].key.key());
                        assert(self.bucket(hash)[place].sound());
                    }
                }
            }
        }
    }

    /// Writing the changes into the base keeps the rows of every plain key.
    pub proof fn law_sealing_keeps_plain_keys(&self, key: Key)
        requires
            self.wf(),
            plain_key(key),
        ensures
            self.sealed_rows(key) == self.rows(key),
    {
        self.lemma_plain_written(u128::MAX as int + 1, key);
    }

    /// Without changes, the base is what it would be written to.
    pub proof fn lemma_sealed(&self, key: Key)
        requires
            self.wf(),
            self.is_sealed(),
        ensures
            self.sealed_entry(key) == self.base_entry(key),
            self.rows(key) == self.base_rows(key),
    {
        self.lemma_no_bucket(0, u128::MAX as int + 1);
        let hash = lookup_key(self.domain, key);
        assert forall|place: int| !#[trigger] self.changed_at(hash, place, key) by {}
        assert(changed_rows(self.table().rows(key), Map::empty()) =~= self.table().rows(key));
    }

    proof fn lemma_united(&self, limit: int, key: Key, row: u32)
        requires
            self.wf(),
            self.additions(),
            0 <= limit <= u128::MAX as int + 1,
        ensures
            entry_rows(
                written_entry(key, self.base_entry(key), self.changes_below(limit)),
            ).contains(row) <==> exists|i: int|
                0 <= i < self.changes_below(limit).len() && adds(
                    #[trigger] self.changes_below(limit)[i],
                    key,
                    row,
                ),
    {
        let list = self.changes_below(limit);
        assert forall|i: int, row: u128|
            0 <= i < list.len() && list[i].1.dom().contains(row) implies #[trigger] list[i].1[row] by {
            let (hash, place) = self.lemma_change_place(limit, i);
            assert(self.bucket(hash)[place].changes@[row]);
        }
        assert(self.table().entry(key) is None);
        lemma_all_added(key, list, row);
    }

    /// Where the base is empty and every change added a row, a key gets the rows of all keys like it.
    pub proof fn law_sealing_unites_additions(&self, key: Key, row: u32)
        requires
            self.wf(),
            self.additions(),
        ensures
            self.sealed_rows(key).contains(row) <==> exists|other: Key|
                alike(other, key) && #[trigger] self.rows(other).contains(row),
    {
        let limit = u128::MAX as int + 1;
        let list = self.changes_below(limit);
        self.lemma_united(limit, key, row);
        if self.sealed_rows(key).contains(row) {
            let i = choose|i: int| 0 <= i < list.len() && adds(#[trigger] list[i], key, row);
            let (hash, place) = self.lemma_change_place(limit, i);
            let other = self.bucket(hash)[place].key.key();
            assert(self.bucket(hash)[place].sound());
            assert(self.changed_at(hash, place, other));
            self.lemma_changes(hash, place, other);
            assert(self.bucket(hash)[place].changes@[row as u128]);
            assert(self.rows(other).contains(row));
        }
        if exists|other: Key| alike(other, key) && #[trigger] self.rows(other).contains(row) {
            let other = choose|other: Key|
                alike(other, key) && #[trigger] self.rows(other).contains(row);
            let hash = lookup_key(self.domain, other);
            assert(self.table().entry(other) is None);
            assert(self.changes(other).dom().contains(row as u128));
            let place = choose|place: int| #[trigger] self.changed_at(hash, place, other);
            assert(self.changed_at(hash, place, other));
            self.lemma_changes(hash, place, other);
            let i = self.lemma_change_listed(limit, hash, place);
            assert(adds(list[i], key, row));
        }
    }

    /// The keys with their rows once all changes are written, in ascending order.
    #[verifier::rlimit(60)]
    #[verifier::spinoff_prover]
    pub fn materialized(&self) -> (table: PostingTable)
        requires
            self.wf(),
        ensures
            table.wf(),
            forall|key: Key| #[trigger] table.entry(key) == self.sealed_entry(key),
    {
        let mut table = self.base.value().copy();
        let entries = self.deltas.iter();
        let ghost mut reached: int = 0;
        for index in 0..entries.len()
            invariant
                self.wf(),
                self.lists_buckets(entries@),
                table.wf(),
                0 <= reached <= u128::MAX as int + 1,
                index == 0 ==> reached == 0,
                index > 0 ==> reached == entries@[index - 1].0 + 1,
                forall|key: Key| #[trigger]
                    table.entry(key) == written_entry(
                        key,
                        self.base_entry(key),
                        self.changes_below(reached),
                    ),
        {
            let bucket = entries[index].1.value();
            let ghost hash = entries@[index as int].0;
            proof {
                assert(self.deltas@.dom().contains(entries@[index as int].0));
                assert(bucket@ == self.bucket(hash));
                self.lemma_between_buckets(entries@, index as int, reached);
                assert(self.changes_below(hash as int) + self.bucket_changes(hash).take(0)
                    =~= self.changes_below(hash as int));
            }
            for place in 0..bucket.len()
                invariant
                    self.wf(),
                    bucket@ == self.bucket(hash),
                    table.wf(),
                    forall|key: Key| #[trigger]
                        table.entry(key) == written_entry(
                            key,
                            self.base_entry(key),
                            self.changes_below(hash as int) + self.bucket_changes(hash).take(
                                place as int,
                            ),
                        ),
            {
                assert(self.bucket(hash)[place as int].sound());
                let delta = &bucket[place];
                let ghost before = table;
                write_delta(&mut table, delta);
                proof {
                    let list = self.changes_below(hash as int);
                    let own = self.bucket_changes(hash);
                    let prefix = list + own.take(place as int);
                    let next = (delta.key.key(), delta.changes@);
                    assert(own[place as int] == next);
                    assert(list + own.take(place + 1) =~= prefix.push(next));
                    assert forall|key: Key| #[trigger]
                        table.entry(key) == written_entry(
                            key,
                            self.base_entry(key),
                            prefix.push(next),
                        ) by {
                        assert(prefix.push(next).drop_last() =~= prefix);
                        assert(before.entry(key) == written_entry(
                            key,
                            self.base_entry(key),
                            prefix,
                        ));
                    }
                }
            }
            proof {
                reached = hash + 1;
                let own = self.bucket_changes(hash);
                assert(own.take(bucket@.len() as int) =~= own);
            }
        }
        proof {
            self.lemma_last_bucket(entries@, reached);
        }
        table
    }

    spec fn lists_buckets(&self, entries: Seq<(u128, &Handle<Vec<PostingDelta>>)>) -> bool {
        &&& forall|i: int|
            0 <= i < entries.len() ==> self.deltas@.dom().contains((#[trigger] entries[i]).0)
                && self.deltas@[entries[i].0] == *entries[i].1
        &&& forall|i: int, j: int|
            0 <= i < j < entries.len() ==> (#[trigger] entries[i]).0 < (#[trigger] entries[j]).0
        &&& forall|hash: u128| #[trigger]
            self.deltas@.dom().contains(hash) ==> exists|i: int|
                0 <= i < entries.len() && (#[trigger] entries[i]).0 == hash
    }

    /// No change stands between two listed digests.
    proof fn lemma_between_buckets(
        &self,
        entries: Seq<(u128, &Handle<Vec<PostingDelta>>)>,
        index: int,
        reached: int,
    )
        requires
            self.lists_buckets(entries),
            0 <= index < entries.len(),
            index == 0 ==> reached == 0,
            index > 0 ==> reached == entries[index - 1].0 + 1,
        ensures
            reached <= entries[index].0,
            self.changes_below(entries[index].0 as int) == self.changes_below(reached),
    {
        if index > 0 {
            assert(entries[index - 1].0 < entries[index].0);
        }
        assert forall|hash: u128| reached <= hash < entries[index].0 implies !#[trigger] self.deltas@.dom().contains(
            hash,
        ) by {
            if self.deltas@.dom().contains(hash) {
                let i = choose|i: int| 0 <= i < entries.len() && (#[trigger] entries[i]).0 == hash;
                if i < index - 1 {
                    assert(entries[i].0 < entries[index - 1].0);
                } else if index < i {
                    assert(entries[index].0 < entries[i].0);
                }
            }
        }
        self.lemma_no_bucket(reached, entries[index].0 as int);
    }

    /// No change stands behind the last listed digest.
    proof fn lemma_last_bucket(&self, entries: Seq<(u128, &Handle<Vec<PostingDelta>>)>, reached: int)
        requires
            self.lists_buckets(entries),
            entries.len() == 0 ==> reached == 0,
            entries.len() > 0 ==> reached == entries.last().0 + 1,
        ensures
            self.change_order() == self.changes_below(reached),
    {
        let limit = u128::MAX as int + 1;
        assert forall|hash: u128| reached <= hash < limit implies !#[trigger] self.deltas@.dom().contains(
            hash,
        ) by {
            if self.deltas@.dom().contains(hash) {
                let i = choose|i: int| 0 <= i < entries.len() && (#[trigger] entries[i]).0 == hash;
                if i < entries.len() - 1 {
                    assert(entries[i].0 < entries[entries.len() - 1].0);
                }
            }
        }
        self.lemma_no_bucket(reached, limit);
    }

    /// The base.
    pub fn base(&self) -> (table: &PostingTable)
        requires
            self.wf(),
        ensures
            table.wf(),
            forall|key: Key| #[trigger] table.entry(key) == self.base_entry(key),
    {
        self.base.value()
    }

    /// The changes that stand beside the base, by ascending digest of their keys, each with its rows in
    /// ascending order. A base and these changes, put one after the other, make the same postings.
    #[verifier::rlimit(40)]
    #[verifier::spinoff_prover]
    pub fn noted_changes(&self) -> (list: Vec<(IndexKey, Vec<(u32, bool)>)>)
        requires
            self.wf(),
        ensures
            lists_noted(list@, self.change_order()),
    {
        let mut list: Vec<(IndexKey, Vec<(u32, bool)>)> = Vec::new();
        let entries = self.deltas.iter();
        let ghost mut reached: int = 0;
        for index in 0..entries.len()
            invariant
                self.wf(),
                self.lists_buckets(entries@),
                0 <= reached <= u128::MAX as int + 1,
                index == 0 ==> reached == 0,
                index > 0 ==> reached == entries@[index - 1].0 + 1,
                lists_noted(list@, self.changes_below(reached)),
        {
            let bucket = entries[index].1.value();
            let ghost hash = entries@[index as int].0;
            proof {
                assert(self.deltas@.dom().contains(entries@[index as int].0));
                assert(bucket@ == self.bucket(hash));
                self.lemma_between_buckets(entries@, index as int, reached);
                assert(self.changes_below(hash as int) + self.bucket_changes(hash).take(0)
                    =~= self.changes_below(hash as int));
            }
            for place in 0..bucket.len()
                invariant
                    self.wf(),
                    bucket@ == self.bucket(hash),
                    lists_noted(
                        list@,
                        self.changes_below(hash as int) + self.bucket_changes(hash).take(
                            place as int,
                        ),
                    ),
            {
                assert(self.bucket(hash)[place as int].sound());
                let delta = &bucket[place];
                list.push((delta.key.clone(), change_list(&delta.changes)));
                proof {
                    let below = self.changes_below(hash as int);
                    let own = self.bucket_changes(hash);
                    let next = (delta.key.key(), delta.changes@);
                    assert(own[place as int] == next);
                    assert(below + own.take(place + 1) =~= (below + own.take(place as int)).push(
                        next,
                    ));
                }
            }
            proof {
                reached = hash + 1;
                let own = self.bucket_changes(hash);
                assert(own.take(bucket@.len() as int) =~= own);
            }
        }
        proof {
            self.lemma_last_bucket(entries@, reached);
        }
        list
    }

    /// Writes the changes into a new base.
    pub fn seal(&mut self)
        requires
            old(self).wf(),
        ensures
            final(self).wf(),
            final(self).is_sealed(),
            final(self).spec_domain() == old(self).spec_domain(),
            final(self).written(0),
            forall|key: Key| #[trigger] final(self).base_entry(key) == old(self).sealed_entry(key),
            forall|key: Key| #[trigger] final(self).rows(key) == old(self).sealed_rows(key),
            forall|key: Key|
                plain_key(key) ==> #[trigger] final(self).rows(key) == old(self).rows(key),
            forall|key: Key| #[trigger] final(self).has_room(key),
    {
        let ghost before = *self;
        let table = self.materialized();
        self.base = Handle::new(table);
        self.deltas = PersistentMap::default();
        proof {
            assert(Map::<u128, bool>::empty().dom() =~= Set::<u128>::empty());
            assert(self.deltas@.dom() =~= Set::<u128>::empty());
            assert forall|key: Key| #[trigger] self.base_entry(key) == before.sealed_entry(key) by {
                assert(table.entry(key) == before.sealed_entry(key));
            }
            assert forall|key: Key| #[trigger] self.rows(key) == before.sealed_rows(key) by {
                assert(self.base_entry(key) == before.sealed_entry(key));
                self.lemma_sealed(key);
            }
            assert forall|key: Key| plain_key(key) implies #[trigger] self.rows(key) == before.rows(
                key,
            ) by {
                before.law_sealing_keeps_plain_keys(key);
            }
            assert forall|key: Key| #[trigger] self.has_room(key) by {
                self.lemma_room(0, key);
            }
        }
    }
}

/// A listing of changes: each key, and its rows in ascending order.
pub open spec fn lists_noted(
    list: Seq<(IndexKey, Vec<(u32, bool)>)>,
    changes: Seq<(Key, Map<u128, bool>)>,
) -> bool {
    list.len() == changes.len() && forall|i: int|
        0 <= i < list.len() ==> (#[trigger] list[i]).0.key() == changes[i].0 && lists_changes(
            list[i].1@,
            changes[i].1,
        )
}

/// A change adds a row to a key.
spec fn adds(change: (Key, Map<u128, bool>), key: Key, row: u32) -> bool {
    alike(change.0, key) && change.1.dom().contains(row as u128)
}

/// Where every change adds rows, a row is there once some change added it.
proof fn lemma_all_added(key: Key, list: Seq<(Key, Map<u128, bool>)>, row: u32)
    requires
        forall|i: int, row: u128|
            0 <= i < list.len() && list[i].1.dom().contains(row) ==> #[trigger] list[i].1[row],
    ensures
        entry_rows(written_entry(key, None, list)).contains(row) <==> exists|i: int|
            0 <= i < list.len() && adds(#[trigger] list[i], key, row),
    decreases list.len(),
{
    if list.len() > 0 {
        let rest = list.drop_last();
        assert forall|i: int, row: u128|
            0 <= i < rest.len() && rest[i].1.dom().contains(row) implies #[trigger] rest[i].1[row] by {
            assert(list[i].1[row]);
        }
        lemma_all_added(key, rest, row);
        let last = list.len() - 1;
        let before = entry_rows(written_entry(key, None, rest));
        let rows = changed_rows(before, list[last].1);
        if list[last].1.dom().contains(row as u128) {
            assert(list[last].1[row as u128]);
        }
        if rows == Set::<u32>::empty() {
            assert(!rows.contains(row));
        }
        if exists|i: int| 0 <= i < rest.len() && adds(#[trigger] rest[i], key, row) {
            let i = choose|i: int| 0 <= i < rest.len() && adds(#[trigger] rest[i], key, row);
            assert(adds(list[i], key, row));
        }
        if exists|i: int| 0 <= i < list.len() && adds(#[trigger] list[i], key, row) {
            let i = choose|i: int| 0 <= i < list.len() && adds(#[trigger] list[i], key, row);
            if i < last {
                assert(adds(rest[i], key, row));
            }
        }
        assert(list.last() == list[last]);
    }
}

/// Writes the changes of one key into a table.
fn write_delta(table: &mut PostingTable, delta: &PostingDelta)
    requires
        old(table).wf(),
        delta.sound(),
    ensures
        final(table).wf(),
        forall|key: Key| #[trigger]
            final(table).entry(key) == ({
                let rows = changed_rows(entry_rows(old(table).entry(key)), delta.changes@);
                if !alike(delta.key.key(), key) {
                    old(table).entry(key)
                } else if rows == Set::<u32>::empty() {
                    None
                } else {
                    Some(
                        (
                            match old(table).entry(key) {
                                Some(entry) => entry.0,
                                None => delta.key.key(),
                            },
                            rows,
                        ),
                    )
                }
            }),
{
    let ghost before = *table;
    let ghost model = delta.key.key();
    let mut rows = match table.get(&delta.key) {
        Some(rows) => copy_bitmap(rows),
        None => empty_bitmap(),
    };
    apply_changes(&mut rows, &delta.changes);
    let ghost now = bitmap_rows(rows);
    proof {
        lemma_rows_finite(now);
        assert(now == changed_rows(entry_rows(before.entry(model)), delta.changes@));
    }
    if row_total(&rows) == 0 {
        assert(now =~= Set::<u32>::empty());
        table.remove(&delta.key);
    } else {
        assert(now != Set::<u32>::empty());
        table.set(delta.key.clone(), rows);
    }
    proof {
        assert forall|key: Key| #[trigger]
            table.entry(key) == ({
                let rows = changed_rows(entry_rows(before.entry(key)), delta.changes@);
                if !alike(model, key) {
                    before.entry(key)
                } else if rows == Set::<u32>::empty() {
                    None
                } else {
                    Some(
                        (
                            match before.entry(key) {
                                Some(entry) => entry.0,
                                None => model,
                            },
                            rows,
                        ),
                    )
                }
            }) by {
            if alike(model, key) {
                before.lemma_alike_entry(model, key);
            }
        }
    }
}

/// Postings after the changes of one key stand in its bucket.
#[verifier::rlimit(60)]
#[verifier::spinoff_prover]
proof fn lemma_put_change(
    before: Postings,
    after: Postings,
    model: Key,
    hash: u128,
    place: int,
    row: u32,
    present: bool,
)
    requires
        before.wf(),
        before.has_room(model),
        hash == lookup_key(before.domain, model),
        after.domain == before.domain,
        after.base == before.base,
        after.deltas.wf(),
        after.deltas@.dom() == before.deltas@.dom().insert(hash),
        forall|other: u128| other != hash ==> #[trigger] after.bucket(other) == before.bucket(other),
        0 <= place <= before.bucket(hash).len(),
        place < before.bucket(hash).len() ==> alike(
            before.bucket(hash)[place].key.key(),
            model,
        ) && after.bucket(hash).len() == before.bucket(hash).len(),
        place == before.bucket(hash).len() ==> after.bucket(hash).len() == place + 1
            && after.bucket(hash)[place].key.key() == model && after.bucket(hash)[place].changes@
            == Map::<u128, bool>::empty().insert(row as u128, present) && forall|i: int|
            0 <= i < place ==> !alike((#[trigger] before.bucket(hash)[i]).key.key(), model),
        forall|i: int|
            0 <= i < after.bucket(hash).len() ==> (#[trigger] after.bucket(hash)[i]).sound(),
        forall|i: int|
            0 <= i < before.bucket(hash).len() ==> (#[trigger] after.bucket(hash)[i]).key.key()
                == before.bucket(hash)[i].key.key() && after.bucket(hash)[i].changes@ == if i
                == place {
                before.bucket(hash)[i].changes@.insert(row as u128, present)
            } else {
                before.bucket(hash)[i].changes@
            },
    ensures
        after.wf(),
        row_put(before, after, model, row, present),
{
    let old_bucket = before.bucket(hash);
    assert forall|h: u128, i: int| 0 <= i < after.bucket(h).len() implies (
    #[trigger] after.bucket(h)[i]).sound() && lookup_key(
        after.domain,
        after.bucket(h)[i].key.key(),
    ) == h by {
        if h == hash {
            if i < old_bucket.len() {
                assert(before.bucket(hash)[i].sound());
            }
        } else {
            assert(before.bucket(h)[i].sound());
        }
    }
    assert forall|h: u128, i: int, j: int| 0 <= i < j < after.bucket(h).len() implies !alike(
        (#[trigger] after.bucket(h)[i]).key.key(),
        (#[trigger] after.bucket(h)[j]).key.key(),
    ) by {
        if h == hash {
            if j < old_bucket.len() {
                assert(!alike(before.bucket(hash)[i].key.key(), before.bucket(hash)[j].key.key()));
            } else {
                assert(!alike(before.bucket(hash)[i].key.key(), model));
            }
        } else {
            assert(!alike(before.bucket(h)[i].key.key(), before.bucket(h)[j].key.key()));
        }
    }
    assert(after.wf());
    assert(alike(after.bucket(hash)[place].key.key(), model));
    assert forall|other: Key| #[trigger] after.rows(other) == if before.same_slot(model, other) {
        if present {
            before.rows(other).insert(row)
        } else {
            before.rows(other).remove(row)
        }
    } else {
        before.rows(other)
    } by {
        if before.same_slot(model, other) {
            assert(after.changed_at(hash, place, other));
            after.lemma_changes(hash, place, other);
            if place < old_bucket.len() {
                assert(before.changed_at(hash, place, other));
                before.lemma_changes(hash, place, other);
            } else {
                assert forall|p: int| !#[trigger] before.changed_at(hash, p, other) by {
                    if before.changed_at(hash, p, other) {
                        assert(!alike(before.bucket(hash)[p].key.key(), model));
                    }
                }
            }
            assert(after.changes(other) =~= before.changes(other).insert(row as u128, present));
            assert(after.rows(other) =~= if present {
                before.rows(other).insert(row)
            } else {
                before.rows(other).remove(row)
            });
        } else {
            lemma_same_changes(before, after, hash, place, other);
        }
    }
    before.deltas.lemma_finite();
    assert forall|count: nat| #[trigger] before.written(count) implies after.written(count + 1) by {
        assert forall|h: u128, i: int| 0 <= i < after.bucket(h).len() implies (
        #[trigger] after.bucket(h)[i]).changes@.dom().len() <= count + 1 by {
            if h != hash {
                assert(before.bucket(h)[i].changes@.dom().len() <= count);
            } else if i < old_bucket.len() {
                assert(before.bucket(hash)[i].sound());
                assert(before.bucket(hash)[i].changes@.dom().len() <= count);
                before.bucket(hash)[i].changes.lemma_finite();
                assert(before.bucket(hash)[i].changes@.insert(row as u128, present).dom()
                    =~= before.bucket(hash)[i].changes@.dom().insert(row as u128));
            } else {
                assert(Map::<u128, bool>::empty().insert(row as u128, present).dom()
                    =~= Set::<u128>::empty().insert(row as u128));
            }
        }
    }
    if present && before.additions() {
        assert forall|h: u128, i: int, changed: u128|
            0 <= i < after.bucket(h).len() && after.bucket(h)[i].changes@.dom().contains(
                changed,
            ) implies #[trigger] after.bucket(h)[i].changes@[changed] by {
            if h != hash {
                assert(before.bucket(h)[i].changes@[changed]);
            } else if i < old_bucket.len() && changed != row as u128 {
                assert(before.bucket(h)[i].changes@.dom().contains(changed));
                assert(before.bucket(h)[i].changes@[changed]);
            } else if i < old_bucket.len() && i != place {
                assert(before.bucket(h)[i].changes@[changed]);
            }
        }
        assert forall|key: Key| (#[trigger] after.table().entry(key)) is None by {
            assert(before.table().entry(key) is None);
        }
    }
}

/// A key whose changes are not those that were written finds what it found.
proof fn lemma_same_changes(before: Postings, after: Postings, hash: u128, place: int, key: Key)
    requires
        before.wf(),
        after.wf(),
        after.domain == before.domain,
        after.base == before.base,
        forall|other: u128| other != hash ==> #[trigger] after.bucket(other) == before.bucket(other),
        before.bucket(hash).len() <= after.bucket(hash).len(),
        forall|i: int|
            0 <= i < before.bucket(hash).len() ==> (#[trigger] after.bucket(hash)[i]).key.key()
                == before.bucket(hash)[i].key.key() && (i != place ==> after.bucket(
                hash,
            )[i].changes@ == before.bucket(hash)[i].changes@),
        after.bucket(hash).len() > before.bucket(hash).len() ==> after.bucket(hash).len() == place
            + 1 && place == before.bucket(hash).len(),
        0 <= place < after.bucket(hash).len(),
        lookup_key(before.domain, key) == hash ==> !alike(
            after.bucket(hash)[place].key.key(),
            key,
        ),
    ensures
        after.rows(key) == before.rows(key),
{
    let own = lookup_key(before.domain, key);
    if exists|p: int| #[trigger] before.changed_at(own, p, key) {
        let p = choose|p: int| #[trigger] before.changed_at(own, p, key);
        assert(after.bucket(own)[p].key.key() == before.bucket(own)[p].key.key());
        assert(after.changed_at(own, p, key));
        before.lemma_changes(own, p, key);
        after.lemma_changes(own, p, key);
    } else {
        assert forall|p: int| !#[trigger] after.changed_at(own, p, key) by {
            if after.changed_at(own, p, key) {
                assert(after.bucket(own)[p].key.key() == before.bucket(own)[p].key.key());
                assert(before.changed_at(own, p, key));
            }
        }
    }
    assert(after.changes(key) == before.changes(key));
}

/// How many rows a base has after its changes.
fn posting_cardinality(base: Option<&RoaringBitmap>, changes: Option<&PersistentMap<bool>>) -> (
    count: u64)
    requires
        changes matches Some(changes) ==> changes.wf() && forall|row: u128| #[trigger]
            changes@.dom().contains(row) ==> row <= u32::MAX,
    ensures
        count == changed_rows(
            match base {
                Some(base) => bitmap_rows(*base),
                None => Set::empty(),
            },
            match changes {
                Some(changes) => changes@,
                None => Map::empty(),
            },
        ).len(),
{
    let ghost before = match base {
        Some(base) => bitmap_rows(*base),
        None => Set::empty(),
    };
    let mut count: u64 = match base {
        Some(base) => row_total(base),
        None => 0,
    };
    let changes = match changes {
        Some(changes) => changes,
        None => {
            assert(changed_rows(before, Map::empty()) =~= before);
            return count;
        },
    };
    let entries = changes.iter();
    let ghost mut now = before;
    let ghost mut done: Map<u128, bool> = Map::empty();
    proof {
        assert(changed_rows(before, done) =~= before);
        lemma_rows_finite(before);
    }
    for index in 0..entries.len()
        invariant
            forall|row: u128| #[trigger] changes@.dom().contains(row) ==> row <= u32::MAX,
            forall|i: int, j: int|
                0 <= i < j < entries@.len() ==> (#[trigger] entries@[i]).0 < (
                #[trigger] entries@[j]).0,
            forall|i: int|
                0 <= i < entries@.len() ==> changes@.dom().contains((#[trigger] entries@[i]).0)
                    && changes@[entries@[i].0] == *entries@[i].1,
            before == match base {
                Some(base) => bitmap_rows(*base),
                None => Set::empty(),
            },
            forall|key: u128| #[trigger]
                done.dom().contains(key) <==> exists|i: int|
                    0 <= i < index && (#[trigger] entries@[i]).0 == key,
            forall|key: u128| #[trigger]
                done.dom().contains(key) ==> changes@.dom().contains(key) && done[key]
                    == changes@[key],
            now == changed_rows(before, done),
            now.finite(),
            count == now.len(),
    {
        assert(changes@.dom().contains(entries@[index as int].0));
        let row: u32 = entries[index].0 as u32;
        let present: bool = *entries[index].1;
        let was_present = match base {
            Some(base) => holds_row(base, row),
            None => false,
        };
        let ghost key = row as u128;
        let ghost known = done;
        proof {
            assert(!done.dom().contains(key)) by {
                if done.dom().contains(key) {
                    let i = choose|i: int| 0 <= i < index && (#[trigger] entries@[i]).0 == key;
                    assert(entries@[i].0 < entries@[index as int].0);
                }
            }
            assert(now.contains(row) == was_present);
            let next = if present {
                now.insert(row)
            } else {
                now.remove(row)
            };
            done = done.insert(key, present);
            assert(changed_rows(before, done) =~= next);
            now = next;
            lemma_rows_finite(now);
            lemma_count_bound(now);
            assert forall|other: u128| #[trigger]
                done.dom().contains(other) <==> exists|i: int|
                    0 <= i < index + 1 && (#[trigger] entries@[i]).0 == other by {
                if known.dom().contains(other) {
                    let i = choose|i: int| 0 <= i < index && (#[trigger] entries@[i]).0 == other;
                    assert(entries@[i].0 == other);
                }
                if other == key {
                    assert(entries@[index as int].0 == other);
                }
            }
        }
        if present && !was_present {
            count = count.saturating_add(1);
        } else if !present && was_present {
            count = count.saturating_sub(1);
        }
    }
    proof {
        assert(done =~= changes@) by {
            assert forall|key: u128| #[trigger] changes@.dom().contains(key) implies done.dom().contains(
                key,
            ) by {
                let i = choose|i: int| 0 <= i < entries@.len() && (#[trigger] entries@[i]).0 == key;
                assert(entries@[i].0 == key);
            }
        }
    }
    count
}

/// There are no more rows than row ordinals.
proof fn lemma_count_bound(rows: Set<u32>)
    ensures
        rows.len() <= u32::MAX as int + 1,
{
    lemma_rows_finite(rows);
    let numbers = vstd::set_lib::set_int_range(0, u32::MAX as int + 1);
    vstd::set_lib::lemma_int_range(0, u32::MAX as int + 1);
    let image = rows.map(|row: u32| row as int);
    assert(image.subset_of(numbers));
    vstd::set_lib::lemma_len_subset(image, numbers);
    vstd::set_lib::lemma_map_size(rows, image, |row: u32| row as int);
}

/// A key on the right side of a lower bound.
pub open spec fn above(key: Key, bound: Option<(Key, bool)>) -> bool {
    match bound {
        Some((bound, inclusive)) => if inclusive {
            !key_less(key, bound)
        } else {
            key_less(bound, key)
        },
        None => true,
    }
}

/// A key on the right side of an upper bound.
pub open spec fn below(key: Key, bound: Option<(Key, bool)>) -> bool {
    match bound {
        Some((bound, inclusive)) => if inclusive {
            !key_less(bound, key)
        } else {
            key_less(key, bound)
        },
        None => true,
    }
}

/// What a bound is.
pub open spec fn bound_view(bound: Option<(&IndexKey, bool)>) -> Option<(Key, bool)> {
    match bound {
        Some((key, inclusive)) => Some((key.key(), inclusive)),
        None => None,
    }
}

fn in_bounds(
    key: &IndexKey,
    lower: Option<(&IndexKey, bool)>,
    upper: Option<(&IndexKey, bool)>,
) -> (inside: bool)
    ensures
        inside == (above(key.key(), bound_view(lower)) && below(key.key(), bound_view(upper))),
{
    let code = code_of(key);
    let above_lower = match lower {
        Some((bound, inclusive)) => {
            let edge = code_of(bound);
            if inclusive {
                !precedes(&code, &edge)
            } else {
                precedes(&edge, &code)
            }
        },
        None => true,
    };
    let below_upper = match upper {
        Some((bound, inclusive)) => {
            let edge = code_of(bound);
            if inclusive {
                !precedes(&edge, &code)
            } else {
                precedes(&code, &edge)
            }
        },
        None => true,
    };
    above_lower && below_upper
}

/// A posting in a range.
pub open spec fn in_range(
    postings: Postings,
    lower: Option<(Key, bool)>,
    upper: Option<(Key, bool)>,
    key: Key,
    row: u32,
) -> bool {
    &&& postings.ranged(key)
    &&& above(key, lower)
    &&& below(key, upper)
    &&& postings.rows(key).contains(row)
}

/// How many keys, rows and bytes postings have.
#[derive(Clone, Copy, Debug, PartialEq, Eq, Structural)]
pub struct PostingShape {
    pub distinct: u64,
    pub total: u64,
    pub largest: u64,
    pub bytes: u64,
}

/// The keys that have rows, each once; of keys that are alike, the one that stands for them.
pub open spec fn lists_keys(postings: Postings, keys: Seq<Key>) -> bool {
    &&& keys.no_duplicates()
    &&& forall|key: Key| #[trigger]
        keys.contains(key) <==> postings.leads(key) && postings.rows(key).len() > 0
}

/// Rows of the first keys.
pub open spec fn row_sum(postings: Postings, keys: Seq<Key>) -> int
    decreases keys.len(),
{
    if keys.len() == 0 {
        0
    } else {
        row_sum(postings, keys.drop_last()) + postings.rows(keys.last()).len()
    }
}

/// Rows of the key with most of them.
pub open spec fn row_peak(postings: Postings, keys: Seq<Key>) -> int
    decreases keys.len(),
{
    if keys.len() == 0 {
        0
    } else {
        spec_max(
            row_peak(postings, keys.drop_last()),
            postings.rows(keys.last()).len() as int,
        )
    }
}

/// Bytes that a key counts for: a term of a text index for its own bytes, another key for its size.
pub open spec fn stored_size(key: Key, terms: bool) -> int {
    match key {
        Key::Text(text) => if terms {
            encode_utf8(text).len() as int
        } else {
            key_size(key)
        },
        _ => key_size(key),
    }
}

fn stored_bytes(key: &IndexKey, terms: bool) -> (bytes: u64)
    ensures
        bytes == saturated64(stored_size(key.key(), terms)),
{
    if terms {
        if let IndexKey::String(text) = key {
            return text.as_str().as_bytes().len() as u64;
        }
    }
    index_key_estimated_bytes(key)
}

/// Bytes of the keys and of their rows.
pub open spec fn byte_sum(postings: Postings, keys: Seq<Key>, terms: bool) -> int
    decreases keys.len(),
{
    if keys.len() == 0 {
        0
    } else {
        byte_sum(postings, keys.drop_last(), terms) + saturated64(stored_size(keys.last(), terms))
            + saturated64(postings.rows(keys.last()).len() as int * 4)
    }
}

/// The shape that goes with a listing of the keys.
pub open spec fn is_shape(
    postings: Postings,
    keys: Seq<Key>,
    terms: bool,
    shape: PostingShape,
) -> bool {
    &&& shape.distinct == saturated64(keys.len() as int)
    &&& shape.total == saturated64(row_sum(postings, keys))
    &&& shape.largest == row_peak(postings, keys)
    &&& shape.bytes == saturated64(byte_sum(postings, keys, terms))
}

proof fn lemma_sums_positive(postings: Postings, keys: Seq<Key>, terms: bool)
    ensures
        row_sum(postings, keys) >= 0,
        row_peak(postings, keys) >= 0,
        byte_sum(postings, keys, terms) >= 0,
    decreases keys.len(),
{
    if keys.len() > 0 {
        lemma_sums_positive(postings, keys.drop_last(), terms);
        lemma_size_positive(keys.last());
    }
}

impl Postings {
    /// The changes of exactly this key stand at this place.
    spec fn noted_at(&self, place: int, key: Key) -> bool {
        let hash = lookup_key(self.domain, key);
        0 <= place < self.bucket(hash).len() && self.bucket(hash)[place].key.key() == key
    }

    /// A range asks for the rows of this key: the base has it, or has none like it and it was changed.
    pub closed spec fn ranged(&self, key: Key) -> bool {
        match self.table().entry(key) {
            Some(entry) => entry.0 == key,
            None => exists|place: int| #[trigger] self.noted_at(place, key),
        }
    }

    /// The key stands for all that are like it: the base has it, or has none like it and it is the
    /// first of them that was changed.
    pub closed spec fn leads(&self, key: Key) -> bool {
        match self.table().entry(key) {
            Some(entry) => entry.0 == key,
            None => first_alike(key, self.change_order()) == Some(key),
        }
    }

    /// All rows of the keys in a range.
    #[verifier::rlimit(40)]
    #[verifier::spinoff_prover]
    pub fn between(
        &self,
        lower: Option<(&IndexKey, bool)>,
        upper: Option<(&IndexKey, bool)>,
    ) -> (result: RoaringBitmap)
        requires
            self.wf(),
        ensures
            ranges_over(*self, bound_view(lower), bound_view(upper), bitmap_rows(result)),
    {
        let mut result = self.between_base(lower, upper);
        let ghost first = bitmap_rows(result);
        let ghost low = bound_view(lower);
        let ghost high = bound_view(upper);
        let entries = self.deltas.iter();
        for index in 0..entries.len()
            invariant
                self.wf(),
                self.lists_buckets(entries@),
                low == bound_view(lower),
                high == bound_view(upper),
                forall|row: u32| #[trigger]
                    bitmap_rows(result).contains(row) <==> first.contains(row) || exists|i: int|
                        0 <= i < index && self.bucket_adds(
                            (#[trigger] entries@[i]).0,
                            low,
                            high,
                            row,
                        ),
        {
            let bucket = entries[index].1.value();
            let ghost before = bitmap_rows(result);
            assert(self.deltas@.dom().contains(entries@[index as int].0));
            assert(bucket@ == self.bucket(entries@[index as int].0));
            self.unite_bucket(&mut result, bucket, entries[index].0, lower, upper);
            proof {
                assert forall|row: u32| #[trigger]
                    bitmap_rows(result).contains(row) <==> first.contains(row) || exists|i: int|
                        0 <= i < index + 1 && self.bucket_adds(
                            (#[trigger] entries@[i]).0,
                            low,
                            high,
                            row,
                        ) by {
                    if before.contains(row) && !first.contains(row) {
                        let i = choose|i: int|
                            0 <= i < index && self.bucket_adds(
                                (#[trigger] entries@[i]).0,
                                low,
                                high,
                                row,
                            );
                        assert(0 <= i < index + 1 && self.bucket_adds(
                            entries@[i].0,
                            low,
                            high,
                            row,
                        ));
                    }
                    if self.bucket_adds(entries@[index as int].0, low, high, row) {
                        assert(0 <= index < index + 1);
                    }
                }
            }
        }
        proof {
            assert forall|row: u32| #[trigger]
                bitmap_rows(result).contains(row) <==> exists|key: Key| #[trigger]
                    in_range(*self, low, high, key, row) by {
                if bitmap_rows(result).contains(row) {
                    if first.contains(row) {
                        let i = choose|i: int|
                            0 <= i < self.table().entries@.len() && in_range(
                                *self,
                                low,
                                high,
                                (#[trigger] self.table().entries@[i]).key.key(),
                                row,
                            );
                        assert(in_range(
                            *self,
                            low,
                            high,
                            self.table().entries@[i].key.key(),
                            row,
                        ));
                    } else {
                        let i = choose|i: int|
                            0 <= i < entries@.len() && self.bucket_adds(
                                (#[trigger] entries@[i]).0,
                                low,
                                high,
                                row,
                            );
                        let hash = entries@[i].0;
                        let place = choose|place: int|
                            0 <= place < self.bucket(hash).len() && self.delta_adds(
                                (#[trigger] self.bucket(hash)[place]).key.key(),
                                low,
                                high,
                                row,
                            );
                        let key = self.bucket(hash)[place].key.key();
                        assert(self.bucket(hash)[place].sound());
                        assert(self.noted_at(place, key));
                        assert(in_range(*self, low, high, key, row));
                    }
                }
                if exists|key: Key| #[trigger] in_range(*self, low, high, key, row) {
                    let key = choose|key: Key| #[trigger] in_range(*self, low, high, key, row);
                    if self.table().entry(key) is Some {
                        let place = choose|place: int| #[trigger] self.table().at(place, key);
                        assert(self.table().at(place, key));
                        self.table().lemma_rows(place, key);
                        assert(in_range(
                            *self,
                            low,
                            high,
                            self.table().entries@[place].key.key(),
                            row,
                        ));
                    } else {
                        let place = choose|place: int| #[trigger] self.noted_at(place, key);
                        let hash = lookup_key(self.domain, key);
                        assert(self.deltas@.dom().contains(hash));
                        let i = choose|i: int|
                            0 <= i < entries@.len() && (#[trigger] entries@[i]).0 == hash;
                        assert(self.delta_adds(
                            self.bucket(hash)[place].key.key(),
                            low,
                            high,
                            row,
                        ));
                        assert(self.bucket_adds(entries@[i].0, low, high, row));
                    }
                }
            }
        }
        result
    }

    /// The base has no key like this one, and a range takes its row in.
    spec fn delta_adds(
        &self,
        key: Key,
        lower: Option<(Key, bool)>,
        upper: Option<(Key, bool)>,
        row: u32,
    ) -> bool {
        &&& self.table().entry(key) is None
        &&& above(key, lower)
        &&& below(key, upper)
        &&& self.rows(key).contains(row)
    }

    /// Some change of a digest adds the row to a range.
    spec fn bucket_adds(
        &self,
        hash: u128,
        lower: Option<(Key, bool)>,
        upper: Option<(Key, bool)>,
        row: u32,
    ) -> bool {
        exists|place: int|
            0 <= place < self.bucket(hash).len() && self.delta_adds(
                (#[trigger] self.bucket(hash)[place]).key.key(),
                lower,
                upper,
                row,
            )
    }

    /// All rows of the keys of the base in a range.
    fn between_base(
        &self,
        lower: Option<(&IndexKey, bool)>,
        upper: Option<(&IndexKey, bool)>,
    ) -> (result: RoaringBitmap)
        requires
            self.wf(),
        ensures
            forall|row: u32| #[trigger]
                bitmap_rows(result).contains(row) <==> exists|i: int|
                    0 <= i < self.table().entries@.len() && in_range(
                        *self,
                        bound_view(lower),
                        bound_view(upper),
                        (#[trigger] self.table().entries@[i]).key.key(),
                        row,
                    ),
    {
        let table = self.base.value();
        let mut result = empty_bitmap();
        let ghost low = bound_view(lower);
        let ghost high = bound_view(upper);
        for index in 0..table.entries.len()
            invariant
                self.wf(),
                *table == self.table(),
                low == bound_view(lower),
                high == bound_view(upper),
                forall|row: u32| #[trigger]
                    bitmap_rows(result).contains(row) <==> exists|i: int|
                        0 <= i < index && in_range(
                            *self,
                            low,
                            high,
                            (#[trigger] table.entries@[i]).key.key(),
                            row,
                        ),
        {
            let entry = &table.entries[index];
            let ghost before = bitmap_rows(result);
            let ghost model = table.entries@[index as int].key.key();
            if in_bounds(&entry.key, lower, upper) {
                let rows = self.current(&entry.key);
                unite(&mut result, &rows);
            }
            proof {
                assert(table.at(index as int, model));
                table.lemma_rows(index as int, model);
                assert forall|row: u32| #[trigger]
                    bitmap_rows(result).contains(row) <==> exists|i: int|
                        0 <= i < index + 1 && in_range(
                            *self,
                            low,
                            high,
                            (#[trigger] table.entries@[i]).key.key(),
                            row,
                        ) by {
                    if before.contains(row) {
                        let i = choose|i: int|
                            0 <= i < index && in_range(
                                *self,
                                low,
                                high,
                                (#[trigger] table.entries@[i]).key.key(),
                                row,
                            );
                        assert(0 <= i < index + 1);
                        assert(in_range(*self, low, high, table.entries@[i].key.key(), row));
                    }
                    if in_range(*self, low, high, model, row) {
                        assert(in_range(
                            *self,
                            low,
                            high,
                            table.entries@[index as int].key.key(),
                            row,
                        ));
                    }
                }
            }
        }
        result
    }

    /// Adds what the changes of one digest add to a range.
    fn unite_bucket(
        &self,
        result: &mut RoaringBitmap,
        bucket: &Vec<PostingDelta>,
        hash: u128,
        lower: Option<(&IndexKey, bool)>,
        upper: Option<(&IndexKey, bool)>,
    )
        requires
            self.wf(),
            bucket@ == self.bucket(hash),
        ensures
            forall|row: u32| #[trigger]
                bitmap_rows(*final(result)).contains(row) <==> bitmap_rows(*old(result)).contains(
                    row,
                ) || self.bucket_adds(hash, bound_view(lower), bound_view(upper), row),
    {
        let ghost first = bitmap_rows(*result);
        let ghost low = bound_view(lower);
        let ghost high = bound_view(upper);
        for place in 0..bucket.len()
            invariant
                self.wf(),
                bucket@ == self.bucket(hash),
                low == bound_view(lower),
                high == bound_view(upper),
                forall|row: u32| #[trigger]
                    bitmap_rows(*result).contains(row) <==> first.contains(row) || exists|p: int|
                        0 <= p < place && self.delta_adds(
                            (#[trigger] bucket@[p]).key.key(),
                            low,
                            high,
                            row,
                        ),
        {
            let key = &bucket[place].key;
            let ghost before = bitmap_rows(*result);
            let known = self.base.value().get(key).is_some();
            if !known && in_bounds(key, lower, upper) {
                let rows = self.current(key);
                unite(result, &rows);
            }
            proof {
                assert forall|row: u32| #[trigger]
                    bitmap_rows(*result).contains(row) <==> first.contains(row) || exists|p: int|
                        0 <= p < place + 1 && self.delta_adds(
                            (#[trigger] bucket@[p]).key.key(),
                            low,
                            high,
                            row,
                        ) by {
                    if before.contains(row) && !first.contains(row) {
                        let p = choose|p: int|
                            0 <= p < place && self.delta_adds(
                                (#[trigger] bucket@[p]).key.key(),
                                low,
                                high,
                                row,
                            );
                        assert(0 <= p < place + 1 && self.delta_adds(
                            bucket@[p].key.key(),
                            low,
                            high,
                            row,
                        ));
                    }
                    if self.delta_adds(bucket@[place as int].key.key(), low, high, row) {
                        assert(0 <= place < place + 1);
                    }
                }
            }
        }
    }

    /// The first key that was changed of all that are alike, where the base has none like it.
    #[verifier::rlimit(40)]
    #[verifier::spinoff_prover]
    fn first_changed(&self) -> (table: PostingTable)
        requires
            self.wf(),
        ensures
            table.wf(),
            forall|key: Key| #[trigger]
                table.entry(key) == self.first_entry(key, self.change_order()),
    {
        let mut table = PostingTable::empty();
        let entries = self.deltas.iter();
        let ghost mut reached: int = 0;
        for index in 0..entries.len()
            invariant
                self.wf(),
                self.lists_buckets(entries@),
                table.wf(),
                0 <= reached <= u128::MAX as int + 1,
                index == 0 ==> reached == 0,
                index > 0 ==> reached == entries@[index - 1].0 + 1,
                forall|key: Key| #[trigger]
                    table.entry(key) == self.first_entry(key, self.changes_below(reached)),
        {
            let bucket = entries[index].1.value();
            let ghost hash = entries@[index as int].0;
            proof {
                assert(self.deltas@.dom().contains(entries@[index as int].0));
                assert(bucket@ == self.bucket(hash));
                self.lemma_between_buckets(entries@, index as int, reached);
                assert(self.changes_below(hash as int) + self.bucket_changes(hash).take(0)
                    =~= self.changes_below(hash as int));
            }
            for place in 0..bucket.len()
                invariant
                    self.wf(),
                    bucket@ == self.bucket(hash),
                    table.wf(),
                    forall|key: Key| #[trigger]
                        table.entry(key) == self.first_entry(
                            key,
                            self.changes_below(hash as int) + self.bucket_changes(hash).take(
                                place as int,
                            ),
                        ),
            {
                let delta = &bucket[place];
                let ghost before = table;
                let ghost model = delta.key.key();
                let known = self.base.value().get(&delta.key).is_some();
                if !known && table.get(&delta.key).is_none() {
                    table.set(delta.key.clone(), empty_bitmap());
                }
                proof {
                    let list = self.changes_below(hash as int);
                    let own = self.bucket_changes(hash);
                    let prefix = list + own.take(place as int);
                    let next = (model, delta.changes@);
                    assert(own[place as int] == next);
                    assert(list + own.take(place + 1) =~= prefix.push(next));
                    assert(prefix.push(next).drop_last() =~= prefix);
                    assert forall|key: Key| #[trigger]
                        table.entry(key) == self.first_entry(key, prefix.push(next)) by {
                        assert(before.entry(key) == self.first_entry(key, prefix));
                        assert(before.entry(model) == self.first_entry(model, prefix));
                        if alike(model, key) {
                            before.lemma_alike_entry(model, key);
                            self.table().lemma_alike_entry(model, key);
                        }
                    }
                }
            }
            proof {
                reached = hash + 1;
                let own = self.bucket_changes(hash);
                assert(own.take(bucket@.len() as int) =~= own);
            }
        }
        proof {
            self.lemma_last_bucket(entries@, reached);
        }
        table
    }

    spec fn first_entry(&self, key: Key, changes: Seq<(Key, Map<u128, bool>)>) -> Option<
        (Key, Set<u32>),
    > {
        if self.table().entry(key) is Some {
            None
        } else {
            match first_alike(key, changes) {
                Some(first) => Some((first, Set::<u32>::empty())),
                None => None,
            }
        }
    }

    /// Counts the keys of a table that have rows.
    #[verifier::rlimit(40)]
    #[verifier::spinoff_prover]
    fn tally(
        &self,
        table: &PostingTable,
        start: PostingShape,
        terms: bool,
        Ghost(known): Ghost<Seq<Key>>,
    ) -> (result: (PostingShape, Ghost<Seq<Key>>))
        requires
            self.wf(),
            table.wf(),
            known.no_duplicates(),
            is_shape(*self, known, terms, start),
            forall|i: int|
                0 <= i < table.entries@.len() ==> !known.contains(
                    (#[trigger] table.entries@[i]).key.key(),
                ),
        ensures
            result.1@.no_duplicates(),
            is_shape(*self, result.1@, terms, result.0),
            forall|key: Key| #[trigger]
                result.1@.contains(key) <==> known.contains(key) || self.rows(key).len() > 0
                    && exists|i: int|
                    0 <= i < table.entries@.len() && (#[trigger] table.entries@[i]).key.key() == key,
    {
        let mut shape = start;
        let ghost mut keys: Seq<Key> = known;
        for index in 0..table.entries.len()
            invariant
                self.wf(),
                table.wf(),
                keys.no_duplicates(),
                forall|i: int|
                    0 <= i < table.entries@.len() ==> !known.contains(
                        (#[trigger] table.entries@[i]).key.key(),
                    ),
                forall|key: Key| #[trigger]
                    keys.contains(key) <==> known.contains(key) || self.rows(key).len() > 0
                        && exists|i: int|
                        0 <= i < index && (#[trigger] table.entries@[i]).key.key() == key,
                is_shape(*self, keys, terms, shape),
        {
            let entry = &table.entries[index];
            let ghost model = entry.key.key();
            let ghost before = keys;
            proof {
                lemma_rows_finite(self.rows(model));
                lemma_sums_positive(*self, keys, terms);
                lemma_size_positive(model);
            }
            let rows: u64 = self.cardinality(&entry.key);
            if rows > 0 {
                shape.distinct = shape.distinct.saturating_add(1);
                shape.total = shape.total.saturating_add(rows);
                if rows > shape.largest {
                    shape.largest = rows;
                }
                shape.bytes = shape.bytes.saturating_add(
                    stored_bytes(&entry.key, terms),
                ).saturating_add(saturating_product64(rows, 4));
                proof {
                    keys = keys.push(model);
                    assert(keys.drop_last() =~= before);
                    assert(!before.contains(model)) by {
                        assert(!known.contains(table.entries@[index as int].key.key()));
                        if before.contains(model) {
                            let i = choose|i: int|
                                0 <= i < index && (#[trigger] table.entries@[i]).key.key() == model;
                            table.lemma_distinct(i, index as int);
                        }
                    }
                }
            }
            proof {
                assert forall|key: Key| #[trigger]
                    keys.contains(key) <==> known.contains(key) || self.rows(key).len() > 0
                        && exists|i: int|
                        0 <= i < index + 1 && (#[trigger] table.entries@[i]).key.key() == key by {
                    if before.contains(key) {
                        if !known.contains(key) {
                            let i = choose|i: int|
                                0 <= i < index && (#[trigger] table.entries@[i]).key.key() == key;
                            assert(table.entries@[i].key.key() == key);
                        }
                        let k = choose|k: int| 0 <= k < before.len() && before[k] == key;
                        assert(keys[k] == key);
                    }
                    if key == model {
                        assert(table.entries@[index as int].key.key() == key);
                        if rows > 0 {
                            assert(keys[before.len() as int] == key);
                        }
                    }
                    if keys.contains(key) {
                        let k = choose|k: int| 0 <= k < keys.len() && keys[k] == key;
                        if k < before.len() {
                            assert(before[k] == key);
                        }
                    }
                }
            }
        }
        (shape, Ghost(keys))
    }

    /// Statistics of the postings, of scalar keys or of terms.
    pub fn shape(&self, terms: bool) -> (shape: PostingShape)
        requires
            self.wf(),
        ensures
            exists|keys: Seq<Key>| #[trigger]
                lists_keys(*self, keys) && is_shape(*self, keys, terms, shape),
    {
        let start = PostingShape { distinct: 0, total: 0, largest: 0, bytes: 0 };
        let (based, Ghost(known)) = self.tally(
            self.base.value(),
            start,
            terms,
            Ghost(Seq::empty()),
        );
        let changed = self.first_changed();
        proof {
            assert forall|i: int| 0 <= i < changed.entries@.len() implies !known.contains(
                (#[trigger] changed.entries@[i]).key.key(),
            ) by {
                let key = changed.entries@[i].key.key();
                assert(changed.at(i, key));
                assert(changed.entry(key) is Some);
                if known.contains(key) {
                    let j = choose|j: int|
                        0 <= j < self.table().entries@.len() && (
                        #[trigger] self.table().entries@[j]).key.key() == key;
                    assert(self.table().at(j, key));
                }
            }
        }
        let (shape, Ghost(keys)) = self.tally(&changed, based, terms, Ghost(known));
        proof {
            assert forall|key: Key| #[trigger] keys.contains(key) <==> self.leads(key) && self.rows(
                key,
            ).len() > 0 by {
                if keys.contains(key) {
                    if known.contains(key) {
                        let j = choose|j: int|
                            0 <= j < self.table().entries@.len() && (
                            #[trigger] self.table().entries@[j]).key.key() == key;
                        assert(self.table().at(j, key));
                        self.table().lemma_rows(j, key);
                    } else {
                        let i = choose|i: int|
                            0 <= i < changed.entries@.len() && (
                            #[trigger] changed.entries@[i]).key.key() == key;
                        assert(changed.at(i, key));
                        changed.lemma_rows(i, key);
                    }
                }
                if self.leads(key) && self.rows(key).len() > 0 {
                    if self.table().entry(key) is Some {
                        let place = choose|place: int| #[trigger] self.table().at(place, key);
                        self.table().lemma_rows(place, key);
                        assert(self.table().entries@[place].key.key() == key);
                        assert(known.contains(key));
                    } else {
                        assert(changed.entry(key) == Some((key, Set::<u32>::empty())));
                        let place = choose|place: int| #[trigger] changed.at(place, key);
                        changed.lemma_rows(place, key);
                        assert(changed.entries@[place].key.key() == key);
                    }
                }
            }
            assert(lists_keys(*self, keys));
        }
        shape
    }
}

/// Equality postings over dense row ordinals.
pub struct EqualityIndex {
    pub postings: Postings,
}

/// Sorted scalar range postings with inclusive and exclusive endpoints.
pub struct RangeIndex {
    pub postings: Postings,
}

/// Postings after a value came to a row or left it. NULL is not indexed.
pub open spec fn value_put(
    before: Postings,
    after: Postings,
    value: Scalar,
    row: u32,
    present: bool,
    result: Result<()>,
) -> bool {
    &&& after.wf()
    &&& match value_key(value) {
        Some(key) => {
            &&& result is Ok
            &&& row_put(before, after, key, row, present)
        },
        None => {
            &&& after == before
            &&& if value == Scalar::Null {
                result is Ok
            } else {
                fails_with(
                    result,
                    ErrorCode::QueryType,
                    "document properties require an explicitly declared document-path index"@,
                )
            }
        },
    }
}

fn put_value(postings: &mut Postings, value: &ScalarValue, row: u32, present: bool) -> (result:
    Result<()>)
    requires
        old(postings).wf(),
    ensures
        value_put(*old(postings), *final(postings), value@, row, present, result),
{
    let null = match value {
        ScalarValue::Null => true,
        _ => false,
    };
    if null {
        return Ok(());
    }
    let key = match IndexKey::try_from(value) {
        Ok(key) => key,
        Err(error) => {
            return Err(error);
        },
    };
    postings.put(key, row, present);
    Ok(())
}

impl Default for EqualityIndex {
    fn default() -> (index: Self)
        ensures
            index.postings.wf(),
            index.postings.spec_domain() == PostingDomain::Scalar,
            index.postings.written(0),
            forall|key: Key| #[trigger] index.postings.rows(key) == Set::<u32>::empty(),
    {
        EqualityIndex { postings: Postings::empty(PostingDomain::Scalar) }
    }
}

impl Clone for EqualityIndex {
    fn clone(&self) -> (copy: Self)
        ensures
            copy == *self,
    {
        EqualityIndex { postings: self.postings.clone() }
    }
}

impl EqualityIndex {
    pub fn insert(&mut self, value: &ScalarValue, row: u32) -> (result: Result<()>)
        requires
            old(self).postings.wf(),
        ensures
            value_put(old(self).postings, final(self).postings, value@, row, true, result),
    {
        put_value(&mut self.postings, value, row, true)
    }

    pub fn insert_key(&mut self, key: IndexKey, row: u32)
        requires
            old(self).postings.wf(),
        ensures
            final(self).postings.wf(),
            row_put(old(self).postings, final(self).postings, key.key(), row, true),
    {
        self.postings.put(key, row, true);
    }

    pub fn remove(&mut self, value: &ScalarValue, row: u32) -> (result: Result<()>)
        requires
            old(self).postings.wf(),
        ensures
            value_put(old(self).postings, final(self).postings, value@, row, false, result),
    {
        put_value(&mut self.postings, value, row, false)
    }

    pub fn remove_key(&mut self, key: &IndexKey, row: u32)
        requires
            old(self).postings.wf(),
        ensures
            final(self).postings.wf(),
            row_put(old(self).postings, final(self).postings, key.key(), row, false),
    {
        self.postings.put(key.clone(), row, false);
    }

    /// The rows of a key, if it has any.
    pub fn get(&self, key: &IndexKey) -> (rows: Option<RoaringBitmap>)
        requires
            self.postings.wf(),
        ensures
            match rows {
                Some(rows) => bitmap_rows(rows) == self.postings.rows(key.key())
                    && self.postings.rows(key.key()).len() > 0,
                None => self.postings.rows(key.key()) == Set::<u32>::empty(),
            },
    {
        self.postings.get(key)
    }
}

impl Default for RangeIndex {
    fn default() -> (index: Self)
        ensures
            index.postings.wf(),
            index.postings.spec_domain() == PostingDomain::Scalar,
            index.postings.written(0),
            forall|key: Key| #[trigger] index.postings.rows(key) == Set::<u32>::empty(),
    {
        RangeIndex { postings: Postings::empty(PostingDomain::Scalar) }
    }
}

impl Clone for RangeIndex {
    fn clone(&self) -> (copy: Self)
        ensures
            copy == *self,
    {
        RangeIndex { postings: self.postings.clone() }
    }
}

impl RangeIndex {
    pub fn insert(&mut self, value: &ScalarValue, row: u32) -> (result: Result<()>)
        requires
            old(self).postings.wf(),
        ensures
            value_put(old(self).postings, final(self).postings, value@, row, true, result),
    {
        put_value(&mut self.postings, value, row, true)
    }

    pub fn insert_key(&mut self, key: IndexKey, row: u32)
        requires
            old(self).postings.wf(),
        ensures
            final(self).postings.wf(),
            row_put(old(self).postings, final(self).postings, key.key(), row, true),
    {
        self.postings.put(key, row, true);
    }

    pub fn remove_key(&mut self, key: &IndexKey, row: u32)
        requires
            old(self).postings.wf(),
        ensures
            final(self).postings.wf(),
            row_put(old(self).postings, final(self).postings, key.key(), row, false),
    {
        self.postings.put(key.clone(), row, false);
    }

    /// All rows of the keys in a range.
    pub fn between(
        &self,
        lower: Option<(&IndexKey, bool)>,
        upper: Option<(&IndexKey, bool)>,
    ) -> (result: RoaringBitmap)
        requires
            self.postings.wf(),
        ensures
            ranges_over(
                self.postings,
                match lower {
                    Some((key, inclusive)) => Some((key.key(), inclusive)),
                    None => None,
                },
                match upper {
                    Some((key, inclusive)) => Some((key.key(), inclusive)),
                    None => None,
                },
                bitmap_rows(result),
            ),
    {
        self.postings.between(lower, upper)
    }
}

/// The rows are those of a range.
pub open spec fn ranges_over(
    postings: Postings,
    lower: Option<(Key, bool)>,
    upper: Option<(Key, bool)>,
    rows: Set<u32>,
) -> bool {
    forall|row: u32| #[trigger]
        rows.contains(row) <==> exists|key: Key| #[trigger]
            in_range(postings, lower, upper, key, row)
}

/// A range holds every row of a plain key between its bounds, and every row that it holds has a key
/// between them. A bound that is taken in lets keys like it pass, one that is not keeps them out, and
/// without a bound every key passes.
pub proof fn law_ranges_hold_what_lies_between(
    postings: Postings,
    lower: Option<(Key, bool)>,
    upper: Option<(Key, bool)>,
    rows: Set<u32>,
    key: Key,
    row: u32,
)
    requires
        postings.wf(),
        ranges_over(postings, lower, upper, rows),
    ensures
        plain_key(key) && postings.rows(key).contains(row) && (lower matches Some(low) ==> key_less(
            low.0,
            key,
        ) || low.1 && alike(low.0, key)) && (upper matches Some(high) ==> key_less(key, high.0)
            || high.1 && alike(key, high.0)) ==> rows.contains(row),
        rows.contains(row) ==> exists|key: Key| #[trigger]
            postings.rows(key).contains(row) && (lower matches Some(low) ==> key_less(low.0, key)
                || low.1 && alike(low.0, key)) && (upper matches Some(high) ==> key_less(
                key,
                high.0,
            ) || high.1 && alike(key, high.0)),
{
    if plain_key(key) && postings.rows(key).contains(row) {
        postings.lemma_plain_ranged(key, row);
    }
    if let Some(low) = lower {
        lemma_code_order(key_code(low.0), key_code(key), key_code(key));
    }
    if let Some(high) = upper {
        lemma_code_order(key_code(high.0), key_code(key), key_code(key));
    }
    if plain_key(key) && postings.rows(key).contains(row) && (lower matches Some(low) ==> key_less(
        low.0,
        key,
    ) || low.1 && alike(low.0, key)) && (upper matches Some(high) ==> key_less(key, high.0)
        || high.1 && alike(key, high.0)) {
        lemma_code_order(key_code(key), key_code(key), key_code(key));
        assert(in_range(postings, lower, upper, key, row));
    }
    if rows.contains(row) {
        let found = choose|found: Key| #[trigger] in_range(postings, lower, upper, found, row);
        if let Some(low) = lower {
            lemma_code_order(key_code(low.0), key_code(found), key_code(low.0));
        }
        if let Some(high) = upper {
            lemma_code_order(key_code(high.0), key_code(found), key_code(high.0));
        }
        assert(postings.rows(found).contains(row));
    }
}

/// A range between two dates holds exactly the rows of the dates from the first to the last, and a range
/// between two numbers those of the numbers from the first to the last.
pub proof fn law_ranges_of_dates_and_numbers(
    postings: Postings,
    low: i64,
    high: i64,
    dated: Set<u32>,
    numbered: Set<u32>,
    row: u32,
)
    requires
        postings.wf(),
        ranges_over(
            postings,
            Some((Key::Date(low), true)),
            Some((Key::Date(high), true)),
            dated,
        ),
        ranges_over(
            postings,
            Some((Key::Integer(low), true)),
            Some((Key::Integer(high), true)),
            numbered,
        ),
    ensures
        dated.contains(row) <==> exists|days: i64|
            low <= days <= high && #[trigger] postings.rows(Key::Date(days)).contains(row),
        numbered.contains(row) <==> exists|number: i64|
            low <= number <= high && #[trigger] postings.rows(Key::Integer(number)).contains(row),
{
    let first = Some((Key::Date(low), true));
    let last = Some((Key::Date(high), true));
    if dated.contains(row) {
        law_ranges_hold_what_lies_between(postings, first, last, dated, Key::Date(low), row);
        let key = choose|key: Key| #[trigger]
            postings.rows(key).contains(row) && (key_less(Key::Date(low), key) || alike(
                Key::Date(low),
                key,
            )) && (key_less(key, Key::Date(high)) || alike(key, Key::Date(high)));
        lemma_plain_or_less(Key::Date(low), key);
        lemma_plain_or_less(Key::Date(high), key);
        if kind_place(key) != 5 {
            law_kinds_compare_in_order(Key::Date(low), key);
            law_kinds_compare_in_order(key, Key::Date(high));
        }
        let days = key->Date_0;
        law_keys_of_one_kind_compare_like_values(low, days, false, false);
        law_keys_of_one_kind_compare_like_values(days, high, false, false);
        assert(postings.rows(Key::Date(days)).contains(row));
    }
    if exists|days: i64|
        low <= days <= high && #[trigger] postings.rows(Key::Date(days)).contains(row) {
        let days = choose|days: i64|
            low <= days <= high && #[trigger] postings.rows(Key::Date(days)).contains(row);
        law_keys_of_one_kind_compare_like_values(low, days, false, false);
        law_keys_of_one_kind_compare_like_values(days, high, false, false);
        law_ranges_hold_what_lies_between(postings, first, last, dated, Key::Date(days), row);
    }
    let first = Some((Key::Integer(low), true));
    let last = Some((Key::Integer(high), true));
    if numbered.contains(row) {
        law_ranges_hold_what_lies_between(postings, first, last, numbered, Key::Integer(low), row);
        let key = choose|key: Key| #[trigger]
            postings.rows(key).contains(row) && (key_less(Key::Integer(low), key) || alike(
                Key::Integer(low),
                key,
            )) && (key_less(key, Key::Integer(high)) || alike(key, Key::Integer(high)));
        lemma_plain_or_less(Key::Integer(low), key);
        lemma_plain_or_less(Key::Integer(high), key);
        if kind_place(key) != 1 {
            law_kinds_compare_in_order(Key::Integer(low), key);
            law_kinds_compare_in_order(key, Key::Integer(high));
        }
        let number = key->Integer_0;
        law_keys_of_one_kind_compare_like_values(low, number, false, false);
        law_keys_of_one_kind_compare_like_values(number, high, false, false);
        assert(postings.rows(Key::Integer(number)).contains(row));
    }
    if exists|number: i64|
        low <= number <= high && #[trigger] postings.rows(Key::Integer(number)).contains(row) {
        let number = choose|number: i64|
            low <= number <= high && #[trigger] postings.rows(Key::Integer(number)).contains(row);
        law_keys_of_one_kind_compare_like_values(low, number, false, false);
        law_keys_of_one_kind_compare_like_values(number, high, false, false);
        law_ranges_hold_what_lies_between(postings, first, last, numbered, Key::Integer(number), row);
    }
}

/// A key that is like a plain one is that one.
proof fn lemma_plain_or_less(plain: Key, key: Key)
    requires
        plain_key(plain),
    ensures
        alike(plain, key) ==> key == plain,
        alike(key, plain) ==> key == plain,
{
    if alike(plain, key) {
        law_plain_keys(plain, key);
    }
}

/// A range from a key to itself holds rows of keys like it and of no others. For a plain key those are
/// the rows of that key.
pub proof fn law_point_range(postings: Postings, bound: Key, key: Key, row: u32)
    requires
        postings.wf(),
    ensures
        in_range(postings, Some((bound, true)), Some((bound, true)), key, row) ==> alike(key, bound),
        plain_key(bound) ==> (in_range(
            postings,
            Some((bound, true)),
            Some((bound, true)),
            bound,
            row,
        ) <==> postings.rows(bound).contains(row)),
{
    lemma_code_order(key_code(bound), key_code(key), key_code(bound));
    lemma_code_order(key_code(bound), key_code(bound), key_code(bound));
    if plain_key(bound) && postings.rows(bound).contains(row) {
        postings.lemma_plain_ranged(bound, row);
    }
}

impl Postings {
    /// A plain key with rows is one that a range asks for.
    proof fn lemma_plain_ranged(&self, key: Key, row: u32)
        requires
            self.wf(),
            plain_key(key),
            self.rows(key).contains(row),
        ensures
            self.ranged(key),
    {
        let hash = lookup_key(self.domain, key);
        if self.table().entry(key) is Some {
            let place = choose|place: int| #[trigger] self.table().at(place, key);
            assert(self.table().at(place, key));
            self.table().lemma_rows(place, key);
            law_plain_keys(key, self.table().entries@[place].key.key());
        } else {
            assert(self.changes(key).dom().contains(row as u128));
            let place = choose|place: int| #[trigger] self.changed_at(hash, place, key);
            assert(self.changed_at(hash, place, key));
            law_plain_keys(key, self.bucket(hash)[place].key.key());
            assert(self.noted_at(place, key));
        }
    }
}

/// A row that was put under a key is found there, and one that was taken away is not. The other rows of
/// the key and all rows of other keys stay.
pub proof fn law_put_rows_are_found(
    before: Postings,
    after: Postings,
    key: Key,
    row: u32,
    present: bool,
    other: Key,
    bystander: u32,
)
    requires
        row_put(before, after, key, row, present),
        plain_key(key),
        plain_key(other),
        key != other,
        bystander != row,
    ensures
        after.rows(key).contains(row) == present,
        after.rows(key).contains(bystander) == before.rows(key).contains(bystander),
        after.rows(other) == before.rows(other),
{
    if alike(key, other) {
        law_plain_keys(key, other);
    }
    assert(before.counted_rows(key, key) == before.rows(key));
    assert(before.counted_rows(key, other) == before.rows(other));
    assert(before.same_slot(key, key));
}

} // verus!
