//! Offset and child storage for compact variable-width row lists.

use crate::arith::{saturated, saturating_product};
use crate::columns::validity::{replace_paged, Validity};
use crate::error::{fails_with, Error, ErrorCode, Result};
use crate::persistent::arena::{full_message, ArenaSpan, PagedArena};
use crate::persistent::paged::PagedVec;
use crate::persistent::radix::PersistentMap;
use crate::shared::{clone_faithful, detach, SharedFlat};
use vstd::layout::size_of;
use vstd::prelude::*;

verus! {

pub const DOCUMENT_SEAL_MIN_GARBAGE_BYTES: usize = 65536;

pub const DOCUMENT_SEAL_LIVE_FRACTION: usize = 4;

/// Immutable shared rows: row `i` is the values from offset `i` to offset `i + 1`.
struct SharedPackedBase<T> {
    offsets: SharedFlat<u32>,
    values: SharedFlat<T>,
}

impl<T> Clone for SharedPackedBase<T> {
    fn clone(&self) -> (copy: Self)
        ensures
            copy == *self,
    {
        SharedPackedBase { offsets: self.offsets.clone(), values: self.values.clone() }
    }
}

/// Variable-width rows. Mutations never rewrite the shared base; they append to the arena and replace
/// one row descriptor.
pub struct PackedLists<T> {
    base: Option<SharedPackedBase<T>>,
    spans: PagedVec<ArenaSpan>,
    arena: PagedArena<T>,
    overrides: PersistentMap<ArenaSpan>,
    live_values: usize,
}

/// Offsets that delimit rows in this many values.
pub open spec fn valid_offsets(offsets: Seq<u32>, total: int) -> bool {
    &&& offsets.len() > 0
    &&& offsets[0] == 0
    &&& offsets.last() == total
    &&& forall|i: int, j: int|
        0 <= i <= j < offsets.len() ==> #[trigger] offsets[i] <= #[trigger] offsets[j]
}

/// The rows that offsets delimit.
pub open spec fn delimited<T>(offsets: Seq<u32>, values: Seq<T>) -> Seq<Seq<T>> {
    Seq::new(
        (offsets.len() - 1) as nat,
        |row: int| values.subrange(offsets[row] as int, offsets[row + 1] as int),
    )
}

/// All values of the rows, in order.
pub open spec fn flat<T>(rows: Seq<Seq<T>>) -> Seq<T>
    decreases rows.len(),
{
    if rows.len() == 0 {
        Seq::empty()
    } else {
        flat(rows.drop_last()) + rows.last()
    }
}

/// Where each row starts among all values, and where the last one ends.
pub open spec fn row_offsets<T>(rows: Seq<Seq<T>>) -> Seq<u32> {
    Seq::new(rows.len() + 1, |row: int| flat(rows.take(row)).len() as u32)
}

/// Delimited rows hold the values, row after row.
proof fn lemma_delimited_flat<T>(offsets: Seq<u32>, values: Seq<T>, count: int)
    requires
        valid_offsets(offsets, values.len() as int),
        0 <= count < offsets.len(),
    ensures
        flat(delimited(offsets, values).take(count)) == values.subrange(0, offsets[count] as int),
    decreases count,
{
    let rows = delimited(offsets, values);
    if count > 0 {
        lemma_delimited_flat(offsets, values, count - 1);
        assert(rows.take(count).drop_last() =~= rows.take(count - 1));
        assert(rows.take(count).last() == rows[count - 1]);
        assert(values.subrange(0, offsets[count - 1] as int) + rows[count - 1] =~= values.subrange(
            0,
            offsets[count] as int,
        ));
    } else {
        assert(rows.take(0) =~= Seq::empty());
    }
}

pub(crate) proof fn lemma_flat_push<T>(rows: Seq<Seq<T>>, row: Seq<T>)
    ensures
        flat(rows.push(row)) == flat(rows) + row,
{
    assert(rows.push(row).drop_last() =~= rows);
}

/// Replacing a row changes the number of values by the difference of the rows.
proof fn lemma_flat_update<T>(rows: Seq<Seq<T>>, index: int, row: Seq<T>)
    requires
        0 <= index < rows.len(),
    ensures
        flat(rows.update(index, row)).len() == flat(rows).len() - rows[index].len() + row.len(),
        rows[index].len() <= flat(rows).len(),
    decreases rows.len(),
{
    let after = rows.update(index, row);
    if index == rows.len() - 1 {
        assert(after.drop_last() =~= rows.drop_last());
    } else {
        lemma_flat_update(rows.drop_last(), index, row);
        assert(after.drop_last() =~= rows.drop_last().update(index, row));
    }
}

proof fn lemma_flat_prefix<T>(rows: Seq<Seq<T>>, count: int)
    requires
        0 <= count <= rows.len(),
    ensures
        flat(rows.take(count)).len() <= flat(rows).len(),
    decreases rows.len(),
{
    if count == rows.len() {
        assert(rows.take(count) =~= rows);
    } else {
        lemma_flat_prefix(rows.drop_last(), count);
        assert(rows.drop_last().take(count) =~= rows.take(count));
    }
}

/// The offsets delimit as many rows, in as many values, as `rows` holds.
pub open spec fn extends<T>(rows: Seq<Seq<T>>, offsets: Seq<u32>, values: Seq<T>) -> bool {
    &&& valid_offsets(offsets, values.len() as int)
    &&& offsets.len() == rows.len() + 1
    &&& values.len() == flat(rows).len()
}

/// Bytes of row descriptors and values that have nothing beside them.
pub open spec fn tight_bytes<T>(rows: int, values: int) -> int {
    saturated(saturated(rows * size_of::<ArenaSpan>()) + saturated(values * size_of::<T>()))
}

impl<T> View for PackedLists<T> {
    type V = Seq<Seq<T>>;

    closed spec fn view(&self) -> Seq<Seq<T>> {
        Seq::new(self.row_total(), |row: int| self.row_at(row))
    }
}

impl<T> Default for PackedLists<T> {
    fn default() -> (lists: Self)
        ensures
            lists.wf(),
            lists@ == Seq::<Seq<T>>::empty(),
            lists.tight(0),
    {
        let lists = PackedLists {
            base: None,
            spans: PagedVec::default(),
            arena: PagedArena::default(),
            overrides: PersistentMap::default(),
            live_values: 0,
        };
        assert(lists@ =~= Seq::<Seq<T>>::empty());
        lists
    }
}

impl<T> Clone for PackedLists<T> {
    fn clone(&self) -> (copy: Self)
        ensures
            copy == *self,
    {
        PackedLists {
            base: match &self.base {
                Some(base) => Some(base.clone()),
                None => None,
            },
            spans: self.spans.clone(),
            arena: self.arena.clone(),
            overrides: self.overrides.clone(),
            live_values: self.live_values,
        }
    }
}

impl<T> PackedLists<T> {
    /// The rows of the base.
    pub closed spec fn spec_base_rows(&self) -> int {
        match self.base {
            Some(base) => base.offsets@.len() - 1,
            None => 0,
        }
    }

    spec fn row_total(&self) -> nat {
        (self.spec_base_rows() + self.spans@.len()) as nat
    }

    spec fn row_at(&self, row: int) -> Seq<T> {
        if row < self.spec_base_rows() {
            if self.overrides@.dom().contains(row as u128) {
                self.arena.range(self.overrides@[row as u128])->Some_0
            } else {
                let base = self.base->Some_0;
                base.values@.subrange(base.offsets@[row] as int, base.offsets@[row + 1] as int)
            }
        } else {
            self.arena.range(self.spans@[row - self.spec_base_rows()])->Some_0
        }
    }

    /// Row descriptors point into their storage, and the number of live values is kept.
    pub closed spec fn wf(&self) -> bool {
        &&& self.spans.wf()
        &&& self.arena.wf()
        &&& self.overrides.wf()
        &&& self.base matches Some(base) ==> valid_offsets(
            base.offsets@,
            base.values@.len() as int,
        ) && base.offsets@.len() <= usize::MAX
        &&& self.row_total() <= usize::MAX
        &&& forall|i: int|
            0 <= i < self.spans@.len() ==> self.arena.range(#[trigger] self.spans@[i]) is Some
        &&& forall|key: u128| #[trigger]
            self.overrides@.dom().contains(key) ==> key < self.spec_base_rows()
                && self.arena.range(self.overrides@[key]) is Some
        &&& self.live_values == flat(self@).len()
        &&& self.live_values <= u32::MAX
    }

    /// The arena cannot take this many more values.
    pub closed spec fn arena_full(&self, additional: int) -> bool {
        self.arena.full() || self.arena.spec_elements() + additional > usize::MAX
    }

    /// The arena cannot count this many more values.
    pub closed spec fn arena_overflows(&self, additional: int) -> bool {
        self.arena.spec_elements() + additional > usize::MAX
    }

    /// The arena has a page that is longer than an offset can say.
    pub closed spec fn arena_overlong(&self) -> bool {
        self.arena.overlong()
    }

    /// What is said where a row cannot be stored: the values left after the change are too many, or
    /// the arena is full.
    pub open spec fn full_row(&self, kept: int, additional: int, message: Seq<char>) -> bool {
        if kept + additional > u32::MAX {
            message == "packed list exhausted"@
        } else {
            full_message(self.arena_overflows(additional), self.arena_overlong(), message)
        }
    }

    /// The arena holds the values of the rows and nothing else, in no more pages than rows were
    /// written. No row is shared.
    pub closed spec fn tight(&self, rows: int) -> bool {
        &&& self.base is None
        &&& self.overrides@ == Map::<u128, ArenaSpan>::empty()
        &&& self.arena.compact()
        &&& self.arena.page_total() <= rows
        &&& self.arena.spec_elements() == flat(self@).len()
        &&& self.arena.spec_elements() == span_lengths(self.spans@)
    }

    /// Tight storage has no byte that no row uses.
    pub proof fn lemma_tight_bytes(&self, rows: int)
        requires
            self.wf(),
            self.tight(rows),
        ensures
            !self.has_base(),
            self.spec_garbage_bytes() == 0,
            !self.spec_needs_seal(),
            self.spec_estimated_bytes() == tight_bytes::<T>(
                self@.len() as int,
                flat(self@).len() as int,
            ),
    {
        assert(changed_lengths(self.overrides@, 0) == 0);
        assert(0 * size_of::<T>() == 0) by (nonlinear_arith);
    }

    /// A tight arena has room for as much as 32 bits can count.
    pub proof fn lemma_tight(&self, rows: int, additional: int)
        requires
            self.wf(),
            self.tight(rows),
            rows <= u32::MAX,
            rows < usize::MAX,
            0 <= additional,
            flat(self@).len() + additional <= u32::MAX,
        ensures
            !self.arena_full(additional),
    {
        self.arena.lemma_compact();
    }

    /// The values of all rows can be counted by 32 bits.
    pub proof fn lemma_live(&self)
        requires
            self.wf(),
        ensures
            flat(self@).len() <= u32::MAX,
    {
    }

    /// Some row is shared with the base.
    pub closed spec fn has_base(&self) -> bool {
        self.base is Some
    }

    /// The offsets of the base stand at the beginning.
    pub closed spec fn offsets_continued_by(&self, offsets: Seq<u32>) -> bool {
        self.base matches Some(base) && base.offsets@.is_prefix_of(offsets)
    }

    /// The values of the base stand at the beginning.
    pub closed spec fn values_continued_by(&self, values: Seq<T>) -> bool {
        self.base matches Some(base) && base.values@.is_prefix_of(values)
    }

    /// The offsets and the values of the base stand at the beginning, and more offsets follow.
    pub open spec fn continued_by(&self, offsets: Seq<u32>, values: Seq<T>) -> bool {
        &&& self.has_base()
        &&& self.offsets_continued_by(offsets)
        &&& self.values_continued_by(values)
        &&& self.spec_base_rows() + 1 < offsets.len()
    }

    fn base_rows(&self) -> (rows: usize)
        requires
            self.wf(),
        ensures
            rows == self.spec_base_rows(),
    {
        match &self.base {
            Some(base) => base.offsets.len() - 1,
            None => 0,
        }
    }

    fn shared_base_is_pristine(&self) -> (pristine: bool)
        requires
            self.wf(),
        ensures
            pristine == (self.base is Some && self.spans@.len() == 0 && self.overrides@.dom().len()
                == 0),
            pristine ==> self@ == delimited(
                self.base->Some_0.offsets@,
                self.base->Some_0.values@,
            ),
    {
        let changes: usize = self.overrides.len();
        let pristine = self.base.is_some() && self.spans.is_empty() && changes == 0;
        proof {
            if pristine {
                let base = self.base->Some_0;
                assert forall|row: int| 0 <= row < self.row_total() implies #[trigger] self.row_at(
                    row,
                ) == delimited(base.offsets@, base.values@)[row] by {
                    assert(!self.overrides@.dom().contains(row as u128));
                }
                assert(self@ =~= delimited(base.offsets@, base.values@));
            }
        }
        pristine
    }

    pub fn rows(&self) -> (rows: usize)
        requires
            self.wf(),
        ensures
            rows == self@.len(),
    {
        self.base_rows() + self.spans.len()
    }

    pub fn get(&self, row: u32) -> (values: Option<&[T]>)
        requires
            self.wf(),
        ensures
            match values {
                Some(values) => row < self@.len() && values@ == self@[row as int],
                None => row >= self@.len(),
            },
    {
        let index: usize = row as usize;
        let base_rows: usize = self.base_rows();
        if index < base_rows {
            match self.overrides.get(row as u128) {
                Some(span) => {
                    return self.arena.get(*span);
                },
                None => {},
            }
            return match &self.base {
                Some(base) => {
                    let offsets = base.offsets.as_slice();
                    let values = base.values.as_slice();
                    let start: usize = offsets[index] as usize;
                    let end: usize = offsets[index + 1] as usize;
                    assert(offsets@[index as int] <= offsets@[index + 1]);
                    assert(offsets@[index + 1] <= offsets@.last());
                    Some(&values[start..end])
                },
                None => None,
            };
        }
        match self.spans.get(index - base_rows) {
            Some(span) => self.arena.get(*span),
            None => None,
        }
    }

    /// Whether `additional` more values can be counted.
    pub fn validate_push_len(&self, additional: usize) -> (result: Result<()>)
        requires
            self.wf(),
        ensures
            if flat(self@).len() + additional > u32::MAX {
                fails_with(result, ErrorCode::ResultBudgetExceeded, "packed list exhausted"@)
            } else {
                result is Ok
            },
    {
        match self.live_values.checked_add(additional) {
            Some(end) => if end as u64 > u32::MAX as u64 {
                Err(Error::new(ErrorCode::ResultBudgetExceeded, "packed list exhausted"))
            } else {
                Ok(())
            },
            None => Err(Error::new(ErrorCode::ResultBudgetExceeded, "packed list exhausted")),
        }
    }

    /// Rebinds the complete immutable row and value base to shared flat allocations.
    pub fn rebase_shared(&mut self, offsets: SharedFlat<u32>, values: SharedFlat<T>) -> (result:
        Result<()>)
        ensures
            if valid_offsets(offsets@, values@.len() as int) {
                result is Ok && final(self).wf() && final(self)@ == delimited(offsets@, values@)
            } else {
                fails_with(
                    result,
                    ErrorCode::CorruptStorage,
                    "shared packed-list offsets are invalid"@,
                ) && *final(self) == *old(self)
            },
    {
        if !offsets_delimit(offsets.as_slice(), values.len()) {
            return Err(
                Error::new(ErrorCode::CorruptStorage, "shared packed-list offsets are invalid"),
            );
        }
        self.bind(offsets, values);
        Ok(())
    }

    fn bind(&mut self, offsets: SharedFlat<u32>, values: SharedFlat<T>)
        requires
            valid_offsets(offsets@, values@.len() as int),
        ensures
            final(self).wf(),
            final(self)@ == delimited(offsets@, values@),
    {
        let live_values: usize = values.len();
        let offset_total: usize = offsets.len();
        let bound = PackedLists {
            base: Some(SharedPackedBase { offsets, values }),
            spans: PagedVec::default(),
            arena: PagedArena::default(),
            overrides: PersistentMap::default(),
            live_values,
        };
        proof {
            let rows = delimited(offsets@, values@);
            assert(bound@ =~= rows);
            lemma_delimited_flat(offsets@, values@, offsets@.len() - 1);
            assert(rows.take(offsets@.len() - 1) =~= rows);
        }
        *self = bound;
    }

    /// Whether the allocations hold the base and as many rows and values as there are now, given
    /// whether each of them continues its part of the base.
    #[verifier::spinoff_prover]
    pub fn is_extended_by(
        &self,
        offsets: &SharedFlat<u32>,
        values: &SharedFlat<T>,
        offsets_continue: bool,
        values_continue: bool,
    ) -> (sound: bool)
        requires
            self.wf(),
            offsets_continue ==> self.offsets_continued_by(offsets@),
            values_continue ==> self.values_continued_by(values@),
        ensures
            sound == (offsets_continue && values_continue && self.continued_by(offsets@, values@)
                && extends(self@, offsets@, values@)),
    {
        let total: usize = self.rows();
        match &self.base {
            None => false,
            Some(base) => {
                let previous: usize = base.offsets.len();
                let slice = offsets.as_slice();
                if slice.len() <= previous || slice.len() - 1 != total || values.len()
                    != self.live_values {
                    return false;
                }
                if !offsets_continue || !values_continue {
                    return false;
                }
                let ghost known = base.offsets@;
                let ghost edge = known.len() - 1;
                assert(known =~= offsets@.subrange(0, known.len() as int));
                assert(forall|i: int| 0 <= i < known.len() ==> #[trigger] known[i] == offsets@[i]);
                assert(known[edge] == offsets@[edge]);
                if slice[previous - 1] as usize != base.values.len() || !tail_ascends(
                    slice,
                    previous - 1,
                ) {
                    return false;
                }
                proof {
                    assert forall|i: int,
                        j: int| 0 <= i <= j < offsets@.len() implies #[trigger] offsets@[i]
                        <= #[trigger] offsets@[j] by {
                        if i < edge {
                            if j <= edge {
                                assert(known[i] <= known[j]);
                            } else {
                                assert(known[i] <= known[edge]);
                                assert(offsets@[edge] <= offsets@[j]);
                            }
                        }
                    }
                    assert(known[0] == offsets@[0]);
                }
                slice[slice.len() - 1] as usize == values.len()
            },
        }
    }

    /// Seals appended rows into longer views of the same shared allocations. The base prefix is
    /// immutable, so only the boundary and the appended offsets are checked.
    pub fn rebase_shared_extension(
        &mut self,
        offsets: SharedFlat<u32>,
        values: SharedFlat<T>,
    ) -> (result: Result<()>)
        requires
            old(self).wf(),
        ensures
            final(self).wf(),
            match result {
                Ok(_) => {
                    &&& old(self).has_base()
                    &&& extends(old(self)@, offsets@, values@)
                    &&& old(self).continued_by(offsets@, values@)
                    &&& final(self)@ == delimited(offsets@, values@)
                },
                Err(error) => {
                    &&& *final(self) == *old(self)
                    &&& error.is(
                        ErrorCode::CorruptStorage,
                        if old(self).has_base() {
                            "shared packed-list extension is invalid"@
                        } else {
                            "shared packed-list extension has no base prefix"@
                        },
                    )
                },
            },
            !(extends(old(self)@, offsets@, values@) && old(self).continued_by(offsets@, values@))
                ==> result is Err,
    {
        if self.base.is_none() {
            return Err(
                Error::new(
                    ErrorCode::CorruptStorage,
                    "shared packed-list extension has no base prefix",
                ),
            );
        }
        let (offsets_continue, values_continue) = match &self.base {
            Some(base) => (base.offsets.is_prefix_of(&offsets), base.values.is_prefix_of(&values)),
            None => (false, false),
        };
        if !self.is_extended_by(&offsets, &values, offsets_continue, values_continue) {
            return Err(
                Error::new(ErrorCode::CorruptStorage, "shared packed-list extension is invalid"),
            );
        }
        self.bind(offsets, values);
        Ok(())
    }

    pub fn estimated_bytes(&self) -> (bytes: usize)
        ensures
            bytes == self.spec_estimated_bytes(),
    {
        let base: usize = match &self.base {
            Some(base) => saturating_product(base.offsets.len(), core::mem::size_of::<u32>())
                .saturating_add(
                saturating_product(base.values.len(), core::mem::size_of::<T>()),
            ),
            None => 0,
        };
        base.saturating_add(
            saturating_product(
                self.spans.len(),
                core::mem::size_of::<ArenaSpan>(),
            ).saturating_add(self.arena.estimated_bytes()),
        )
    }

    /// Bytes of the shared offsets and values, of the row descriptors and of the arena.
    pub closed spec fn spec_estimated_bytes(&self) -> int {
        let base = match self.base {
            Some(base) => saturated(
                saturated((base.offsets@.len() * size_of::<u32>()) as int) + saturated(
                    (base.values@.len() * size_of::<T>()) as int,
                ),
            ),
            None => 0,
        };
        saturated(
            base + saturated(
                saturated((self.spans@.len() * size_of::<ArenaSpan>()) as int) + saturated(
                    self.arena.spec_elements() * size_of::<T>(),
                ),
            ),
        )
    }

    /// Values that live in the arena.
    spec fn arena_live(&self) -> int {
        saturated(
            span_lengths(self.spans@) + changed_lengths(self.overrides@, self.spec_base_rows()),
        )
    }

    /// Bytes of the arena that no row uses any more.
    pub closed spec fn spec_garbage_bytes(&self) -> int {
        let live = self.arena_live();
        let dead = if self.arena.spec_elements() >= live {
            self.arena.spec_elements() - live
        } else {
            0
        };
        saturated(dead * size_of::<T>())
    }

    pub fn garbage_bytes(&self) -> (bytes: usize)
        requires
            self.wf(),
        ensures
            bytes == self.spec_garbage_bytes(),
    {
        let mut live: usize = 0;
        let span_total: usize = self.spans.len();
        for index in 0..span_total
            invariant
                self.wf(),
                span_total == self.spans@.len(),
                live == saturated(span_lengths(self.spans@.take(index as int))),
        {
            if let Some(span) = self.spans.get(index) {
                live = live.saturating_add(span.len as usize);
            }
            proof {
                let longer = self.spans@.take(index + 1);
                assert(longer.drop_last() =~= self.spans@.take(index as int));
                lemma_lengths_positive(longer.drop_last());
            }
        }
        assert(self.spans@.take(span_total as int) =~= self.spans@);
        let changed = self.overrides.iter();
        let ghost mut place: int = 0;
        proof {
            lemma_lengths_positive(self.spans@);
        }
        for index in 0..changed.len()
            invariant
                self.wf(),
                forall|i: int, j: int|
                    0 <= i < j < changed@.len() ==> (#[trigger] changed@[i]).0 < (
                    #[trigger] changed@[j]).0,
                forall|i: int|
                    0 <= i < changed@.len() ==> self.overrides@.dom().contains(
                        (#[trigger] changed@[i]).0,
                    ) && self.overrides@[changed@[i].0] == *changed@[i].1,
                forall|key: u128| #[trigger]
                    self.overrides@.dom().contains(key) ==> exists|i: int|
                        0 <= i < changed@.len() && (#[trigger] changed@[i]).0 == key,
                place == if index == 0 {
                    0
                } else {
                    changed@[index - 1].0 + 1
                },
                0 <= place,
                span_lengths(self.spans@) >= 0,
                changed_lengths(self.overrides@, place) >= 0,
                live == saturated(
                    span_lengths(self.spans@) + changed_lengths(self.overrides@, place),
                ),
        {
            let entry = &changed[index];
            live = live.saturating_add(entry.1.len as usize);
            proof {
                let key = changed@[index as int].0;
                lemma_no_change(self.overrides@, changed@, index as int, place, key as int);
                place = key + 1;
            }
        }
        proof {
            lemma_no_change(
                self.overrides@,
                changed@,
                changed@.len() as int,
                place,
                self.spec_base_rows(),
            );
        }
        saturating_product(
            self.arena.elements().saturating_sub(live),
            core::mem::size_of::<T>(),
        )
    }

    /// Enough of the arena is dead for the rows to be written anew.
    pub closed spec fn spec_needs_seal(&self) -> bool {
        let live = saturated((flat(self@).len() * size_of::<T>()) as int);
        self.spec_garbage_bytes() >= 65536 && self.spec_garbage_bytes() >= (live + 3) / 4
    }

    /// Rows are written anew once 64 KiB of the arena are dead and those are at least a quarter of what
    /// lives.
    pub proof fn law_sealing_waits_for_garbage(&self)
        ensures
            self.spec_needs_seal() <==> self.spec_garbage_bytes() >= 64 * 1024 && 4
                * self.spec_garbage_bytes() >= saturated(
                (flat(self@).len() * size_of::<T>()) as int,
            ),
    {
    }

    pub fn needs_seal(&self) -> (needed: bool)
        requires
            self.wf(),
        ensures
            needed == self.spec_needs_seal(),
    {
        let garbage: usize = self.garbage_bytes();
        let live: usize = saturating_product(self.live_values, core::mem::size_of::<T>());
        let threshold: usize = if live % 4 == 0 {
            live / DOCUMENT_SEAL_LIVE_FRACTION
        } else {
            live / DOCUMENT_SEAL_LIVE_FRACTION + 1
        };
        garbage >= DOCUMENT_SEAL_MIN_GARBAGE_BYTES && garbage >= threshold
    }
}

impl<T: Clone> PackedLists<T> {
    /// Appends a row.
    pub fn push(&mut self, values: Vec<T>) -> (result: Result<()>)
        requires
            old(self).wf(),
            clone_faithful::<T>(),
            old(self)@.len() < usize::MAX,
        ensures
            final(self).wf(),
            match result {
                Ok(_) => {
                    &&& final(self)@ == old(self)@.push(values@)
                    &&& flat(old(self)@).len() + values@.len() <= u32::MAX
                    &&& forall|rows: int| #[trigger]
                        old(self).tight(rows) ==> final(self).tight(rows + 1)
                },
                Err(error) => {
                    &&& final(self)@ == old(self)@
                    &&& error.code == ErrorCode::ResultBudgetExceeded
                    &&& flat(old(self)@).len() + values@.len() > u32::MAX || old(self).arena_full(
                        values@.len() as int,
                    )
                    &&& old(self).full_row(
                        flat(old(self)@).len() as int,
                        values@.len() as int,
                        error.message@,
                    )
                },
            },
            values@.len() == 0 ==> result is Ok,
            flat(old(self)@).len() + values@.len() > u32::MAX ==> fails_with(
                result,
                ErrorCode::ResultBudgetExceeded,
                "packed list exhausted"@,
            ),
    {
        match self.validate_push_len(values.len()) {
            Ok(_) => {},
            Err(error) => {
                return Err(error);
            },
        }
        let len: usize = values.len();
        let ghost before = *self;
        let ghost row = values@;
        let span = match self.arena.append(values) {
            Ok(span) => span,
            Err(message) => {
                return Err(Error::new(ErrorCode::ResultBudgetExceeded, message));
            },
        };
        self.spans.push(span);
        self.live_values = self.live_values + len;
        proof {
            assert(self@ =~= before@.push(row)) by {
                assert forall|i: int| 0 <= i < before@.len() implies #[trigger] self.row_at(i)
                    == before.row_at(i) by {
                    before.lemma_row_span(i);
                }
            }
            lemma_flat_push(before@, row);
            assert(self.spans@.drop_last() =~= before.spans@);
            assert forall|i: int| 0 <= i < self.spans@.len() implies self.arena.range(
                #[trigger] self.spans@[i],
            ) is Some by {
                if i < before.spans@.len() {
                    assert(before.arena.range(before.spans@[i]) is Some);
                }
            }
        }
        Ok(())
    }

    /// Replaces one variable-width row while preserving every row ordinal.
    #[verifier::spinoff_prover]
    pub fn replace(&mut self, row: u32, values: Vec<T>) -> (result: Result<()>)
        requires
            old(self).wf(),
            clone_faithful::<T>(),
        ensures
            final(self).wf(),
            row >= old(self)@.len() ==> fails_with(
                result,
                ErrorCode::InvalidData,
                "packed-list row is out of bounds"@,
            ),
            row < old(self)@.len() && values@.len() == 0 ==> result is Ok,
            row < old(self)@.len() && flat(old(self)@).len() - old(self)@[row as int].len()
                + values@.len() > u32::MAX ==> fails_with(
                result,
                ErrorCode::ResultBudgetExceeded,
                "packed list exhausted"@,
            ),
            match result {
                Ok(_) => row < old(self)@.len() && final(self)@ == old(self)@.update(
                    row as int,
                    values@,
                ),
                Err(error) => {
                    &&& final(self)@ == old(self)@
                    &&& row < old(self)@.len() ==> error.code == ErrorCode::ResultBudgetExceeded
                        && (flat(old(self)@).len() - old(self)@[row as int].len() + values@.len()
                        > u32::MAX || old(self).arena_full(values@.len() as int))
                        && old(self).full_row(
                        flat(old(self)@).len() - old(self)@[row as int].len(),
                        values@.len() as int,
                        error.message@,
                    )
                },
            },
    {
        let index: usize = row as usize;
        let base_rows: usize = self.base_rows();
        let ghost before = *self;
        let ghost replacement = values@;
        let previous: usize = match self.get(row) {
            Some(values) => values.len(),
            None => {
                return Err(Error::invalid_data("packed-list row is out of bounds"));
            },
        };
        proof {
            lemma_flat_update(before@, row as int, replacement);
        }
        let replacement_len: usize = values.len();
        let final_len: usize = match (self.live_values - previous).checked_add(replacement_len) {
            Some(total) => total,
            None => {
                return Err(Error::new(ErrorCode::ResultBudgetExceeded, "packed list exhausted"));
            },
        };
        if final_len as u64 > u32::MAX as u64 {
            return Err(Error::new(ErrorCode::ResultBudgetExceeded, "packed list exhausted"));
        }
        let span = match self.arena.append(values) {
            Ok(span) => span,
            Err(message) => {
                return Err(Error::new(ErrorCode::ResultBudgetExceeded, message));
            },
        };
        if index < base_rows {
            let _ = self.overrides.len();
            proof {
                lemma_few_overrides(before.overrides@, before.spec_base_rows());
            }
            let _ = self.overrides.insert(row as u128, span);
        } else {
            let _ = replace_paged(&mut self.spans, index - base_rows, span);
        }
        self.live_values = final_len;
        proof {
            assert(self@ =~= before@.update(row as int, replacement)) by {
                assert forall|i: int| 0 <= i < before@.len() && i != row implies #[trigger] self.row_at(
                    i,
                ) == before.row_at(i) by {
                    before.lemma_row_span(i);
                }
            }
            assert forall|i: int| 0 <= i < self.spans@.len() implies self.arena.range(
                #[trigger] self.spans@[i],
            ) is Some by {
                assert(before.arena.range(before.spans@[i]) is Some);
            }
            assert forall|key: u128| #[trigger] self.overrides@.dom().contains(key) implies key
                < self.spec_base_rows() && self.arena.range(self.overrides@[key]) is Some by {
                if key != row as u128 {
                    assert(before.overrides@.dom().contains(key));
                }
            }
        }
        Ok(())
    }

    proof fn lemma_row_span(&self, row: int)
        requires
            self.wf(),
            0 <= row < self@.len(),
        ensures
            row < self.spec_base_rows() && self.overrides@.dom().contains(row as u128)
                ==> self.arena.range(self.overrides@[row as u128]) is Some,
            row >= self.spec_base_rows() ==> self.arena.range(
                self.spans@[row - self.spec_base_rows()],
            ) is Some,
    {
    }

    /// All values, row after row.
    pub fn values(&self) -> (values: Vec<T>)
        requires
            self.wf(),
            self@.len() <= u32::MAX,
            clone_faithful::<T>(),
        ensures
            values@ == flat(self@),
    {
        if self.shared_base_is_pristine() {
            if let Some(base) = &self.base {
                proof {
                    let offsets = base.offsets@;
                    lemma_delimited_flat(offsets, base.values@, offsets.len() - 1);
                    assert(delimited(offsets, base.values@).take(offsets.len() - 1) =~= self@);
                    assert(base.values@.subrange(0, base.values@.len() as int) =~= base.values@);
                }
                return detach(base.values.as_slice());
            }
        }
        let mut values: Vec<T> = Vec::with_capacity(self.live_values);
        let total: usize = self.rows();
        assert(self@.take(0) =~= Seq::empty());
        for row in 0..total
            invariant
                self.wf(),
                total == self@.len(),
                total <= u32::MAX,
                clone_faithful::<T>(),
                values@ == flat(self@.take(row as int)),
        {
            let ghost before = values@;
            if let Some(row_values) = self.get(row as u32) {
                let mut copy: Vec<T> = detach(row_values);
                values.append(&mut copy);
            }
            proof {
                assert(self@.take(row + 1) =~= self@.take(row as int).push(self@[row as int]));
                lemma_flat_push(self@.take(row as int), self@[row as int]);
                assert(values@ =~= before + self@[row as int]);
            }
        }
        assert(self@.take(total as int) =~= self@);
        values
    }

    /// Where each row starts among all values, and where the last one ends.
    pub fn offsets(&self) -> (offsets: Vec<u32>)
        requires
            self.wf(),
            self@.len() <= u32::MAX,
        ensures
            offsets@ == row_offsets(self@),
    {
        if self.shared_base_is_pristine() {
            if let Some(base) = &self.base {
                let copy: Vec<u32> = detach(base.offsets.as_slice());
                proof {
                    assert forall|i: int| 0 <= i < copy@.len() implies #[trigger] copy@[i]
                        == row_offsets(self@)[i] by {
                        lemma_delimited_flat(base.offsets@, base.values@, i);
                    }
                    assert(copy@ =~= row_offsets(self@));
                }
                return copy;
            }
        }
        let total: usize = self.rows();
        let mut offsets: Vec<u32> = Vec::new();
        let mut end: usize = 0;
        offsets.push(0);
        assert(self@.take(0) =~= Seq::empty());
        for row in 0..total
            invariant
                self.wf(),
                total == self@.len(),
                total <= u32::MAX,
                end == flat(self@.take(row as int)).len(),
                offsets.len() == row + 1,
                forall|i: int| 0 <= i <= row ==> #[trigger] offsets@[i] == row_offsets(self@)[i],
        {
            proof {
                assert(self@.take(row + 1) =~= self@.take(row as int).push(self@[row as int]));
                lemma_flat_push(self@.take(row as int), self@[row as int]);
                lemma_flat_prefix(self@, row + 1);
            }
            if let Some(row_values) = self.get(row as u32) {
                end = end + row_values.len();
            }
            offsets.push(end as u32);
        }
        assert(offsets@ =~= row_offsets(self@));
        offsets
    }

    /// Writes the rows anew, without what no row uses any more. Rows without a value become empty.
    pub fn seal(&mut self, validity: &Validity) -> (result: Result<()>)
        requires
            old(self).wf(),
            validity.words.wf(),
            clone_faithful::<T>(),
            old(self)@.len() <= u32::MAX,
        ensures
            final(self).wf(),
            validity.len != old(self)@.len() ==> fails_with(
                result,
                ErrorCode::CorruptStorage,
                "document validity and packed rows differ"@,
            ),
            match result {
                Ok(_) => {
                    &&& validity.len == old(self)@.len()
                    &&& final(self)@ == sealed_rows(old(self)@, *validity)
                    &&& final(self).tight(old(self)@.len() as int)
                    &&& final(self).spec_garbage_bytes() == 0
                    &&& !final(self).spec_needs_seal()
                },
                Err(error) => final(self)@ == old(self)@ && validity.len != old(self)@.len(),
            },
    {
        if validity.len() != self.rows() {
            return Err(
                Error::new(ErrorCode::CorruptStorage, "document validity and packed rows differ"),
            );
        }
        let mut sealed: PackedLists<T> = PackedLists::default();
        let total: usize = self.rows();
        for row in 0..total
            invariant
                self.wf(),
                *self == *old(self),
                total == self@.len(),
                total <= u32::MAX,
                total == validity.len,
                validity.words.wf(),
                clone_faithful::<T>(),
                sealed.wf(),
                sealed.tight(row as int),
                sealed@ == sealed_rows(self@, *validity).take(row as int),
        {
            let mut values: Vec<T> = Vec::new();
            if validity.is_present(row) {
                if let Some(row_values) = self.get(row as u32) {
                    values = detach(row_values);
                }
            }
            proof {
                if !validity.present(row as int) {
                    assert(values@ =~= Seq::empty());
                }
                assert(sealed_rows(self@, *validity).take(row + 1) =~= sealed_rows(
                    self@,
                    *validity,
                ).take(row as int).push(values@));
            }
            proof {
                lemma_sealed_len(self@, *validity, row + 1);
                lemma_flat_push(sealed@, values@);
                sealed.lemma_tight(row as int, values@.len() as int);
            }
            match sealed.push(values) {
                Ok(_) => {},
                Err(error) => {
                    assert(false);
                    return Err(error);
                },
            }
        }
        assert(sealed_rows(self@, *validity).take(total as int) =~= sealed_rows(self@, *validity));
        proof {
            sealed.lemma_tight_bytes(total as int);
        }
        *self = sealed;
        Ok(())
    }
}

/// The rows with those that have no value emptied.
pub open spec fn sealed_rows<T>(rows: Seq<Seq<T>>, validity: Validity) -> Seq<Seq<T>> {
    Seq::new(
        rows.len(),
        |row: int|
            if validity.present(row) {
                rows[row]
            } else {
                Seq::empty()
            },
    )
}

/// A row and those before it hold no more values than all rows.
pub proof fn lemma_flat_through<T>(rows: Seq<Seq<T>>, row: int)
    requires
        0 <= row < rows.len(),
    ensures
        flat(rows.take(row)).len() + rows[row].len() <= flat(rows).len(),
    decreases rows.len(),
{
    if row == rows.len() - 1 {
        assert(rows.take(row) =~= rows.drop_last());
    } else {
        lemma_flat_through(rows.drop_last(), row);
        assert(rows.drop_last().take(row) =~= rows.take(row));
    }
}

/// The first rows hold no more values once some are emptied than all rows did.
proof fn lemma_sealed_len<T>(rows: Seq<Seq<T>>, validity: Validity, count: int)
    requires
        0 <= count <= rows.len(),
    ensures
        flat(sealed_rows(rows, validity).take(count)).len() <= flat(rows.take(count)).len() <= flat(
            rows,
        ).len(),
    decreases rows.len() + count,
{
    let sealed = sealed_rows(rows, validity);
    if count < rows.len() {
        lemma_sealed_len(rows.drop_last(), validity, count);
        assert(rows.drop_last().take(count) =~= rows.take(count));
        assert(sealed_rows(rows.drop_last(), validity).take(count) =~= sealed.take(count));
    } else if count > 0 {
        lemma_sealed_len(rows, validity, count - 1);
        assert(rows.take(count) =~= rows);
        assert(sealed.take(count).drop_last() =~= sealed.take(count - 1));
        assert(rows.take(count - 1) =~= rows.drop_last());
    } else {
        assert(rows.take(count) =~= rows);
        assert(sealed.take(count) =~= Seq::empty());
    }
}

/// No more rows below a bound are changed than there are.
proof fn lemma_few_overrides(overrides: Map<u128, ArenaSpan>, bound: int)
    requires
        0 <= bound,
        overrides.dom().finite(),
        forall|key: u128| #[trigger] overrides.dom().contains(key) ==> key < bound,
    ensures
        overrides.dom().len() <= bound,
{
    let ints = vstd::set_lib::set_int_range(0, bound);
    vstd::set_lib::lemma_int_range(0, bound);
    let keys = overrides.dom().map(|key: u128| key as int);
    assert(keys.subset_of(ints));
    vstd::set_lib::lemma_len_subset(keys, ints);
    vstd::set_lib::lemma_map_size(overrides.dom(), keys, |key: u128| key as int);
}

/// Total length of spans.
spec fn span_lengths(spans: Seq<ArenaSpan>) -> int
    decreases spans.len(),
{
    if spans.len() == 0 {
        0
    } else {
        span_lengths(spans.drop_last()) + spans.last().len
    }
}

proof fn lemma_lengths_positive(spans: Seq<ArenaSpan>)
    ensures
        span_lengths(spans) >= 0,
    decreases spans.len(),
{
    if spans.len() > 0 {
        lemma_lengths_positive(spans.drop_last());
    }
}

/// Total length of the spans of the changed rows below a bound.
spec fn changed_lengths(spans: Map<u128, ArenaSpan>, bound: int) -> int
    decreases bound,
{
    if bound <= 0 {
        0
    } else {
        changed_lengths(spans, bound - 1) + if spans.dom().contains((bound - 1) as u128) {
            spans[(bound - 1) as u128].len as int
        } else {
            0
        }
    }
}

/// Between two neighboring entries no row is changed.
proof fn lemma_no_change(
    spans: Map<u128, ArenaSpan>,
    changed: Seq<(u128, &ArenaSpan)>,
    index: int,
    low: int,
    high: int,
)
    requires
        0 <= index <= changed.len(),
        0 <= low,
        0 <= high <= u128::MAX,
        low == if index == 0 {
            0
        } else {
            changed[index - 1].0 + 1
        },
        index < changed.len() ==> high == changed[index].0,
        index == changed.len() ==> forall|key: u128| #[trigger]
            spans.dom().contains(key) ==> key < high,
        forall|i: int, j: int|
            0 <= i < j < changed.len() ==> (#[trigger] changed[i]).0 < (#[trigger] changed[j]).0,
        forall|i: int|
            0 <= i < changed.len() ==> spans.dom().contains((#[trigger] changed[i]).0),
        forall|key: u128| #[trigger]
            spans.dom().contains(key) ==> exists|i: int|
                0 <= i < changed.len() && (#[trigger] changed[i]).0 == key,
    ensures
        low <= high,
        changed_lengths(spans, high) == changed_lengths(spans, low),
{
    if index > 0 {
        if index < changed.len() {
            assert(changed[index - 1].0 < changed[index].0);
        } else {
            assert(spans.dom().contains(changed[index - 1].0));
        }
    }
    assert forall|row: int| low <= row < high implies !spans.dom().contains(
        #[trigger] (row as u128),
    ) by {
        if spans.dom().contains(row as u128) {
            let i = choose|i: int| 0 <= i < changed.len() && (#[trigger] changed[i]).0 == row as u128;
            if i < index - 1 {
                assert(changed[i].0 < changed[index - 1].0);
            }
            if i > index {
                assert(changed[index].0 < changed[i].0);
            }
        }
    }
    lemma_unchanged_rows(spans, low, high);
}

proof fn lemma_unchanged_rows(spans: Map<u128, ArenaSpan>, low: int, high: int)
    requires
        0 <= low <= high,
        forall|row: int| low <= row < high ==> !spans.dom().contains(#[trigger] (row as u128)),
    ensures
        changed_lengths(spans, high) == changed_lengths(spans, low),
    decreases high,
{
    if low < high {
        lemma_unchanged_rows(spans, low, high - 1);
        assert(!spans.dom().contains((high - 1) as u128));
    }
}

/// Whether offsets delimit rows in this many values.
fn offsets_delimit(offsets: &[u32], total: usize) -> (valid: bool)
    ensures
        valid == valid_offsets(offsets@, total as int),
{
    if offsets.len() == 0 {
        return false;
    }
    offsets[0] == 0 && offsets[offsets.len() - 1] as usize == total && tail_ascends(offsets, 0)
}

/// Whether the offsets from a place on ascend.
fn tail_ascends(offsets: &[u32], start: usize) -> (ascends: bool)
    requires
        start < offsets@.len(),
    ensures
        ascends == (forall|i: int, j: int|
            start <= i <= j < offsets@.len() ==> #[trigger] offsets@[i] <= #[trigger] offsets@[j]),
{
    let mut index: usize = start;
    let last: usize = offsets.len() - 1;
    while index < last
        invariant
            start <= index <= last,
            last == offsets@.len() - 1,
            forall|i: int, j: int|
                start <= i <= j <= index ==> #[trigger] offsets@[i] <= #[trigger] offsets@[j],
        decreases last - index,
    {
        if offsets[index] > offsets[index + 1] {
            assert(!(offsets@[index as int] <= offsets@[index + 1]));
            return false;
        }
        assert forall|i: int, j: int| start <= i <= j <= index + 1 implies #[trigger] offsets@[i]
            <= #[trigger] offsets@[j] by {
            if j == index + 1 && i <= index {
                assert(offsets@[i] <= offsets@[index as int]);
            }
        }
        index = index + 1;
    }
    true
}

/// Every row stands between its offset and the next in the values of all rows.
pub proof fn law_offsets_delimit_rows<T>(rows: Seq<Seq<T>>, row: int)
    requires
        0 <= row < rows.len(),
        flat(rows).len() <= u32::MAX,
    ensures
        row_offsets(rows)[0] == 0,
        row_offsets(rows).len() == rows.len() + 1,
        row_offsets(rows).last() == flat(rows).len(),
        row_offsets(rows)[row] <= row_offsets(rows)[row + 1] <= flat(rows).len(),
        flat(rows).subrange(
            row_offsets(rows)[row] as int,
            row_offsets(rows)[row + 1] as int,
        ) == rows[row],
{
    assert(rows.take(0) =~= Seq::empty());
    assert(rows.take(rows.len() as int) =~= rows);
    lemma_flat_prefix(rows, row);
    lemma_flat_prefix(rows, row + 1);
    lemma_flat_at(rows, row, rows.len() as int);
    assert(rows.take(row + 1).drop_last() =~= rows.take(row));
    assert(rows.take(row + 1).last() == rows[row]);
}

proof fn lemma_flat_at<T>(rows: Seq<Seq<T>>, row: int, count: int)
    requires
        0 <= row < count <= rows.len(),
    ensures
        flat(rows.take(row)).len() + rows[row].len() <= flat(rows.take(count)).len(),
        flat(rows.take(count)).subrange(
            flat(rows.take(row)).len() as int,
            (flat(rows.take(row)).len() + rows[row].len()) as int,
        ) == rows[row],
    decreases count,
{
    let start = flat(rows.take(row)).len() as int;
    let end = start + rows[row].len();
    let now = flat(rows.take(count));
    let before = flat(rows.take(count - 1));
    assert(rows.take(count).drop_last() =~= rows.take(count - 1));
    assert(rows.take(count).last() == rows[count - 1]);
    assert(now == before + rows[count - 1]);
    if row == count - 1 {
        assert(now.subrange(start, end) =~= rows[row]);
    } else {
        lemma_flat_at(rows, row, count - 1);
        assert(now.subrange(start, end) =~= before.subrange(start, end));
    }
}

} // verus!
