//! Immutable adjacency with append-only deltas and tombstones.

use crate::csr::{build_outcome, transposed, Csr};
use crate::error::{Error, Result};
use crate::order::{
    decode_pair, encode_pair, law_pair_key_order, lemma_pair_key, lemma_permutation, pair_key,
    pair_less, pair_of, sort_keys, sorted,
};
use crate::persistent::paged::PagedVec;
use crate::persistent::radix::PersistentMap;
use crate::shared::clone_faithful;
use vstd::prelude::*;

verus! {

/// Recent adjacency change merged with the immutable base during reads.
#[derive(Clone, Copy, Debug, PartialEq, Eq, Structural)]
pub enum AdjacencyDelta {
    Insert { source: u32, target: u32, edge: u32 },
    Delete { source: u32, target: u32, edge: u32 },
}

/// Which end of an edge names its row.
#[derive(Clone, Copy, Debug, PartialEq, Eq, Structural)]
pub enum Side {
    Outgoing,
    Incoming,
}

impl AdjacencyDelta {
    pub open spec fn spec_source(self) -> u32 {
        match self {
            AdjacencyDelta::Insert { source, .. } => source,
            AdjacencyDelta::Delete { source, .. } => source,
        }
    }

    pub open spec fn spec_target(self) -> u32 {
        match self {
            AdjacencyDelta::Insert { target, .. } => target,
            AdjacencyDelta::Delete { target, .. } => target,
        }
    }

    pub open spec fn spec_edge(self) -> u32 {
        match self {
            AdjacencyDelta::Insert { edge, .. } => edge,
            AdjacencyDelta::Delete { edge, .. } => edge,
        }
    }

    /// The row that the change belongs to.
    pub open spec fn spec_row(self, side: Side) -> u32 {
        match side {
            Side::Outgoing => self.spec_source(),
            Side::Incoming => self.spec_target(),
        }
    }

    /// The row entry that the change adds or removes: the node at the other end and the edge.
    pub open spec fn spec_entry(self, side: Side) -> (u32, u32) {
        match side {
            Side::Outgoing => (self.spec_target(), self.spec_edge()),
            Side::Incoming => (self.spec_source(), self.spec_edge()),
        }
    }

    fn row(self, side: Side) -> (row: u32)
        ensures
            row == self.spec_row(side),
    {
        match self {
            AdjacencyDelta::Insert { source, target, .. } => match side {
                Side::Outgoing => source,
                Side::Incoming => target,
            },
            AdjacencyDelta::Delete { source, target, .. } => match side {
                Side::Outgoing => source,
                Side::Incoming => target,
            },
        }
    }

    fn entry(self, side: Side) -> (entry: (u32, u32))
        ensures
            entry == self.spec_entry(side),
    {
        match self {
            AdjacencyDelta::Insert { source, target, edge } => match side {
                Side::Outgoing => (target, edge),
                Side::Incoming => (source, edge),
            },
            AdjacencyDelta::Delete { source, target, edge } => match side {
                Side::Outgoing => (target, edge),
                Side::Incoming => (source, edge),
            },
        }
    }
}

/// What the last change of one entry of one row says: present, absent, or nothing.
pub open spec fn pending(
    deltas: Seq<AdjacencyDelta>,
    side: Side,
    row: u32,
    entry: (u32, u32),
) -> Option<bool>
    decreases deltas.len(),
{
    if deltas.len() == 0 {
        None
    } else if deltas.last().spec_row(side) == row && deltas.last().spec_entry(side) == entry {
        Some(deltas.last() is Insert)
    } else {
        pending(deltas.drop_last(), side, row, entry)
    }
}

/// Some change belongs to the row.
pub open spec fn row_touched(deltas: Seq<AdjacencyDelta>, side: Side, row: u32) -> bool {
    exists|i: int| 0 <= i < deltas.len() && (#[trigger] deltas[i]).spec_row(side) == row
}

/// The base row, empty where the base has none.
pub open spec fn base_row(base: Csr, row: u32) -> Seq<(u32, u32)> {
    match base.spec_row(row as int) {
        Some(entries) => entries,
        None => Seq::empty(),
    }
}

/// An entry is in the merged row: its last change says so, or nothing changed it and the base row
/// holds it.
pub open spec fn merged_holds(
    base: Csr,
    deltas: Seq<AdjacencyDelta>,
    side: Side,
    row: u32,
    entry: (u32, u32),
) -> bool {
    match pending(deltas, side, row, entry) {
        Some(present) => present,
        None => base_row(base, row).contains(entry),
    }
}

/// Entries in strictly ascending order.
pub open spec fn ascending_pairs(entries: Seq<(u32, u32)>) -> bool {
    forall|i: int, j: int|
        0 <= i < j < entries.len() ==> pair_less(#[trigger] entries[i], #[trigger] entries[j])
}

/// The merged row: the base row as it stands where nothing changed it, else exactly the entries that
/// hold, in ascending order.
pub open spec fn is_merged_row(
    base: Csr,
    deltas: Seq<AdjacencyDelta>,
    side: Side,
    row: u32,
    output: Seq<(u32, u32)>,
) -> bool {
    if row_touched(deltas, side, row) {
        &&& ascending_pairs(output)
        &&& forall|entry: (u32, u32)| #[trigger]
            output.contains(entry) <==> merged_holds(base, deltas, side, row, entry)
    } else {
        output == base_row(base, row)
    }
}

/// Changes of one row, in order.
spec fn row_deltas(deltas: Seq<AdjacencyDelta>, side: Side, row: u32) -> Seq<AdjacencyDelta>
    decreases deltas.len(),
{
    if deltas.len() == 0 {
        Seq::empty()
    } else if deltas.last().spec_row(side) == row {
        row_deltas(deltas.drop_last(), side, row).push(deltas.last())
    } else {
        row_deltas(deltas.drop_last(), side, row)
    }
}

proof fn lemma_row_deltas(deltas: Seq<AdjacencyDelta>, side: Side, row: u32)
    ensures
        row_deltas(deltas, side, row).len() <= deltas.len(),
        forall|i: int|
            0 <= i < row_deltas(deltas, side, row).len() ==> (#[trigger] row_deltas(
                deltas,
                side,
                row,
            )[i]).spec_row(side) == row,
        forall|entry: (u32, u32)| #[trigger]
            pending(row_deltas(deltas, side, row), side, row, entry) == pending(
                deltas,
                side,
                row,
                entry,
            ),
        row_touched(deltas, side, row) <==> row_deltas(deltas, side, row).len() > 0,
    decreases deltas.len(),
{
    if deltas.len() > 0 {
        let rest = deltas.drop_last();
        lemma_row_deltas(rest, side, row);
        let all = row_deltas(deltas, side, row);
        if deltas.last().spec_row(side) == row {
            assert(all.drop_last() =~= row_deltas(rest, side, row));
            assert(deltas[deltas.len() - 1].spec_row(side) == row);
            assert forall|entry: (u32, u32)| #[trigger] pending(all, side, row, entry) == pending(
                deltas,
                side,
                row,
                entry,
            ) by {
                assert(pending(row_deltas(rest, side, row), side, row, entry) == pending(
                    rest,
                    side,
                    row,
                    entry,
                ));
            }
        } else {
            assert forall|entry: (u32, u32)| #[trigger] pending(all, side, row, entry) == pending(
                deltas,
                side,
                row,
                entry,
            ) by {
                assert(pending(row_deltas(rest, side, row), side, row, entry) == pending(
                    rest,
                    side,
                    row,
                    entry,
                ));
            }
            if row_touched(deltas, side, row) {
                let i = choose|i: int|
                    0 <= i < deltas.len() && (#[trigger] deltas[i]).spec_row(side) == row;
                assert(rest[i] == deltas[i]);
            }
            if row_touched(rest, side, row) {
                let i = choose|i: int|
                    0 <= i < rest.len() && (#[trigger] rest[i]).spec_row(side) == row;
                assert(deltas[i] == rest[i]);
            }
        }
    }
}

/// The changes of each row of one side, by row.
spec fn grouped(
    rows: PersistentMap<PagedVec<AdjacencyDelta>>,
    deltas: Seq<AdjacencyDelta>,
    side: Side,
) -> bool {
    &&& rows.wf()
    &&& rows@.dom().finite()
    &&& rows@.dom().len() <= deltas.len()
    &&& forall|row: u32| #[trigger]
        row_deltas(deltas, side, row) == if rows@.dom().contains(row as u128) {
            rows@[row as u128]@
        } else {
            Seq::empty()
        }
    &&& forall|key: u128| #[trigger] rows@.dom().contains(key) ==> rows@[key].wf()
}

struct DeltaRows {
    outgoing: PersistentMap<PagedVec<AdjacencyDelta>>,
    incoming: PersistentMap<PagedVec<AdjacencyDelta>>,
}

proof fn lemma_paged_faithful()
    ensures
        clone_faithful::<PagedVec<AdjacencyDelta>>(),
        clone_faithful::<AdjacencyDelta>(),
{
}

fn append_row(
    rows: &mut PersistentMap<PagedVec<AdjacencyDelta>>,
    side: Side,
    delta: AdjacencyDelta,
    Ghost(deltas): Ghost<Seq<AdjacencyDelta>>,
)
    requires
        grouped(*old(rows), deltas, side),
        deltas.len() < usize::MAX,
    ensures
        grouped(*final(rows), deltas.push(delta), side),
{
    proof {
        lemma_paged_faithful();
    }
    let row: u32 = delta.row(side);
    let mut list = match rows.get(row as u128) {
        Some(list) => list.clone(),
        None => PagedVec::default(),
    };
    proof {
        lemma_row_deltas(deltas, side, row);
        assert(row_deltas(deltas, side, row) == list@);
    }
    list.push(delta);
    let ghost before = rows@;
    rows.insert(row as u128, list);
    proof {
        let grown = deltas.push(delta);
        assert(grown.drop_last() =~= deltas);
        assert forall|other: u32| #[trigger] row_deltas(grown, side, other) == if rows@.dom().contains(
            other as u128,
        ) {
            rows@[other as u128]@
        } else {
            Seq::empty()
        } by {
            let previous = row_deltas(deltas, side, other);
        }
    }
}

impl DeltaRows {
    spec fn wf(&self, deltas: Seq<AdjacencyDelta>) -> bool {
        &&& grouped(self.outgoing, deltas, Side::Outgoing)
        &&& grouped(self.incoming, deltas, Side::Incoming)
    }

    fn new() -> (rows: Self)
        ensures
            rows.wf(Seq::empty()),
    {
        DeltaRows { outgoing: PersistentMap::default(), incoming: PersistentMap::default() }
    }

    fn append(&mut self, delta: AdjacencyDelta, Ghost(deltas): Ghost<Seq<AdjacencyDelta>>)
        requires
            old(self).wf(deltas),
            deltas.len() < usize::MAX,
        ensures
            final(self).wf(deltas.push(delta)),
    {
        append_row(&mut self.outgoing, Side::Outgoing, delta, Ghost(deltas));
        append_row(&mut self.incoming, Side::Incoming, delta, Ghost(deltas));
    }
}

/// Bidirectional immutable adjacency plus a bounded append-only change buffer.
pub struct Adjacency {
    outgoing: Csr,
    incoming: Csr,
    deltas: PagedVec<AdjacencyDelta>,
    delta_rows: DeltaRows,
}

impl Clone for DeltaRows {
    fn clone(&self) -> (copy: Self)
        ensures
            copy == *self,
    {
        DeltaRows { outgoing: self.outgoing.clone(), incoming: self.incoming.clone() }
    }
}

impl Clone for Adjacency {
    fn clone(&self) -> (copy: Self)
        ensures
            copy == *self,
    {
        Adjacency {
            outgoing: self.outgoing.clone(),
            incoming: self.incoming.clone(),
            deltas: self.deltas.clone(),
            delta_rows: self.delta_rows.clone(),
        }
    }
}

impl Default for Adjacency {
    fn default() -> (adjacency: Self)
        ensures
            adjacency.wf(),
            adjacency.spec_deltas() == Seq::<AdjacencyDelta>::empty(),
            adjacency.spec_outgoing().node_total() == 0,
            adjacency.spec_incoming().node_total() == 0,
    {
        Adjacency::from_csr(Csr::default(), Csr::default())
    }
}

/// The pending value of every changed entry of one row, by entry key.
spec fn pending_by_key(
    map: Map<u128, bool>,
    deltas: Seq<AdjacencyDelta>,
    side: Side,
    row: u32,
) -> bool {
    &&& forall|entry: (u32, u32)| #[trigger]
        pending(deltas, side, row, entry) == if map.dom().contains(pair_key(entry)) {
            Some(map[pair_key(entry)])
        } else {
            None
        }
    &&& forall|key: u128| #[trigger] map.dom().contains(key) ==> key < 0x1_0000_0000_0000_0000
}

/// Collects what the changes of one row say of its entries.
fn pending_map(
    list: &PagedVec<AdjacencyDelta>,
    side: Side,
    Ghost(row): Ghost<u32>,
) -> (map: PersistentMap<bool>)
    requires
        list.wf(),
        forall|i: int| 0 <= i < list@.len() ==> (#[trigger] list@[i]).spec_row(side) == row,
    ensures
        map.wf(),
        pending_by_key(map@, list@, side, row),
{
    let mut map: PersistentMap<bool> = PersistentMap::default();
    let total: usize = list.len();
    for index in 0..total
        invariant
            total == list@.len(),
            list.wf(),
            forall|i: int| 0 <= i < list@.len() ==> (#[trigger] list@[i]).spec_row(side) == row,
            map.wf(),
            map@.dom().finite(),
            map@.dom().len() <= index,
            pending_by_key(map@, list@.subrange(0, index as int), side, row),
    {
        if let Some(delta) = list.get(index) {
            let delta: AdjacencyDelta = *delta;
            let entry = delta.entry(side);
            let present = match delta {
                AdjacencyDelta::Insert { .. } => true,
                AdjacencyDelta::Delete { .. } => false,
            };
            let ghost before = map@;
            map.insert(encode_pair(entry), present);
            proof {
                let head = list@.subrange(0, index + 1);
                assert(head.drop_last() =~= list@.subrange(0, index as int));
                assert(list@[index as int].spec_row(side) == row);
                lemma_pair_key(entry);
                assert forall|other: (u32, u32)| #[trigger]
                    pending(head, side, row, other) == if map@.dom().contains(pair_key(other)) {
                        Some(map@[pair_key(other)])
                    } else {
                        None
                    } by {
                    lemma_pair_key(other);
                    assert(pending(list@.subrange(0, index as int), side, row, other)
                        == if before.dom().contains(
                        pair_key(other),
                    ) {
                        Some(before[pair_key(other)])
                    } else {
                        None
                    });
                }
            }
        }
    }
    assert(list@.subrange(0, total as int) =~= list@);
    map
}

/// Base entries that no change removed, in row order, as keys.
pub open spec fn kept_keys(
    entries: Seq<(u32, u32)>,
    deltas: Seq<AdjacencyDelta>,
    side: Side,
    row: u32,
) -> Seq<u128>
    decreases entries.len(),
{
    if entries.len() == 0 {
        Seq::empty()
    } else if pending(deltas, side, row, entries.last()) == Some(false) {
        kept_keys(entries.drop_last(), deltas, side, row)
    } else {
        kept_keys(entries.drop_last(), deltas, side, row).push(pair_key(entries.last()))
    }
}

/// The keys that changes added, in ascending order.
pub open spec fn inserted_keys(
    deltas: Seq<AdjacencyDelta>,
    side: Side,
    row: u32,
    keys: Seq<u128>,
) -> bool {
    &&& forall|i: int, j: int| 0 <= i < j < keys.len() ==> #[trigger] keys[i] < #[trigger] keys[j]
    &&& forall|i: int|
        0 <= i < keys.len() ==> (#[trigger] keys[i]) < 0x1_0000_0000_0000_0000
    &&& forall|entry: (u32, u32)|
        keys.contains(#[trigger] pair_key(entry)) <==> pending(deltas, side, row, entry) == Some(
            true,
        )
}

fn kept(
    entries: &Vec<(u32, u32)>,
    map: &PersistentMap<bool>,
    Ghost(deltas): Ghost<Seq<AdjacencyDelta>>,
    side: Side,
    Ghost(row): Ghost<u32>,
) -> (keys: Vec<u128>)
    requires
        map.wf(),
        pending_by_key(map@, deltas, side, row),
    ensures
        keys@ == kept_keys(entries@, deltas, side, row),
{
    let mut keys: Vec<u128> = Vec::new();
    for index in 0..entries.len()
        invariant
            map.wf(),
            pending_by_key(map@, deltas, side, row),
            keys@ == kept_keys(entries@.subrange(0, index as int), deltas, side, row),
    {
        let entry = entries[index];
        let key: u128 = encode_pair(entry);
        proof {
            let head = entries@.subrange(0, index + 1);
            assert(head.drop_last() =~= entries@.subrange(0, index as int));
            assert(pending(deltas, side, row, entry) == if map@.dom().contains(pair_key(entry)) {
                Some(map@[pair_key(entry)])
            } else {
                None
            });
        }
        match map.get(key) {
            Some(present) => {
                if *present {
                    keys.push(key);
                }
            },
            None => {
                keys.push(key);
            },
        }
    }
    assert(entries@.subrange(0, entries@.len() as int) =~= entries@);
    keys
}

spec fn entry_inserted(entries: Seq<(u128, &bool)>, bound: int, key: u128) -> bool {
    exists|j: int| 0 <= j < bound && (#[trigger] entries[j]).0 == key && *entries[j].1
}

fn inserted(
    map: &PersistentMap<bool>,
    Ghost(deltas): Ghost<Seq<AdjacencyDelta>>,
    Ghost(side): Ghost<Side>,
    Ghost(row): Ghost<u32>,
) -> (keys: Vec<u128>)
    requires
        map.wf(),
        pending_by_key(map@, deltas, side, row),
    ensures
        inserted_keys(deltas, side, row, keys@),
{
    let entries = map.iter();
    let mut keys: Vec<u128> = Vec::new();
    for index in 0..entries.len()
        invariant
            forall|i: int, j: int|
                0 <= i < j < entries@.len() ==> (#[trigger] entries@[i]).0 < (#[trigger] entries@[j]).0,
            forall|i: int, j: int|
                0 <= i < j < keys.len() ==> #[trigger] keys@[i] < #[trigger] keys@[j],
            forall|i: int|
                0 <= i < keys.len() ==> entry_inserted(
                    entries@,
                    index as int,
                    #[trigger] keys@[i],
                ),
            forall|j: int|
                0 <= j < index && *(#[trigger] entries@[j]).1 ==> keys@.contains(entries@[j].0),
    {
        let (key, present) = entries[index];
        let ghost before = keys@;
        if *present {
            keys.push(key);
            proof {
                assert(entries@[index as int].0 == key && *entries@[index as int].1);
                assert forall|i: int| 0 <= i < keys.len() implies entry_inserted(
                    entries@,
                    index + 1,
                    #[trigger] keys@[i],
                ) by {
                    if i < before.len() {
                        assert(keys@[i] == before[i]);
                        let j = choose|j: int|
                            0 <= j < index && (#[trigger] entries@[j]).0 == before[i]
                                && *entries@[j].1;
                        assert(entries@[j].0 == keys@[i]);
                    }
                }
                assert forall|i: int, j: int| 0 <= i < j < keys.len() implies #[trigger] keys@[i]
                    < #[trigger] keys@[j] by {
                    if j == before.len() {
                        assert(keys@[i] == before[i]);
                        assert(entry_inserted(entries@, index as int, before[i]));
                        let k = choose|k: int|
                            0 <= k < index && (#[trigger] entries@[k]).0 == before[i]
                                && *entries@[k].1;
                        assert(entries@[k].0 < entries@[index as int].0);
                    }
                }
                assert(keys@[before.len() as int] == key);
            }
        }
        proof {
            assert forall|j: int| 0 <= j < index + 1
                && *(#[trigger] entries@[j]).1 implies keys@.contains(
                entries@[j].0,
            ) by {
                if j < index {
                    assert(before.contains(entries@[j].0));
                    let i = choose|i: int| 0 <= i < before.len() && before[i] == entries@[j].0;
                    assert(keys@[i] == entries@[j].0);
                }
            }
        }
    }
    proof {
        assert forall|i: int| 0 <= i < keys@.len() implies (#[trigger] keys@[i])
            < 0x1_0000_0000_0000_0000 by {
            let j = choose|j: int|
                0 <= j < entries@.len() && (#[trigger] entries@[j]).0 == keys@[i]
                    && *entries@[j].1;
            assert(map@.dom().contains(entries@[j].0));
        }
        assert forall|entry: (u32, u32)|
            keys@.contains(#[trigger] pair_key(entry)) <==> pending(deltas, side, row, entry)
                == Some(true) by {
            let key = pair_key(entry);
            assert(pending(deltas, side, row, entry) == if map@.dom().contains(key) {
                Some(map@[key])
            } else {
                None
            });
            if keys@.contains(key) {
                let i = choose|i: int| 0 <= i < keys@.len() && keys@[i] == key;
                let j = choose|j: int|
                    0 <= j < entries@.len() && (#[trigger] entries@[j]).0 == keys@[i]
                        && *entries@[j].1;
            }
            if map@.dom().contains(key) && map@[key] {
                let j = choose|j: int| 0 <= j < entries@.len() && (#[trigger] entries@[j]).0 == key;
                assert(*entries@[j].1);
            }
        }
    }
    keys
}

proof fn lemma_kept(
    entries: Seq<(u32, u32)>,
    deltas: Seq<AdjacencyDelta>,
    side: Side,
    row: u32,
)
    ensures
        forall|i: int|
            0 <= i < kept_keys(entries, deltas, side, row).len() ==> (#[trigger] kept_keys(
                entries,
                deltas,
                side,
                row,
            )[i]) < 0x1_0000_0000_0000_0000,
        forall|entry: (u32, u32)|
            kept_keys(entries, deltas, side, row).contains(#[trigger] pair_key(entry)) <==> (
            entries.contains(entry) && pending(deltas, side, row, entry) != Some(false)),
        ascending_entries(entries) ==> sorted(kept_keys(entries, deltas, side, row)),
        entries.len() > 0 && ascending_entries(entries) ==> forall|i: int|
            0 <= i < kept_keys(entries, deltas, side, row).len() ==> (#[trigger] kept_keys(
                entries,
                deltas,
                side,
                row,
            )[i]) <= pair_key(entries.last()),
        pending_none(deltas, side, row) ==> kept_keys(entries, deltas, side, row) == entry_keys(
            entries,
        ),
    decreases entries.len(),
{
    let keys = kept_keys(entries, deltas, side, row);
    if entries.len() > 0 {
        let rest = entries.drop_last();
        let last = entries.last();
        lemma_kept(rest, deltas, side, row);
        lemma_pair_key(last);
        let before = kept_keys(rest, deltas, side, row);
        if ascending_entries(entries) {
            assert(ascending_entries(rest)) by {
                assert forall|i: int, j: int| 0 <= i < j < rest.len() implies !pair_less(
                    #[trigger] rest[j],
                    #[trigger] rest[i],
                ) by {
                    assert(!pair_less(entries[j], entries[i]));
                }
            }
            if rest.len() > 0 {
                assert(!pair_less(entries[entries.len() - 1], entries[entries.len() - 2]));
                law_pair_key_order(last, rest.last());
            }
        }
        assert forall|entry: (u32, u32)|
            keys.contains(#[trigger] pair_key(entry)) <==> (entries.contains(entry) && pending(
                deltas,
                side,
                row,
                entry,
            ) != Some(false)) by {
            lemma_pair_key(entry);
            assert(before.contains(pair_key(entry)) <==> (rest.contains(entry) && pending(
                deltas,
                side,
                row,
                entry,
            ) != Some(false)));
            if rest.contains(entry) {
                let i = choose|i: int| 0 <= i < rest.len() && rest[i] == entry;
                assert(entries[i] == entry);
            }
            if entries.contains(entry) && entry != last {
                let i = choose|i: int| 0 <= i < entries.len() && entries[i] == entry;
                assert(rest[i] == entry);
            }
            if entry == last {
                assert(entries[entries.len() - 1] == entry);
            }
            if before.contains(pair_key(entry)) {
                let i = choose|i: int| 0 <= i < before.len() && before[i] == pair_key(entry);
                assert(keys[i] == pair_key(entry));
            }
            if keys.contains(pair_key(entry)) && entry != last {
                let i = choose|i: int| 0 <= i < keys.len() && keys[i] == pair_key(entry);
                assert(before[i] == pair_key(entry));
            }
            if entry == last && pending(deltas, side, row, entry) != Some(false) {
                assert(keys[keys.len() - 1] == pair_key(entry));
            }
        }
        if pending_none(deltas, side, row) {
            assert(pending(deltas, side, row, last) is None);
            assert(entry_keys(entries) =~= entry_keys(rest).push(pair_key(last)));
        }
        assert forall|i: int| 0 <= i < keys.len() implies (#[trigger] keys[i])
            < 0x1_0000_0000_0000_0000 by {
            if i < before.len() {
                assert(keys[i] == before[i]);
            }
        }
        if ascending_entries(entries) {
            assert forall|i: int| 0 <= i < keys.len() implies (#[trigger] keys[i]) <= pair_key(
                last,
            ) by {
                if i < before.len() {
                    assert(keys[i] == before[i]);
                }
            }
            assert forall|i: int, j: int| 0 <= i < j < keys.len() implies #[trigger] keys[i]
                <= #[trigger] keys[j] by {
                if j < before.len() {
                    assert(keys[i] == before[i] && keys[j] == before[j]);
                }
            }
        }
    } else {
        assert(entry_keys(entries) =~= keys);
    }
}

/// No entry stands before a smaller one.
pub open spec fn ascending_entries(entries: Seq<(u32, u32)>) -> bool {
    forall|i: int, j: int|
        0 <= i < j < entries.len() ==> !pair_less(#[trigger] entries[j], #[trigger] entries[i])
}

/// Nothing changed any entry of the row.
pub open spec fn pending_none(deltas: Seq<AdjacencyDelta>, side: Side, row: u32) -> bool {
    forall|entry: (u32, u32)| (#[trigger] pending(deltas, side, row, entry)) is None
}

pub open spec fn entry_keys(entries: Seq<(u32, u32)>) -> Seq<u128> {
    Seq::new(entries.len(), |i: int| pair_key(entries[i]))
}

impl Adjacency {
    pub closed spec fn spec_outgoing(&self) -> Csr {
        self.outgoing
    }

    pub closed spec fn spec_incoming(&self) -> Csr {
        self.incoming
    }

    /// Changes since the base was built, in order.
    pub closed spec fn spec_deltas(&self) -> Seq<AdjacencyDelta> {
        self.deltas@
    }

    pub open spec fn spec_base(&self, side: Side) -> Csr {
        match side {
            Side::Outgoing => self.spec_outgoing(),
            Side::Incoming => self.spec_incoming(),
        }
    }

    /// The change lists of the rows are those of the change buffer.
    pub closed spec fn wf(&self) -> bool {
        &&& self.deltas.wf()
        &&& self.delta_rows.wf(self.deltas@)
    }

    pub fn from_csr(outgoing: Csr, incoming: Csr) -> (adjacency: Self)
        ensures
            adjacency.wf(),
            adjacency.spec_outgoing() == outgoing,
            adjacency.spec_incoming() == incoming,
            adjacency.spec_deltas() == Seq::<AdjacencyDelta>::empty(),
    {
        Adjacency {
            outgoing,
            incoming,
            deltas: PagedVec::default(),
            delta_rows: DeltaRows::new(),
        }
    }

    pub fn outgoing(&self) -> (csr: &Csr)
        ensures
            *csr == self.spec_outgoing(),
    {
        &self.outgoing
    }

    pub fn incoming(&self) -> (csr: &Csr)
        ensures
            *csr == self.spec_incoming(),
    {
        &self.incoming
    }

    pub fn deltas(&self) -> (deltas: Vec<AdjacencyDelta>)
        requires
            self.wf(),
        ensures
            deltas@ == self.spec_deltas(),
    {
        proof {
            lemma_paged_faithful();
        }
        self.deltas.to_vec()
    }

    pub fn delta_len(&self) -> (len: usize)
        ensures
            len == self.spec_deltas().len(),
    {
        self.deltas.len()
    }

    pub fn insert(&mut self, source: u32, target: u32, edge: u32)
        requires
            old(self).wf(),
            old(self).spec_deltas().len() < usize::MAX,
        ensures
            final(self).wf(),
            final(self).spec_outgoing() == old(self).spec_outgoing(),
            final(self).spec_incoming() == old(self).spec_incoming(),
            final(self).spec_deltas() == old(self).spec_deltas().push(
                (AdjacencyDelta::Insert { source, target, edge }),
            ),
    {
        self.append_delta(AdjacencyDelta::Insert { source, target, edge });
    }

    pub fn delete(&mut self, source: u32, target: u32, edge: u32)
        requires
            old(self).wf(),
            old(self).spec_deltas().len() < usize::MAX,
        ensures
            final(self).wf(),
            final(self).spec_outgoing() == old(self).spec_outgoing(),
            final(self).spec_incoming() == old(self).spec_incoming(),
            final(self).spec_deltas() == old(self).spec_deltas().push(
                (AdjacencyDelta::Delete { source, target, edge }),
            ),
    {
        self.append_delta(AdjacencyDelta::Delete { source, target, edge });
    }

    fn append_delta(&mut self, delta: AdjacencyDelta)
        requires
            old(self).wf(),
            old(self).spec_deltas().len() < usize::MAX,
        ensures
            final(self).wf(),
            final(self).spec_outgoing() == old(self).spec_outgoing(),
            final(self).spec_incoming() == old(self).spec_incoming(),
            final(self).spec_deltas() == old(self).spec_deltas().push(delta),
    {
        proof {
            lemma_paged_faithful();
        }
        let ghost before = self.deltas@;
        self.deltas.push(delta);
        self.delta_rows.append(delta, Ghost(before));
    }

    /// What the changes of one row say of its entries.
    fn row_pending(&self, side: Side, row: u32) -> (map: Option<PersistentMap<bool>>)
        requires
            self.wf(),
        ensures
            match map {
                Some(map) => {
                    &&& row_touched(self.spec_deltas(), side, row)
                    &&& map.wf()
                    &&& pending_by_key(map@, self.spec_deltas(), side, row)
                },
                None => {
                    &&& !row_touched(self.spec_deltas(), side, row)
                    &&& pending_none(self.spec_deltas(), side, row)
                },
            },
    {
        proof {
            lemma_row_deltas(self.deltas@, side, row);
        }
        let ghost changes = row_deltas(self.deltas@, side, row);
        let list = match side {
            Side::Outgoing => self.delta_rows.outgoing.get(row as u128),
            Side::Incoming => self.delta_rows.incoming.get(row as u128),
        };
        match list {
            Some(list) => {
                assert(list@ == changes);
                if list.len() == 0 {
                    proof {
                        assert forall|entry: (u32, u32)| (#[trigger] pending(
                            self.deltas@,
                            side,
                            row,
                            entry,
                        )) is None by {
                            assert(pending(changes, side, row, entry) is None);
                        }
                    }
                    return None;
                }
                let map = pending_map(list, side, Ghost(row));
                proof {
                    assert forall|entry: (u32, u32)| #[trigger]
                        pending(self.deltas@, side, row, entry) == if map@.dom().contains(
                            pair_key(entry),
                        ) {
                            Some(map@[pair_key(entry)])
                        } else {
                            None
                        } by {
                        assert(pending(changes, side, row, entry) == pending(
                            self.deltas@,
                            side,
                            row,
                            entry,
                        ));
                    }
                }
                Some(map)
            },
            None => {
                proof {
                    assert(changes =~= Seq::empty());
                    assert forall|entry: (u32, u32)| (#[trigger] pending(
                        self.deltas@,
                        side,
                        row,
                        entry,
                    )) is None by {
                        assert(pending(changes, side, row, entry) is None);
                    }
                }
                None
            },
        }
    }

    fn base_entries(&self, side: Side, row: u32) -> (entries: Vec<(u32, u32)>)
        ensures
            entries@ == base_row(self.spec_base(side), row),
    {
        let found = match side {
            Side::Outgoing => self.outgoing.row(row),
            Side::Incoming => self.incoming.row(row),
        };
        match found {
            Some(entries) => entries,
            None => Vec::new(),
        }
    }

    fn expand(&self, side: Side, row: u32, output: &mut Vec<(u32, u32)>)
        requires
            self.wf(),
        ensures
            is_merged_row(self.spec_base(side), self.spec_deltas(), side, row, final(output)@),
    {
        let base = self.base_entries(side, row);
        let map = match self.row_pending(side, row) {
            Some(map) => map,
            None => {
                *output = base;
                return ;
            },
        };
        let ghost deltas = self.spec_deltas();
        let mut keys = kept(&base, &map, Ghost(deltas), side, Ghost(row));
        let ghost kept_part = keys@;
        let mut added = inserted(&map, Ghost(deltas), Ghost(side), Ghost(row));
        let ghost added_part = added@;
        keys.append(&mut added);
        let ghost joined = keys@;
        sort_keys(&mut keys);
        proof {
            lemma_kept(base@, deltas, side, row);
            lemma_permutation(keys@, joined);
            assert forall|i: int| 0 <= i < keys@.len() implies (#[trigger] keys@[i])
                < 0x1_0000_0000_0000_0000 by {
                assert(keys@.contains(keys@[i]));
                assert(joined.contains(keys@[i]));
                let j = choose|j: int| 0 <= j < joined.len() && joined[j] == keys@[i];
                if j < kept_part.len() {
                    assert(kept_part[j] == joined[j]);
                } else {
                    assert(added_part[j - kept_part.len()] == joined[j]);
                }
            }
        }
        *output = distinct_pairs(&keys);
        proof {
            assert forall|entry: (u32, u32)| #[trigger] output@.contains(entry) <==> merged_holds(
                self.spec_base(side),
                deltas,
                side,
                row,
                entry,
            ) by {
                let key = pair_key(entry);
                assert(output@.contains(entry) <==> keys@.contains(key));
                assert(keys@.contains(key) == joined.contains(key));
                assert(joined.contains(key) <==> kept_part.contains(key) || added_part.contains(
                    key,
                )) by {
                    if joined.contains(key) {
                        let j = choose|j: int| 0 <= j < joined.len() && joined[j] == key;
                        if j < kept_part.len() {
                            assert(kept_part[j] == key);
                        } else {
                            assert(added_part[j - kept_part.len()] == key);
                        }
                    }
                    if kept_part.contains(key) {
                        let j = choose|j: int| 0 <= j < kept_part.len() && kept_part[j] == key;
                        assert(joined[j] == key);
                    }
                    if added_part.contains(key) {
                        let j = choose|j: int| 0 <= j < added_part.len() && added_part[j] == key;
                        assert(joined[kept_part.len() + j] == key);
                    }
                }
            }
        }
    }

    /// Returns a deterministic merged outgoing row without rebuilding the base.
    pub fn expand_out(&self, source: u32, output: &mut Vec<(u32, u32)>)
        requires
            self.wf(),
        ensures
            is_merged_row(
                self.spec_outgoing(),
                self.spec_deltas(),
                Side::Outgoing,
                source,
                final(output)@,
            ),
    {
        self.expand(Side::Outgoing, source, output);
    }

    /// Returns a deterministic merged incoming row without rebuilding the base.
    pub fn expand_in(&self, target: u32, output: &mut Vec<(u32, u32)>)
        requires
            self.wf(),
        ensures
            is_merged_row(
                self.spec_incoming(),
                self.spec_deltas(),
                Side::Incoming,
                target,
                final(output)@,
            ),
    {
        self.expand(Side::Incoming, target, output);
    }

    /// Rebuilds both directions at a snapshot boundary and clears applied deltas. A failure leaves
    /// the changes in place; the outgoing direction is rebuilt first.
    pub fn compact(
        &mut self,
        node_count: usize,
        visible_edges: &[(u32, u32, u32)],
    ) -> (result: Result<()>)
        requires
            old(self).wf(),
            node_count < usize::MAX,
        ensures
            final(self).wf(),
            exists|outgoing: Result<Csr>|
                {
                    &&& #[trigger] build_outcome(node_count as int, visible_edges@, outgoing)
                    &&& match outgoing {
                        Err(error) => result == Err::<(), Error>(error) && *final(self) == *old(
                            self,
                        ),
                        Ok(csr) => final(self).spec_outgoing() == csr && exists|
                            incoming: Result<Csr>,
                        |
                            {
                                &&& #[trigger] build_outcome(
                                    node_count as int,
                                    transposed(visible_edges@),
                                    incoming,
                                )
                                &&& match incoming {
                                    Err(error) => {
                                        &&& result == Err::<(), Error>(error)
                                        &&& final(self).spec_incoming() == old(self).spec_incoming()
                                        &&& final(self).spec_deltas() == old(self).spec_deltas()
                                    },
                                    Ok(csr) => {
                                        &&& result is Ok
                                        &&& final(self).spec_incoming() == csr
                                        &&& final(self).spec_deltas()
                                            == Seq::<AdjacencyDelta>::empty()
                                    },
                                }
                            },
                    }
                },
    {
        let outgoing = match Csr::build(node_count, visible_edges) {
            Ok(outgoing) => outgoing,
            Err(error) => {
                proof {
                    assert(build_outcome(
                        node_count as int,
                        visible_edges@,
                        Err::<Csr, Error>(error),
                    ));
                }
                return Err(error);
            },
        };
        proof {
            assert(build_outcome(node_count as int, visible_edges@, Ok::<Csr, Error>(outgoing)));
        }
        self.outgoing = outgoing;
        let incoming = match Csr::build_transposed(node_count, visible_edges) {
            Ok(incoming) => incoming,
            Err(error) => {
                proof {
                    assert(build_outcome(
                        node_count as int,
                        transposed(visible_edges@),
                        Err::<Csr, Error>(error),
                    ));
                }
                return Err(error);
            },
        };
        proof {
            assert(build_outcome(
                node_count as int,
                transposed(visible_edges@),
                Ok::<Csr, Error>(incoming),
            ));
        }
        self.incoming = incoming;
        self.deltas = PagedVec::default();
        self.delta_rows = DeltaRows::new();
        Ok(())
    }
}

/// The pairs of sorted keys, each once.
fn distinct_pairs(keys: &Vec<u128>) -> (pairs: Vec<(u32, u32)>)
    requires
        sorted(keys@),
        forall|i: int| 0 <= i < keys@.len() ==> (#[trigger] keys@[i]) < 0x1_0000_0000_0000_0000,
    ensures
        ascending_pairs(pairs@),
        forall|entry: (u32, u32)| #[trigger]
            pairs@.contains(entry) <==> keys@.contains(pair_key(entry)),
{
    let mut pairs: Vec<(u32, u32)> = Vec::new();
    for index in 0..keys.len()
        invariant
            sorted(keys@),
            forall|i: int| 0 <= i < keys@.len() ==> (#[trigger] keys@[i]) < 0x1_0000_0000_0000_0000,
            ascending_pairs(pairs@),
            forall|i: int|
                0 <= i < pairs.len() ==> keys@.subrange(0, index as int).contains(
                    pair_key(#[trigger] pairs@[i]),
                ),
            forall|i: int|
                0 <= i < index ==> pairs@.contains(pair_of(#[trigger] keys@[i])),
            index > 0 ==> pairs.len() > 0 && pair_key(pairs@.last()) == keys@[index - 1],
    {
        let ghost before = pairs@;
        let key: u128 = keys[index];
        let pair = decode_pair(key);
        let repeated: bool = if index == 0 {
            false
        } else {
            keys[index - 1] == key
        };
        proof {
            lemma_pair_key(pair);
        }
        if !repeated {
            pairs.push(pair);
            proof {
                assert forall|i: int, j: int| 0 <= i < j < pairs.len() implies pair_less(
                    #[trigger] pairs@[i],
                    #[trigger] pairs@[j],
                ) by {
                    if j < before.len() {
                        assert(pair_less(before[i], before[j]));
                    } else {
                        if i < before.len() - 1 {
                            assert(pair_less(before[i], before[before.len() - 1]));
                        }
                        law_pair_key_order(before.last(), pair);
                        assert(keys@[index - 1] <= keys@[index as int]);
                        law_pair_key_order(before[i], before.last());
                        law_pair_key_order(before[i], pair);
                    }
                }
            }
        }
        proof {
            let head = keys@.subrange(0, index + 1);
            assert forall|i: int| 0 <= i < pairs.len() implies head.contains(
                pair_key(#[trigger] pairs@[i]),
            ) by {
                if i < before.len() {
                    let old_head = keys@.subrange(0, index as int);
                    assert(old_head.contains(pair_key(before[i])));
                    let j = choose|j: int|
                        0 <= j < old_head.len() && old_head[j] == pair_key(before[i]);
                    assert(head[j] == pair_key(before[i]));
                } else {
                    assert(head[index as int] == key);
                }
            }
            assert forall|i: int| 0 <= i < index + 1 implies pairs@.contains(
                pair_of(#[trigger] keys@[i]),
            ) by {
                if i < index {
                    let j = choose|j: int| 0 <= j < before.len() && before[j] == pair_of(keys@[i]);
                    assert(pairs@[j] == before[j]);
                } else if repeated {
                    let j = choose|j: int|
                        0 <= j < before.len() && before[j] == pair_of(keys@[index - 1]);
                    assert(pairs@[j] == before[j]);
                } else {
                    assert(pairs@[before.len() as int] == pair);
                }
            }
        }
    }
    proof {
        assert forall|entry: (u32, u32)| #[trigger] pairs@.contains(entry) <==> keys@.contains(
            pair_key(entry),
        ) by {
            lemma_pair_key(entry);
            if pairs@.contains(entry) {
                let i = choose|i: int| 0 <= i < pairs@.len() && pairs@[i] == entry;
                assert(keys@.subrange(0, keys@.len() as int).contains(pair_key(pairs@[i])));
                assert(keys@.subrange(0, keys@.len() as int) =~= keys@);
            }
            if keys@.contains(pair_key(entry)) {
                let i = choose|i: int| 0 <= i < keys@.len() && keys@[i] == pair_key(entry);
                assert(pairs@.contains(pair_of(keys@[i])));
            }
        }
    }
    pairs
}

/// Two key sequences merged by their heads: the smaller head goes first, equal heads go together.
pub open spec fn merged_keys(left: Seq<u128>, right: Seq<u128>) -> Seq<u128>
    decreases left.len() + right.len(),
{
    if left.len() == 0 {
        right
    } else if right.len() == 0 {
        left
    } else if left[0] < right[0] {
        seq![left[0]] + merged_keys(left.skip(1), right)
    } else if right[0] < left[0] {
        seq![right[0]] + merged_keys(left, right.skip(1))
    } else {
        seq![left[0]] + merged_keys(left.skip(1), right.skip(1))
    }
}

/// A key sequence without the keys that repeat the key before them.
pub open spec fn without_repeats(previous: Option<u128>, keys: Seq<u128>) -> Seq<u128>
    decreases keys.len(),
{
    if keys.len() == 0 {
        Seq::empty()
    } else if previous == Some(keys[0]) {
        without_repeats(previous, keys.skip(1))
    } else {
        seq![keys[0]] + without_repeats(Some(keys[0]), keys.skip(1))
    }
}

/// The pairs of a key sequence.
pub open spec fn pairs_of(keys: Seq<u128>) -> Seq<(u32, u32)> {
    Seq::new(keys.len(), |i: int| pair_of(keys[i]))
}

/// The first entries of a merged row: base entries that no change removed, merged with the entries
/// that changes added, without repeats, up to the limit.
pub open spec fn is_bounded_row(
    base: Csr,
    deltas: Seq<AdjacencyDelta>,
    side: Side,
    row: u32,
    limit: int,
    output: Seq<(u32, u32)>,
) -> bool {
    exists|added: Seq<u128>| #[trigger]
        inserted_keys(deltas, side, row, added) && {
            let all = without_repeats(
                None,
                merged_keys(kept_keys(base_row(base, row), deltas, side, row), added),
            );
            output == pairs_of(all.subrange(0, crate::arith::spec_min(limit, all.len() as int)))
        }
}

spec fn last_key(keys: Seq<u128>) -> Option<u128> {
    if keys.len() == 0 {
        None
    } else {
        Some(keys.last())
    }
}

proof fn lemma_merge_step(left: Seq<u128>, right: Seq<u128>, i: int, j: int)
    requires
        0 <= i <= left.len(),
        0 <= j <= right.len(),
    ensures
        i < left.len() ==> left.skip(i)[0] == left[i] && left.skip(i).skip(1) == left.skip(i + 1),
        j < right.len() ==> right.skip(j)[0] == right[j] && right.skip(j).skip(1) == right.skip(
            j + 1,
        ),
{
    if i < left.len() {
        assert(left.skip(i).skip(1) =~= left.skip(i + 1));
    }
    if j < right.len() {
        assert(right.skip(j).skip(1) =~= right.skip(j + 1));
    }
}

fn merge_bounded_row(left: &Vec<u128>, right: &Vec<u128>, limit: usize) -> (keys: Vec<u128>)
    ensures
        ({
            let all = without_repeats(None, merged_keys(left@, right@));
            keys@ == all.subrange(0, crate::arith::spec_min(limit as int, all.len() as int))
        }),
{
    let mut keys: Vec<u128> = Vec::new();
    let mut i: usize = 0;
    let mut j: usize = 0;
    let ghost all = without_repeats(None, merged_keys(left@, right@));
    proof {
        assert(left@.skip(0) =~= left@);
        assert(right@.skip(0) =~= right@);
        assert(keys@ + all =~= all);
    }
    while keys.len() < limit
        invariant_except_break
            i <= left.len(),
            j <= right.len(),
            keys.len() <= limit,
            all == keys@ + without_repeats(
                last_key(keys@),
                merged_keys(left@.skip(i as int), right@.skip(j as int)),
            ),
        ensures
            keys.len() <= limit,
            exists|rest: Seq<u128>| #[trigger] (keys@ + rest) == all && (rest.len() == 0 || keys.len()
                == limit),
        decreases left.len() - i + right.len() - j,
    {
        let ghost rest_left = left@.skip(i as int);
        let ghost rest_right = right@.skip(j as int);
        let ghost rest = merged_keys(rest_left, rest_right);
        let ghost before = keys@;
        proof {
            lemma_merge_step(left@, right@, i as int, j as int);
        }
        let has_left: bool = i < left.len();
        let has_right: bool = j < right.len();
        if !has_left && !has_right {
            proof {
                assert(rest =~= Seq::empty());
                assert(all =~= keys@ + Seq::<u128>::empty());
            }
            break;
        }
        let next: u128;
        if has_left && (!has_right || left[i] < right[j]) {
            next = left[i];
            i = i + 1;
        } else if has_right && (!has_left || right[j] < left[i]) {
            next = right[j];
            j = j + 1;
        } else {
            next = left[i];
            i = i + 1;
            j = j + 1;
        }
        proof {
            let after = merged_keys(left@.skip(i as int), right@.skip(j as int));
            assert(rest.len() > 0);
            assert(rest[0] == next);
            assert(rest.skip(1) =~= after);
            assert(seq![next] + after =~= rest);
        }
        let repeated: bool = if keys.len() == 0 {
            false
        } else {
            keys[keys.len() - 1] == next
        };
        if !repeated {
            keys.push(next);
        }
        proof {
            let after = merged_keys(left@.skip(i as int), right@.skip(j as int));
            let tail = without_repeats(last_key(keys@), after);
            assert(all =~= keys@ + tail);
        }
    }
    proof {
        let rest = choose|rest: Seq<u128>| #[trigger] (keys@ + rest) == all && (rest.len() == 0
            || keys.len() == limit);
        assert(keys@ =~= all.subrange(
            0,
            crate::arith::spec_min(limit as int, all.len() as int),
        ));
    }
    keys
}

proof fn lemma_merged_members(left: Seq<u128>, right: Seq<u128>)
    ensures
        forall|key: u128| #[trigger]
            merged_keys(left, right).contains(key) <==> left.contains(key) || right.contains(key),
        sorted(left) && sorted(right) ==> sorted(merged_keys(left, right)),
    decreases left.len() + right.len(),
{
    let all = merged_keys(left, right);
    if left.len() > 0 && right.len() > 0 {
        let (head, l, r) = if left[0] < right[0] {
            (left[0], left.skip(1), right)
        } else if right[0] < left[0] {
            (right[0], left, right.skip(1))
        } else {
            (left[0], left.skip(1), right.skip(1))
        };
        lemma_merged_members(l, r);
        let rest = merged_keys(l, r);
        assert(all == seq![head] + rest);
        assert forall|key: u128| #[trigger] all.contains(key) <==> left.contains(key)
            || right.contains(key) by {
            lemma_head_contains(all, key);
            lemma_head_contains(left, key);
            lemma_head_contains(right, key);
            assert(all.skip(1) =~= rest);
            assert(rest.contains(key) <==> l.contains(key) || r.contains(key));
        }
        if sorted(left) && sorted(right) {
            assert(sorted(l)) by {
                assert forall|i: int, j: int| 0 <= i < j < l.len() implies #[trigger] l[i]
                    <= #[trigger] l[j] by {
                    let shift = left.len() - l.len();
                    assert(left[i + shift] <= left[j + shift]);
                }
            }
            assert(sorted(r)) by {
                assert forall|i: int, j: int| 0 <= i < j < r.len() implies #[trigger] r[i]
                    <= #[trigger] r[j] by {
                    let shift = right.len() - r.len();
                    assert(right[i + shift] <= right[j + shift]);
                }
            }
            assert forall|i: int, j: int| 0 <= i < j < all.len() implies #[trigger] all[i]
                <= #[trigger] all[j] by {
                if i > 0 {
                    assert(rest[i - 1] <= rest[j - 1]);
                } else {
                    assert(all[j] == rest[j - 1]);
                    assert(rest.contains(all[j]));
                    if l.contains(all[j]) {
                        let k = choose|k: int| 0 <= k < l.len() && l[k] == all[j];
                        let shift = left.len() - l.len();
                        assert(left[k + shift] == all[j]);
                        if k + shift > 0 {
                            assert(left[0] <= left[k + shift]);
                        }
                    } else {
                        let k = choose|k: int| 0 <= k < r.len() && r[k] == all[j];
                        let shift = right.len() - r.len();
                        assert(right[k + shift] == all[j]);
                        if k + shift > 0 {
                            assert(right[0] <= right[k + shift]);
                        }
                    }
                }
            }
        }
    }
}

proof fn lemma_head_contains(keys: Seq<u128>, key: u128)
    requires
        keys.len() > 0,
    ensures
        keys.contains(key) <==> keys[0] == key || keys.skip(1).contains(key),
{
    let rest = keys.skip(1);
    if keys.contains(key) && keys[0] != key {
        let i = choose|i: int| 0 <= i < keys.len() && keys[i] == key;
        assert(rest[i - 1] == key);
    }
    if rest.contains(key) {
        let i = choose|i: int| 0 <= i < rest.len() && rest[i] == key;
        assert(keys[i + 1] == key);
    }
}

spec fn strictly_ascending(keys: Seq<u128>) -> bool {
    forall|i: int, j: int| 0 <= i < j < keys.len() ==> #[trigger] keys[i] < #[trigger] keys[j]
}

proof fn lemma_without_repeats(previous: Option<u128>, keys: Seq<u128>)
    requires
        sorted(keys),
        previous is Some && keys.len() > 0 ==> previous->Some_0 <= keys[0],
    ensures
        strictly_ascending(without_repeats(previous, keys)),
        forall|key: u128| #[trigger]
            without_repeats(previous, keys).contains(key) <==> keys.contains(key) && previous
                != Some(key),
        without_repeats(previous, keys).len() <= keys.len(),
    decreases keys.len(),
{
    if keys.len() > 0 {
        let rest = keys.skip(1);
        let head = keys[0];
        assert forall|i: int, j: int| 0 <= i < j < rest.len() implies #[trigger] rest[i]
            <= #[trigger] rest[j] by {
            assert(keys[i + 1] <= keys[j + 1]);
        }
        if rest.len() > 0 {
            assert(keys[0] <= keys[1]);
        }
        lemma_without_repeats(Some(head), rest);
        let tail = without_repeats(Some(head), rest);
        let all = without_repeats(previous, keys);
        assert forall|key: u128| #[trigger] all.contains(key) <==> keys.contains(key) && previous
            != Some(key) by {
            lemma_head_contains(keys, key);
            assert(tail.contains(key) <==> rest.contains(key) && key != head);
            if previous == Some(head) {
                assert(all == tail);
            } else {
                assert(all == seq![head] + tail);
                lemma_head_contains(all, key);
                assert(all.skip(1) =~= tail);
                if previous is Some && rest.contains(key) {
                    let i = choose|i: int| 0 <= i < rest.len() && rest[i] == key;
                    assert(keys[0] <= keys[i + 1]);
                }
            }
        }
        if previous != Some(head) {
            assert forall|i: int, j: int| 0 <= i < j < all.len() implies #[trigger] all[i]
                < #[trigger] all[j] by {
                assert(all == seq![head] + tail);
                if i > 0 {
                    assert(tail[i - 1] < tail[j - 1]);
                } else {
                    assert(all[j] == tail[j - 1]);
                    assert(tail.contains(all[j]));
                    assert(rest.contains(all[j]));
                    let k = choose|k: int| 0 <= k < rest.len() && rest[k] == all[j];
                    assert(keys[0] <= keys[k + 1]);
                }
            }
        }
    }
}

/// Strictly ascending pairs are determined by which pairs occur.
proof fn lemma_ascending_unique(left: Seq<(u32, u32)>, right: Seq<(u32, u32)>)
    requires
        ascending_pairs(left),
        ascending_pairs(right),
        forall|entry: (u32, u32)| #[trigger] left.contains(entry) <==> right.contains(entry),
    ensures
        left == right,
    decreases left.len(),
{
    if left.len() == 0 {
        if right.len() > 0 {
            assert(right.contains(right[0]));
            assert(left.contains(right[0]));
        }
        assert(left =~= right);
    } else {
        assert(left.contains(left.last()));
        assert(right.len() > 0);
        assert(right.contains(right.last()));
        assert(left.contains(right.last()));
        let a = left.last();
        let b = right.last();
        assert(a == b) by {
            let i = choose|i: int| 0 <= i < right.len() && right[i] == a;
            let j = choose|j: int| 0 <= j < left.len() && left[j] == b;
            if i < right.len() - 1 {
                assert(pair_less(right[i], right[right.len() - 1]));
            }
            if j < left.len() - 1 {
                assert(pair_less(left[j], left[left.len() - 1]));
            }
        }
        let l = left.drop_last();
        let r = right.drop_last();
        assert forall|i: int, j: int| 0 <= i < j < l.len() implies pair_less(
            #[trigger] l[i],
            #[trigger] l[j],
        ) by {
            assert(pair_less(left[i], left[j]));
        }
        assert forall|i: int, j: int| 0 <= i < j < r.len() implies pair_less(
            #[trigger] r[i],
            #[trigger] r[j],
        ) by {
            assert(pair_less(right[i], right[j]));
        }
        assert forall|entry: (u32, u32)| #[trigger] l.contains(entry) <==> r.contains(entry) by {
            if l.contains(entry) {
                let i = choose|i: int| 0 <= i < l.len() && l[i] == entry;
                assert(left[i] == entry && pair_less(left[i], left[left.len() - 1]));
                assert(left.contains(entry));
                let j = choose|j: int| 0 <= j < right.len() && right[j] == entry;
                assert(r[j] == entry);
            }
            if r.contains(entry) {
                let i = choose|i: int| 0 <= i < r.len() && r[i] == entry;
                assert(right[i] == entry && pair_less(right[i], right[right.len() - 1]));
                assert(right.contains(entry));
                assert(left.contains(entry));
                let j = choose|j: int| 0 <= j < left.len() && left[j] == entry;
                assert(l[j] == entry);
            }
        }
        lemma_ascending_unique(l, r);
        assert(left =~= l.push(a));
        assert(right =~= r.push(b));
    }
}

/// A bounded row is the start of the merged row, wherever the base row is in ascending order, as the
/// rows of a built adjacency are. A row that was not changed holds no entry twice for that: the
/// merged row would repeat it and the bounded row does not.
pub proof fn law_bounded_row_is_a_prefix(
    base: Csr,
    deltas: Seq<AdjacencyDelta>,
    side: Side,
    row: u32,
    limit: int,
    bounded: Seq<(u32, u32)>,
    merged: Seq<(u32, u32)>,
)
    requires
        limit >= 0,
        ascending_entries(base_row(base, row)),
        row_touched(deltas, side, row) || ascending_pairs(base_row(base, row)),
        is_bounded_row(base, deltas, side, row, limit, bounded),
        is_merged_row(base, deltas, side, row, merged),
    ensures
        bounded == merged.subrange(0, crate::arith::spec_min(limit, merged.len() as int)),
{
    if !row_touched(deltas, side, row) {
        assert forall|entry: (u32, u32)| #[trigger]
            merged.contains(entry) <==> merged_holds(base, deltas, side, row, entry) by {
            lemma_untouched(deltas, side, row, entry);
        }
    }
    lemma_bounded_prefix(base, deltas, side, row, limit, bounded, merged);
}

/// Of a row that was not changed no entry is pending.
proof fn lemma_untouched(deltas: Seq<AdjacencyDelta>, side: Side, row: u32, entry: (u32, u32))
    requires
        !row_touched(deltas, side, row),
    ensures
        pending(deltas, side, row, entry) is None,
    decreases deltas.len(),
{
    if deltas.len() > 0 {
        let rest = deltas.drop_last();
        assert(deltas[deltas.len() - 1] == deltas.last());
        assert(!row_touched(rest, side, row)) by {
            if row_touched(rest, side, row) {
                let i = choose|i: int|
                    0 <= i < rest.len() && (#[trigger] rest[i]).spec_row(side) == row;
                assert(deltas[i].spec_row(side) == row);
            }
        }
        lemma_untouched(rest, side, row, entry);
    }
}

proof fn lemma_bounded_prefix(
    base: Csr,
    deltas: Seq<AdjacencyDelta>,
    side: Side,
    row: u32,
    limit: int,
    bounded: Seq<(u32, u32)>,
    merged: Seq<(u32, u32)>,
)
    requires
        limit >= 0,
        ascending_entries(base_row(base, row)),
        is_bounded_row(base, deltas, side, row, limit, bounded),
        ascending_pairs(merged),
        forall|entry: (u32, u32)| #[trigger]
            merged.contains(entry) <==> merged_holds(base, deltas, side, row, entry),
    ensures
        bounded == merged.subrange(0, crate::arith::spec_min(limit, merged.len() as int)),
{
    let added = choose|added: Seq<u128>| #[trigger]
        inserted_keys(deltas, side, row, added) && {
            let all = without_repeats(
                None,
                merged_keys(kept_keys(base_row(base, row), deltas, side, row), added),
            );
            bounded == pairs_of(all.subrange(0, crate::arith::spec_min(limit, all.len() as int)))
        };
    let entries = base_row(base, row);
    let kept_part = kept_keys(entries, deltas, side, row);
    lemma_kept(entries, deltas, side, row);
    lemma_merged_members(kept_part, added);
    let joined = merged_keys(kept_part, added);
    assert(sorted(added)) by {
        assert forall|i: int, j: int| 0 <= i < j < added.len() implies #[trigger] added[i]
            <= #[trigger] added[j] by {}
    }
    lemma_without_repeats(None, joined);
    let all = without_repeats(None, joined);
    let pairs = pairs_of(all);
    assert forall|i: int| 0 <= i < all.len() implies (#[trigger] all[i])
        < 0x1_0000_0000_0000_0000 by {
        assert(all.contains(all[i]));
        assert(joined.contains(all[i]));
        if kept_part.contains(all[i]) {
            let j = choose|j: int| 0 <= j < kept_part.len() && kept_part[j] == all[i];
        } else {
            let j = choose|j: int| 0 <= j < added.len() && added[j] == all[i];
        }
    }
    assert(ascending_pairs(pairs)) by {
        assert forall|i: int, j: int| 0 <= i < j < pairs.len() implies pair_less(
            #[trigger] pairs[i],
            #[trigger] pairs[j],
        ) by {
            assert(all[i] < all[j]);
            lemma_pair_key(pairs[i]);
            lemma_pair_key(pairs[j]);
            law_pair_key_order(pairs[i], pairs[j]);
        }
    }
    assert forall|entry: (u32, u32)| #[trigger] pairs.contains(entry) <==> merged.contains(entry) by {
        let key = pair_key(entry);
        lemma_pair_key(entry);
        assert(pairs.contains(entry) <==> all.contains(key)) by {
            if pairs.contains(entry) {
                let i = choose|i: int| 0 <= i < pairs.len() && pairs[i] == entry;
                lemma_pair_key(pair_of(all[i]));
                assert(all[i] == key);
            }
            if all.contains(key) {
                let i = choose|i: int| 0 <= i < all.len() && all[i] == key;
                assert(pairs[i] == entry);
            }
        }
        assert(all.contains(key) <==> joined.contains(key));
        assert(merged.contains(entry) <==> merged_holds(base, deltas, side, row, entry));
    }
    lemma_ascending_unique(pairs, merged);
    let count = crate::arith::spec_min(limit, all.len() as int);
    assert(bounded =~= merged.subrange(0, count));
}

/// An inserted entry is in the merged row of both of its ends until it is deleted, and a deleted
/// entry is in neither, whatever happened before.
pub proof fn law_last_change_wins(
    base: Csr,
    deltas: Seq<AdjacencyDelta>,
    delta: AdjacencyDelta,
    side: Side,
)
    ensures
        merged_holds(
            base,
            deltas.push(delta),
            side,
            delta.spec_row(side),
            delta.spec_entry(side),
        ) == (delta is Insert),
        forall|row: u32, entry: (u32, u32)|
            (row, entry) != (delta.spec_row(side), delta.spec_entry(side)) ==> #[trigger] merged_holds(
                base,
                deltas.push(delta),
                side,
                row,
                entry,
            ) == merged_holds(base, deltas, side, row, entry),
{
    assert(deltas.push(delta).drop_last() =~= deltas);
}

/// Deleting an entry that a row does not hold changes no row.
pub proof fn law_absent_delete_changes_nothing(
    base: Csr,
    deltas: Seq<AdjacencyDelta>,
    source: u32,
    target: u32,
    edge: u32,
    side: Side,
)
    requires
        ({
            let delta = AdjacencyDelta::Delete { source, target, edge };
            !merged_holds(base, deltas, side, delta.spec_row(side), delta.spec_entry(side))
        }),
    ensures
        forall|row: u32, entry: (u32, u32)| #[trigger]
            merged_holds(
                base,
                deltas.push((AdjacencyDelta::Delete { source, target, edge })),
                side,
                row,
                entry,
            ) == merged_holds(base, deltas, side, row, entry),
{
    let delta = AdjacencyDelta::Delete { source, target, edge };
    law_last_change_wins(base, deltas, delta, side);
    assert forall|row: u32, entry: (u32, u32)| #[trigger]
        merged_holds(base, deltas.push(delta), side, row, entry) == merged_holds(
            base,
            deltas,
            side,
            row,
            entry,
        ) by {
        if (row, entry) == (delta.spec_row(side), delta.spec_entry(side)) {
        }
    }
}

/// Inserting an entry that a row does not hold and deleting it again restores every row.
pub proof fn law_insert_then_delete_restores(
    base: Csr,
    deltas: Seq<AdjacencyDelta>,
    source: u32,
    target: u32,
    edge: u32,
    side: Side,
)
    requires
        ({
            let delta = AdjacencyDelta::Insert { source, target, edge };
            !merged_holds(base, deltas, side, delta.spec_row(side), delta.spec_entry(side))
        }),
    ensures
        forall|row: u32, entry: (u32, u32)| #[trigger]
            merged_holds(
                base,
                deltas.push((AdjacencyDelta::Insert { source, target, edge })).push(
                    (AdjacencyDelta::Delete { source, target, edge }),
                ),
                side,
                row,
                entry,
            ) == merged_holds(base, deltas, side, row, entry),
{
    let insert = AdjacencyDelta::Insert { source, target, edge };
    let delete = AdjacencyDelta::Delete { source, target, edge };
    let middle = deltas.push(insert);
    law_last_change_wins(base, deltas, insert, side);
    law_last_change_wins(base, middle, delete, side);
    assert forall|row: u32, entry: (u32, u32)| #[trigger]
        merged_holds(base, middle.push(delete), side, row, entry) == merged_holds(
            base,
            deltas,
            side,
            row,
            entry,
        ) by {
        if (row, entry) != (delete.spec_row(side), delete.spec_entry(side)) {
            assert(merged_holds(base, middle, side, row, entry) == merged_holds(
                base,
                deltas,
                side,
                row,
                entry,
            ));
        }
    }
}

impl Adjacency {
    fn expand_bounded(&self, side: Side, row: u32, limit: usize, output: &mut Vec<(u32, u32)>)
        requires
            self.wf(),
        ensures
            is_bounded_row(
                self.spec_base(side),
                self.spec_deltas(),
                side,
                row,
                limit as int,
                final(output)@,
            ),
    {
        let ghost deltas = self.spec_deltas();
        let base = self.base_entries(side, row);
        let map = match self.row_pending(side, row) {
            Some(map) => map,
            None => {
                let map: PersistentMap<bool> = PersistentMap::default();
                map
            },
        };
        let left = kept(&base, &map, Ghost(deltas), side, Ghost(row));
        let right = inserted(&map, Ghost(deltas), Ghost(side), Ghost(row));
        let keys = merge_bounded_row(&left, &right, limit);
        proof {
            lemma_kept(base@, deltas, side, row);
            lemma_merged_members(left@, right@);
            lemma_repeats_members(None, merged_keys(left@, right@));
        }
        let ghost all = without_repeats(None, merged_keys(left@, right@));
        let mut pairs: Vec<(u32, u32)> = Vec::with_capacity(keys.len());
        for index in 0..keys.len()
            invariant
                pairs@ == pairs_of(keys@.subrange(0, index as int)),
                forall|i: int|
                    0 <= i < keys@.len() ==> all.contains(#[trigger] keys@[i]),
                forall|i: int|
                    0 <= i < left@.len() ==> (#[trigger] left@[i]) < 0x1_0000_0000_0000_0000,
                forall|i: int|
                    0 <= i < right@.len() ==> (#[trigger] right@[i]) < 0x1_0000_0000_0000_0000,
                forall|key: u128| #[trigger]
                    all.contains(key) ==> merged_keys(left@, right@).contains(key),
                forall|key: u128| #[trigger]
                    merged_keys(left@, right@).contains(key) <==> left@.contains(key)
                        || right@.contains(key),
        {
            proof {
                let key = keys@[index as int];
                assert(all.contains(key));
                assert(merged_keys(left@, right@).contains(key));
                if left@.contains(key) {
                    let i = choose|i: int| 0 <= i < left@.len() && left@[i] == key;
                } else {
                    let i = choose|i: int| 0 <= i < right@.len() && right@[i] == key;
                }
            }
            pairs.push(decode_pair(keys[index]));
            assert(pairs@ =~= pairs_of(keys@.subrange(0, index + 1)));
        }
        assert(keys@.subrange(0, keys@.len() as int) =~= keys@);
        assert(inserted_keys(deltas, side, row, right@));
        *output = pairs;
    }

    /// Returns at most `limit` entries from one deterministically merged outgoing row.
    pub fn expand_out_bounded(&self, source: u32, limit: usize, output: &mut Vec<(u32, u32)>)
        requires
            self.wf(),
        ensures
            is_bounded_row(
                self.spec_outgoing(),
                self.spec_deltas(),
                Side::Outgoing,
                source,
                limit as int,
                final(output)@,
            ),
    {
        self.expand_bounded(Side::Outgoing, source, limit, output);
    }

    /// Returns at most `limit` entries from one deterministically merged incoming row.
    pub fn expand_in_bounded(&self, target: u32, limit: usize, output: &mut Vec<(u32, u32)>)
        requires
            self.wf(),
        ensures
            is_bounded_row(
                self.spec_incoming(),
                self.spec_deltas(),
                Side::Incoming,
                target,
                limit as int,
                final(output)@,
            ),
    {
        self.expand_bounded(Side::Incoming, target, limit, output);
    }
}

proof fn lemma_repeats_members(previous: Option<u128>, keys: Seq<u128>)
    ensures
        forall|key: u128| #[trigger]
            without_repeats(previous, keys).contains(key) ==> keys.contains(key),
    decreases keys.len(),
{
    if keys.len() > 0 {
        let rest = keys.skip(1);
        let all = without_repeats(previous, keys);
        lemma_repeats_members(previous, rest);
        lemma_repeats_members(Some(keys[0]), rest);
        assert forall|key: u128| #[trigger] all.contains(key) implies keys.contains(key) by {
            lemma_head_contains(keys, key);
            if previous != Some(keys[0]) {
                let tail = without_repeats(Some(keys[0]), rest);
                assert(all == seq![keys[0]] + tail);
                lemma_head_contains(all, key);
                assert(all.skip(1) =~= tail);
                assert(tail.contains(key) ==> rest.contains(key));
            } else {
                assert(without_repeats(previous, rest).contains(key) ==> rest.contains(key));
            }
        }
    }
}

/// An edge that is inserted is found from its source on the way out and from its target on the way in,
/// with the node at its other end, and one that is deleted from neither. Nothing else changes.
pub proof fn law_changes_show_at_both_ends(
    base: Csr,
    deltas: Seq<AdjacencyDelta>,
    source: u32,
    target: u32,
    edge: u32,
    row: u32,
    entry: (u32, u32),
)
    ensures
        ({
            let inserted = deltas.push((AdjacencyDelta::Insert { source, target, edge }));
            let deleted = deltas.push((AdjacencyDelta::Delete { source, target, edge }));
            &&& merged_holds(base, inserted, Side::Outgoing, source, (target, edge))
            &&& merged_holds(base, inserted, Side::Incoming, target, (source, edge))
            &&& !merged_holds(base, deleted, Side::Outgoing, source, (target, edge))
            &&& !merged_holds(base, deleted, Side::Incoming, target, (source, edge))
            &&& row != source || entry != (target, edge) ==> merged_holds(
                base,
                inserted,
                Side::Outgoing,
                row,
                entry,
            ) == merged_holds(base, deltas, Side::Outgoing, row, entry) && merged_holds(
                base,
                deleted,
                Side::Outgoing,
                row,
                entry,
            ) == merged_holds(base, deltas, Side::Outgoing, row, entry)
            &&& row != target || entry != (source, edge) ==> merged_holds(
                base,
                inserted,
                Side::Incoming,
                row,
                entry,
            ) == merged_holds(base, deltas, Side::Incoming, row, entry) && merged_holds(
                base,
                deleted,
                Side::Incoming,
                row,
                entry,
            ) == merged_holds(base, deltas, Side::Incoming, row, entry)
        }),
{
    let insert = AdjacencyDelta::Insert { source, target, edge };
    let delete = AdjacencyDelta::Delete { source, target, edge };
    law_last_change_wins(base, deltas, insert, Side::Outgoing);
    law_last_change_wins(base, deltas, insert, Side::Incoming);
    law_last_change_wins(base, deltas, delete, Side::Outgoing);
    law_last_change_wins(base, deltas, delete, Side::Incoming);
}

/// Without changes a row is that of the base. With changes to it, it holds what it holds once, by rising
/// neighbor and then by rising edge.
pub proof fn law_merged_rows_are_in_order(
    base: Csr,
    deltas: Seq<AdjacencyDelta>,
    side: Side,
    row: u32,
    output: Seq<(u32, u32)>,
)
    requires
        is_merged_row(base, deltas, side, row, output),
    ensures
        deltas.len() == 0 && base.spec_row(row as int) is Some ==> Some(output) == base.spec_row(
            row as int,
        ),
        (exists|i: int| 0 <= i < deltas.len() && (#[trigger] deltas[i]).spec_row(side) == row)
            ==> forall|i: int, j: int|
            #![trigger output[i], output[j]]
            0 <= i < j < output.len() ==> output[i].0 < output[j].0 || output[i].0 == output[j].0
                && output[i].1 < output[j].1,
{
}

} // verus!
