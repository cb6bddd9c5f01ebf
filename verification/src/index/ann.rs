//! Immutable IVF-PQ pages: filtering, device layout and the recall gate.

use crate::arith::{saturated, saturating_product, saturated64, saturating_product64, spec_min};
use crate::columns::packed::{flat, row_offsets};
use crate::digest::{blake3_digest, digest};
use crate::error::{fails_with, Error, ErrorCode, Result};
use crate::index::plan::{subspace_bounds, IvfPqConfig, IVF_PQ_MIN_RECALL_BASIS_POINTS};
use crate::index::vectors::Similarity;
use crate::persistent::radix::PersistentMap;
use crate::shared::detach;
use vstd::prelude::*;

verus! {

/// Immutable IVF-PQ accelerator. Canonical vectors remain in the vector index for reranking. Floats
/// are held as the bits of IEEE 754 singles.
pub struct IvfPqIndex {
    pub config: IvfPqConfig,
    pub dimension: usize,
    pub similarity: Similarity,
    pub coarse: Vec<Vec<u32>>,
    pub codebooks: Vec<Vec<Vec<u32>>>,
    pub rows: Vec<u32>,
    pub codes: Vec<u8>,
    pub list_offsets: Vec<u32>,
    pub list_positions: Vec<u32>,
    pub built_versions: Vec<u64>,
    pub recall_basis_points: u16,
    pub validation_queries: u16,
    pub build_generation: [u8; 32],
}

/// Flattened immutable IVF-PQ pages.
pub struct AnnDeviceImage {
    pub config: IvfPqConfig,
    pub dimension: usize,
    pub similarity: Similarity,
    pub coarse_values: Vec<u32>,
    pub coarse_count: usize,
    pub codebook_subspace_offsets: Vec<u32>,
    pub codebook_vector_offsets: Vec<u32>,
    pub codebook_values: Vec<u32>,
    pub rows: Vec<u32>,
    pub codes: Vec<u8>,
    pub list_offsets: Vec<u32>,
    pub list_positions: Vec<u32>,
    pub built_versions: Vec<u64>,
    pub recall_basis_points: u16,
    pub validation_queries: u16,
    pub build_generation: [u8; 32],
}

fn corrupt<T>(message: &str) -> (result: Result<T>)
    ensures
        fails_with(result, ErrorCode::CorruptStorage, message@),
{
    Err(Error::new(ErrorCode::CorruptStorage, message))
}

fn exhausted<T>(message: &str) -> (result: Result<T>)
    ensures
        fails_with(result, ErrorCode::ResultBudgetExceeded, message@),
{
    Err(Error::new(ErrorCode::ResultBudgetExceeded, message))
}

/// The positions whose row is kept, in order.
pub open spec fn kept_positions(rows: Seq<u32>, remap: Map<u128, u32>, count: int) -> Seq<int>
    decreases count,
{
    if count <= 0 {
        Seq::empty()
    } else if remap.dom().contains(rows[count - 1] as u128) {
        kept_positions(rows, remap, count - 1).push(count - 1)
    } else {
        kept_positions(rows, remap, count - 1)
    }
}

/// The codes of kept positions, one after the other.
pub open spec fn kept_codes(codes: Seq<u8>, kept: Seq<int>, width: int) -> Seq<u8>
    decreases kept.len(),
{
    if kept.len() == 0 {
        Seq::empty()
    } else {
        kept_codes(codes, kept.drop_last(), width) + codes.subrange(
            kept.last() * width,
            kept.last() * width + width,
        )
    }
}

/// Where a kept position went.
pub open spec fn new_position(kept: Seq<int>, old: int, new: int) -> bool {
    0 <= new < kept.len() && kept[new] == old
}

proof fn lemma_kept_inside(rows: Seq<u32>, remap: Map<u128, u32>, count: int)
    requires
        0 <= count <= rows.len(),
    ensures
        kept_positions(rows, remap, count).len() <= count,
        forall|i: int|
            0 <= i < kept_positions(rows, remap, count).len() ==> 0 <= (#[trigger] kept_positions(
                rows,
                remap,
                count,
            )[i]) < count && remap.dom().contains(
                rows[kept_positions(rows, remap, count)[i]] as u128,
            ),
        forall|i: int, j: int|
            0 <= i < j < kept_positions(rows, remap, count).len() ==> (#[trigger] kept_positions(
                rows,
                remap,
                count,
            )[i]) < (#[trigger] kept_positions(rows, remap, count)[j]),
        forall|position: int|
            0 <= position < count && remap.dom().contains(rows[position] as u128)
                ==> #[trigger] kept_positions(rows, remap, count).contains(position),
    decreases count,
{
    if count > 0 {
        lemma_kept_inside(rows, remap, count - 1);
        let before = kept_positions(rows, remap, count - 1);
        let now = kept_positions(rows, remap, count);
        assert forall|position: int|
            0 <= position < count && remap.dom().contains(
                rows[position] as u128,
            ) implies #[trigger] now.contains(position) by {
            if position < count - 1 {
                assert(before.contains(position));
                let i = choose|i: int| 0 <= i < before.len() && before[i] == position;
                assert(now[i] == position);
            } else {
                assert(now[before.len() as int] == position);
            }
        }
    }
}

/// Positions of a list that are kept, where they went.
pub open spec fn kept_list(positions: Seq<u32>, kept: Seq<int>) -> Seq<u32>
    decreases positions.len(),
{
    if positions.len() == 0 {
        Seq::empty()
    } else if kept.contains(positions.last() as int) {
        kept_list(positions.drop_last(), kept).push(kept.index_of(positions.last() as int) as u32)
    } else {
        kept_list(positions.drop_last(), kept)
    }
}

impl IvfPqIndex {
    /// The positions of one list. A list without bounds has none.
    pub open spec fn list(&self, list: int) -> Seq<u32> {
        if list + 1 < self.list_offsets@.len() {
            self.list_positions@.subrange(
                self.list_offsets@[list] as int,
                self.list_offsets@[list + 1] as int,
            )
        } else {
            Seq::empty()
        }
    }

    /// The bounds of one list, where it has any, lie inside the list positions.
    pub open spec fn list_ok(&self, list: int) -> bool {
        list + 1 < self.list_offsets@.len() ==> self.list_offsets@[list] <= self.list_offsets@[list
            + 1] <= self.list_positions@.len()
    }

    /// The bounds of every list, where it has any, lie inside the list positions.
    pub open spec fn lists_ok(&self) -> bool {
        forall|list: int| 0 <= list < self.coarse@.len() ==> #[trigger] self.list_ok(list)
    }

    /// Whether the bounds of every list, where it has any, lie inside the list positions.
    pub fn check_list_bounds(&self) -> (sound: bool)
        ensures
            sound == self.lists_ok(),
    {
        let offsets: usize = self.list_offsets.len();
        let positions: usize = self.list_positions.len();
        for list in 0..self.coarse.len()
            invariant
                offsets == self.list_offsets@.len(),
                positions == self.list_positions@.len(),
                forall|i: int| 0 <= i < list ==> #[trigger] self.list_ok(i),
        {
            if list < offsets && offsets - list > 1 {
                let start: u32 = self.list_offsets[list];
                let end: u32 = self.list_offsets[list + 1];
                if start > end || end as usize > positions {
                    assert(!self.list_ok(list as int));
                    return false;
                }
            }
            assert(self.list_ok(list as int));
        }
        true
    }

    /// Why a kept position cannot be moved behind `kept` others.
    pub open spec fn position_fault(&self, position: int, kept: int) -> Option<(
        ErrorCode,
        Seq<char>,
    )> {
        let width = self.config.subquantizers as int;
        if kept > u32::MAX {
            Some(
                (
                    ErrorCode::ResultBudgetExceeded,
                    "filtered ANN position exceeds device index width"@,
                ),
            )
        } else if position > u32::MAX {
            Some((ErrorCode::CorruptStorage, "ANN position exceeds its device index width"@))
        } else if position * width + width > usize::MAX {
            Some((ErrorCode::CorruptStorage, "ANN code offset overflow"@))
        } else if position * width + width > self.codes@.len() {
            Some((ErrorCode::CorruptStorage, "ANN code row is truncated"@))
        } else if position >= self.built_versions@.len() {
            Some((ErrorCode::CorruptStorage, "ANN row has no built revision"@))
        } else {
            None
        }
    }

    /// Why the first kept position, from `position` on, that cannot be moved cannot be.
    pub open spec fn first_position_fault(&self, remap: Map<u128, u32>, position: int) -> Option<(
        ErrorCode,
        Seq<char>,
    )>
        decreases self.rows@.len() - position,
    {
        if position >= self.rows@.len() {
            None
        } else {
            let fault = self.position_fault(
                position,
                kept_positions(self.rows@, remap, position).len() as int,
            );
            if remap.dom().contains(self.rows@[position] as u128) && fault is Some {
                fault
            } else {
                self.first_position_fault(remap, position + 1)
            }
        }
    }

    /// Why the positions of a list cannot be moved.
    pub open spec fn list_fault(&self, kept: Seq<int>, list: int) -> Option<(
        ErrorCode,
        Seq<char>,
    )> {
        if list + 1 >= self.list_offsets@.len() {
            Some((ErrorCode::CorruptStorage, "ANN list offsets are truncated"@))
        } else if !self.list_ok(list) {
            Some((ErrorCode::CorruptStorage, "ANN list posting is truncated"@))
        } else if kept_lists(*self, kept, list + 1).len() > u32::MAX {
            Some(
                (
                    ErrorCode::ResultBudgetExceeded,
                    "filtered ANN postings exceed device index width"@,
                ),
            )
        } else {
            None
        }
    }

    /// Why the first list, from `list` on, whose positions cannot be moved has to stay.
    pub open spec fn first_list_fault(&self, kept: Seq<int>, list: int) -> Option<(
        ErrorCode,
        Seq<char>,
    )>
        decreases self.coarse@.len() - list,
    {
        if list >= self.coarse@.len() {
            None
        } else if self.list_fault(kept, list) is Some {
            self.list_fault(kept, list)
        } else {
            self.first_list_fault(kept, list + 1)
        }
    }

    /// Why the pages cannot follow a filter.
    pub open spec fn remap_fault(&self, remap: Map<u128, u32>) -> Option<(ErrorCode, Seq<char>)> {
        let kept = kept_positions(self.rows@, remap, self.rows@.len() as int);
        if self.first_position_fault(remap, 0) is Some {
            self.first_position_fault(remap, 0)
        } else if kept.len() == 0 {
            None
        } else {
            self.first_list_fault(kept, 0)
        }
    }

    pub fn config(&self) -> (config: IvfPqConfig)
        ensures
            config == self.config,
    {
        self.config
    }

    pub fn recall_basis_points(&self) -> (recall: u16)
        ensures
            recall == self.recall_basis_points,
    {
        self.recall_basis_points
    }

    pub fn validation_queries(&self) -> (queries: u16)
        ensures
            queries == self.validation_queries,
    {
        self.validation_queries
    }

    pub fn build_generation(&self) -> (generation: [u8; 32])
        ensures
            generation == self.build_generation,
    {
        self.build_generation
    }

    /// Takes the digest of the encoded pages as their generation.
    pub fn set_generation(&mut self, encoded: &[u8])
        ensures
            final(self).build_generation@ == blake3_digest(encoded@),
            *final(self) == (IvfPqIndex {
                build_generation: final(self).build_generation,
                ..*old(self)
            }),
    {
        self.build_generation = digest(encoded);
    }

    /// The pages of the kept rows under their new row ordinals, in the lists they were in. Filtering
    /// changes the population that recall was measured on, so the result counts as not validated. Its
    /// generation is zero until it is set. Nothing where no row is kept.
    #[verifier::rlimit(60)]
    #[verifier::spinoff_prover]
    pub fn remap_rows(&self, remap: &PersistentMap<u32>) -> (result: Result<Option<Self>>)
        requires
            remap.wf(),
        ensures
            match self.remap_fault(remap@) {
                Some(fault) => fails_with(result, fault.0, fault.1),
                None => match result {
                    Ok(Some(pages)) => remapped(*self, remap@, pages) && pages.rows@.len() > 0,
                    Ok(None) => kept_positions(
                        self.rows@,
                        remap@,
                        self.rows@.len() as int,
                    ).len() == 0,
                    Err(_) => false,
                },
            },
    {
        let width: usize = self.config.subquantizers;
        let mut rows: Vec<u32> = Vec::new();
        let mut codes: Vec<u8> = Vec::new();
        let mut versions: Vec<u64> = Vec::new();
        let total: usize = self.rows.len();
        let code_total: usize = self.codes.len();
        let version_total: usize = self.built_versions.len();
        let mut moved: Vec<Option<u32>> = Vec::with_capacity(total);
        let ghost all = kept_positions(self.rows@, remap@, total as int);
        for position in 0..total
            invariant
                self.first_position_fault(remap@, 0) == self.first_position_fault(
                    remap@,
                    position as int,
                ),
                remap.wf(),
                width == self.config.subquantizers,
                total == self.rows@.len(),
                code_total == self.codes@.len(),
                version_total == self.built_versions@.len(),
                all == kept_positions(self.rows@, remap@, total as int),
                rows@.len() == kept_positions(self.rows@, remap@, position as int).len(),
                versions@.len() == rows@.len(),
                moved@.len() == position,
                codes@ == kept_codes(
                    self.codes@,
                    kept_positions(self.rows@, remap@, position as int),
                    width as int,
                ),
                rows@.len() <= position,
                forall|i: int|
                    0 <= i < rows@.len() ==> #[trigger] rows@[i] == remap@[self.rows@[kept_positions(
                        self.rows@,
                        remap@,
                        position as int,
                    )[i]] as u128],
                forall|i: int|
                    0 <= i < versions@.len() ==> #[trigger] versions@[i]
                        == self.built_versions@[kept_positions(self.rows@, remap@, position as int)[i]],
                forall|p: int|
                    0 <= p < position ==> match #[trigger] moved@[p] {
                        Some(new) => new_position(
                            kept_positions(self.rows@, remap@, position as int),
                            p,
                            new as int,
                        ),
                        None => !remap@.dom().contains(self.rows@[p] as u128),
                    },
        {
            let ghost before = kept_positions(self.rows@, remap@, position as int);
            let ghost now = kept_positions(self.rows@, remap@, position + 1);
            proof {
                lemma_kept_inside(self.rows@, remap@, position as int);
            }
            match remap.get(self.rows[position] as u128) {
                Some(row) => {
                    let next: usize = rows.len();
                    proof {
                        lemma_code_range(total as int, width as int, position as int);
                        assert(now.drop_last() =~= before);
                    }
                    if next as u64 > u32::MAX as u64 {
                        return exhausted("filtered ANN position exceeds device index width");
                    }
                    if position as u64 > u32::MAX as u64 {
                        return corrupt("ANN position exceeds its device index width");
                    }
                    let start: usize = match position.checked_mul(width) {
                        Some(start) => start,
                        None => {
                            return corrupt("ANN code offset overflow");
                        },
                    };
                    let end: usize = match start.checked_add(width) {
                        Some(end) => end,
                        None => {
                            return corrupt("ANN code offset overflow");
                        },
                    };
                    if end > code_total {
                        return corrupt("ANN code row is truncated");
                    }
                    if position >= version_total {
                        return corrupt("ANN row has no built revision");
                    }
                    let mut code: Vec<u8> = detach(&self.codes[start..end]);
                    codes.append(&mut code);
                    rows.push(*row);
                    versions.push(self.built_versions[position]);
                    moved.push(Some(next as u32));
                    proof {
                        assert(codes@ =~= kept_codes(self.codes@, now, width as int));
                        assert forall|p: int| 0 <= p < position + 1 implies match #[trigger] moved@[p] {
                            Some(new) => new_position(now, p, new as int),
                            None => !remap@.dom().contains(self.rows@[p] as u128),
                        } by {
                            if p < position {
                                if let Some(new) = moved@[p] {
                                    assert(new_position(before, p, new as int));
                                    assert(now[new as int] == before[new as int]);
                                }
                            } else {
                                assert(now[next as int] == position);
                            }
                        }
                    }
                },
                None => {
                    moved.push(None);
                },
            }
        }
        if rows.len() == 0 {
            return Ok(None);
        }
        proof {
            lemma_kept_inside(self.rows@, remap@, total as int);
        }
        let mut list_offsets: Vec<u32> = Vec::new();
        let mut list_positions: Vec<u32> = Vec::new();
        list_offsets.push(0);
        let lists: usize = self.coarse.len();
        let offset_total: usize = self.list_offsets.len();
        let position_total: usize = self.list_positions.len();
        for list in 0..lists
            invariant
                self.first_position_fault(remap@, 0) is None,
                all.len() > 0,
                self.first_list_fault(all, 0) == self.first_list_fault(all, list as int),
                offset_total == self.list_offsets@.len(),
                position_total == self.list_positions@.len(),
                total == self.rows@.len(),
                lists == self.coarse@.len(),
                all == kept_positions(self.rows@, remap@, total as int),
                all.len() <= total,
                positions_moved(self.rows@, remap@, all, moved@),
                list_offsets@.len() == list + 1,
                list_offsets@[0] == 0,
                list_positions@ == kept_lists(*self, all, list as int),
                list_positions@.len() <= u32::MAX,
                forall|i: int|
                    0 <= i <= list ==> #[trigger] list_offsets@[i] == kept_lists(
                        *self,
                        all,
                        i,
                    ).len(),
        {
            if list >= offset_total || offset_total - list <= 1 {
                return corrupt("ANN list offsets are truncated");
            }
            let start: usize = self.list_offsets[list] as usize;
            let end: usize = self.list_offsets[list + 1] as usize;
            if start > end || end > position_total {
                return corrupt("ANN list posting is truncated");
            }
            let ghost before = list_positions@;
            let ghost listed = self.list(list as int);
            assert(listed.take(0) =~= Seq::empty());
            assert(before + kept_list(listed.take(0), all) =~= before);
            for place in start..end
                invariant
                    list + 1 < self.list_offsets@.len(),
                    total == self.rows@.len(),
                    all == kept_positions(self.rows@, remap@, total as int),
                    positions_moved(self.rows@, remap@, all, moved@),
                    start == self.list_offsets@[list as int],
                    end == self.list_offsets@[list + 1],
                    start <= end <= self.list_positions@.len(),
                    list < self.coarse@.len(),
                    listed == self.list(list as int),
                    list_positions@ == before + kept_list(listed.take(place - start), all),
            {
                let position: u32 = self.list_positions[place];
                let ghost seen = listed.take(place - start);
                let ghost more = listed.take(place - start + 1);
                assert(more.drop_last() =~= seen);
                assert(more.last() == position);
                let slot: Option<u32> = if (position as usize) < total {
                    moved[position as usize]
                } else {
                    None
                };
                proof {
                    lemma_moved(self.rows@, remap@, all, moved@, position as int, slot);
                }
                if let Some(new) = slot {
                    list_positions.push(new);
                }
                assert(list_positions@ =~= before + kept_list(more, all));
            }
            assert(listed.take(listed.len() as int) =~= listed);
            if list_positions.len() as u64 > u32::MAX as u64 {
                return exhausted("filtered ANN postings exceed device index width");
            }
            list_offsets.push(list_positions.len() as u32);
        }
        let pages = IvfPqIndex {
            config: self.config,
            dimension: self.dimension,
            similarity: self.similarity,
            coarse: copy_matrix(&self.coarse),
            codebooks: copy_books(&self.codebooks),
            rows,
            codes,
            list_offsets,
            list_positions,
            built_versions: versions,
            recall_basis_points: 0,
            validation_queries: 0,
            build_generation: [0u8; 32],
        };
        proof {
            assert(pages.rows@ =~= Seq::new(
                all.len(),
                |i: int| remap@[self.rows@[all[i]] as u128],
            ));
            assert(pages.built_versions@ =~= Seq::new(
                all.len(),
                |i: int| self.built_versions@[all[i]],
            ));
            assert(pages.list_offsets@ =~= Seq::new(
                self.coarse@.len() + 1,
                |i: int| kept_lists(*self, all, i).len() as u32,
            ));
            assert(pages.build_generation@ =~= Seq::new(32, |i: int| 0u8));
        }
        Ok(Some(pages))
    }
}

/// The kept positions of the first lists, one list after the other.
pub open spec fn kept_lists(pages: IvfPqIndex, kept: Seq<int>, count: int) -> Seq<u32>
    decreases count,
{
    if count <= 0 {
        Seq::empty()
    } else {
        kept_lists(pages, kept, count - 1) + kept_list(pages.list(count - 1), kept)
    }
}

/// The matrices hold the same rows.
pub open spec fn same_matrix(left: Seq<Vec<u32>>, right: Seq<Vec<u32>>) -> bool {
    left.len() == right.len() && forall|i: int|
        0 <= i < left.len() ==> (#[trigger] left[i])@ == right[i]@
}

/// The pages of the kept rows.
pub open spec fn remapped(before: IvfPqIndex, remap: Map<u128, u32>, after: IvfPqIndex) -> bool {
    let kept = kept_positions(before.rows@, remap, before.rows@.len() as int);
    &&& after.config == before.config
    &&& after.dimension == before.dimension
    &&& after.similarity == before.similarity
    &&& same_matrix(after.coarse@, before.coarse@)
    &&& after.codebooks@.len() == before.codebooks@.len()
    &&& forall|book: int|
        0 <= book < before.codebooks@.len() ==> same_matrix(
            (#[trigger] after.codebooks@[book])@,
            before.codebooks@[book]@,
        )
    &&& after.rows@ == Seq::new(kept.len(), |i: int| remap[before.rows@[kept[i]] as u128])
    &&& after.codes@ == kept_codes(before.codes@, kept, before.config.subquantizers as int)
    &&& after.built_versions@ == Seq::new(kept.len(), |i: int| before.built_versions@[kept[i]])
    &&& after.list_offsets@ == Seq::new(
        before.coarse@.len() + 1,
        |i: int| kept_lists(before, kept, i).len() as u32,
    )
    &&& after.list_positions@ == kept_lists(before, kept, before.coarse@.len() as int)
    &&& after.recall_basis_points == 0
    &&& after.validation_queries == 0
    &&& after.build_generation@ == Seq::new(32, |i: int| 0u8)
}

proof fn lemma_code_range(rows: int, width: int, position: int)
    requires
        0 <= position < rows,
        0 <= width,
    ensures
        0 <= position * width,
        position * width + width <= rows * width,
{
    assert(position * width + width == (position + 1) * width) by (nonlinear_arith);
    assert((position + 1) * width <= rows * width) by (nonlinear_arith)
        requires
            position + 1 <= rows,
            0 <= width,
    ;
    assert(0 <= position * width) by (nonlinear_arith)
        requires
            0 <= position,
            0 <= width,
    ;
}

/// Where every position went.
spec fn positions_moved(
    rows: Seq<u32>,
    remap: Map<u128, u32>,
    kept: Seq<int>,
    moved: Seq<Option<u32>>,
) -> bool {
    &&& moved.len() == rows.len()
    &&& forall|p: int|
        0 <= p < rows.len() ==> match #[trigger] moved[p] {
            Some(new) => new_position(kept, p, new as int),
            None => !remap.dom().contains(rows[p] as u128),
        }
}

proof fn lemma_moved(
    rows: Seq<u32>,
    remap: Map<u128, u32>,
    kept: Seq<int>,
    moved: Seq<Option<u32>>,
    position: int,
    slot: Option<u32>,
)
    requires
        kept == kept_positions(rows, remap, rows.len() as int),
        positions_moved(rows, remap, kept, moved),
        0 <= position,
        slot == if position < rows.len() {
            moved[position]
        } else {
            None
        },
    ensures
        match slot {
            Some(new) => kept.contains(position) && kept.index_of(position) == new,
            None => !kept.contains(position),
        },
{
    lemma_kept_inside(rows, remap, rows.len() as int);
    match slot {
        Some(new) => {
            assert(kept[new as int] == position);
            let found = kept.index_of(position);
            assert(kept.contains(position));
            assert(0 <= found < kept.len() && kept[found] == position);
            if found < new {
                assert(kept[found] < kept[new as int]);
            } else if new < found {
                assert(kept[new as int] < kept[found]);
            }
        },
        None => {
            if kept.contains(position) {
                let i = choose|i: int| 0 <= i < kept.len() && kept[i] == position;
                assert(remap.dom().contains(rows[kept[i]] as u128));
            }
        },
    }
}

fn copy_matrix(matrix: &Vec<Vec<u32>>) -> (copy: Vec<Vec<u32>>)
    ensures
        same_matrix(copy@, matrix@),
{
    let mut copy: Vec<Vec<u32>> = Vec::with_capacity(matrix.len());
    for index in 0..matrix.len()
        invariant
            copy.len() == index,
            forall|i: int| 0 <= i < index ==> (#[trigger] copy@[i])@ == matrix@[i]@,
    {
        copy.push(detach(matrix[index].as_slice()));
    }
    copy
}

fn copy_books(books: &Vec<Vec<Vec<u32>>>) -> (copy: Vec<Vec<Vec<u32>>>)
    ensures
        copy@.len() == books@.len(),
        forall|i: int|
            0 <= i < books@.len() ==> same_matrix((#[trigger] copy@[i])@, books@[i]@),
{
    let mut copy: Vec<Vec<Vec<u32>>> = Vec::with_capacity(books.len());
    for index in 0..books.len()
        invariant
            copy.len() == index,
            forall|i: int| 0 <= i < index ==> same_matrix((#[trigger] copy@[i])@, books@[i]@),
    {
        copy.push(copy_matrix(&books[index]));
    }
    copy
}

/// The rows of a matrix.
pub open spec fn matrix_rows(matrix: Seq<Vec<u32>>) -> Seq<Seq<u32>> {
    Seq::new(matrix.len(), |i: int| matrix[i]@)
}

/// The rows of the first matrices, one matrix after the other.
pub open spec fn book_rows(books: Seq<Vec<Vec<u32>>>, count: int) -> Seq<Seq<u32>>
    decreases count,
{
    if count <= 0 {
        Seq::empty()
    } else {
        book_rows(books, count - 1) + matrix_rows(books[count - 1]@)
    }
}

/// Every row has this many numbers.
pub open spec fn rows_have(matrix: Seq<Vec<u32>>, width: int) -> bool {
    forall|i: int| 0 <= i < matrix.len() ==> (#[trigger] matrix[i])@.len() == width
}

/// The width of one subspace.
pub open spec fn subspace_width(dimension: int, parts: int, subspace: int) -> int {
    let start = saturated(dimension * subspace) / parts;
    let end = saturated(dimension * saturated(subspace + 1)) / parts;
    if end >= start {
        end - start
    } else {
        0
    }
}

impl IvfPqIndex {
    /// Codes, lists and versions belong together.
    pub open spec fn layout_ok(&self) -> bool {
        &&& self.codes@.len() == self.rows@.len() * self.config.subquantizers
        &&& self.list_offsets@.len() == self.coarse@.len() + 1
        &&& self.list_offsets@.last() == self.list_positions@.len()
        &&& forall|i: int|
            0 <= i < self.list_positions@.len() ==> (#[trigger] self.list_positions@[i])
                < self.rows@.len()
        &&& self.built_versions@.len() == self.rows@.len()
    }

    /// The flattened pages of the index.
    pub open spec fn is_image(&self, image: AnnDeviceImage) -> bool {
        let rows = book_rows(self.codebooks@, self.codebooks@.len() as int);
        &&& image.config == self.config
        &&& image.dimension == self.dimension
        &&& image.similarity == self.similarity
        &&& image.coarse_values@ == flat(matrix_rows(self.coarse@))
        &&& image.coarse_count == self.coarse@.len()
        &&& image.codebook_subspace_offsets@ == Seq::new(
            self.codebooks@.len() + 1,
            |book: int| book_rows(self.codebooks@, book).len() as u32,
        )
        &&& image.codebook_vector_offsets@ == row_offsets(rows)
        &&& image.codebook_values@ == flat(rows)
        &&& image.rows@ == self.rows@
        &&& image.codes@ == self.codes@
        &&& image.list_offsets@ == self.list_offsets@
        &&& image.list_positions@ == self.list_positions@
        &&& image.built_versions@ == self.built_versions@
        &&& image.recall_basis_points == self.recall_basis_points
        &&& image.validation_queries == self.validation_queries
        &&& image.build_generation == self.build_generation
    }

    /// What is wrong with the first centroids of a codebook, the first fault first: a centroid is not
    /// as wide as its subspace, or the numbers up to it cannot be counted by 32 bits.
    pub open spec fn centroid_fault(&self, book: int, count: int) -> Option<(ErrorCode, Seq<char>)>
        decreases count,
    {
        if count <= 0 {
            None
        } else if self.centroid_fault(book, count - 1) is Some {
            self.centroid_fault(book, count - 1)
        } else if self.codebooks@[book]@[count - 1]@.len() != subspace_width(
            self.dimension as int,
            self.config.subquantizers as int,
            book,
        ) {
            Some((ErrorCode::CorruptStorage, "PQ centroid has an invalid subspace dimension"@))
        } else if flat(
            book_rows(self.codebooks@, book) + matrix_rows(self.codebooks@[book]@).take(count),
        ).len() > u32::MAX {
            Some((ErrorCode::ResultBudgetExceeded, "PQ codebook exceeds the device image limit"@))
        } else {
            None
        }
    }

    /// What is wrong with the first codebooks, the first fault first: one of their centroids, or their
    /// number.
    pub open spec fn books_fault(&self, count: int) -> Option<(ErrorCode, Seq<char>)>
        decreases count,
    {
        if count <= 0 {
            None
        } else if self.books_fault(count - 1) is Some {
            self.books_fault(count - 1)
        } else if self.centroid_fault(
            count - 1,
            self.codebooks@[count - 1]@.len() as int,
        ) is Some {
            self.centroid_fault(count - 1, self.codebooks@[count - 1]@.len() as int)
        } else if book_rows(self.codebooks@, count).len() > u32::MAX {
            Some((ErrorCode::ResultBudgetExceeded, "PQ centroids exceeds the device image limit"@))
        } else {
            None
        }
    }

    /// Why the pages have no image, the first reason first.
    pub open spec fn image_fault(&self) -> Option<(ErrorCode, Seq<char>)> {
        if !rows_have(self.coarse@, self.dimension as int) {
            Some((ErrorCode::CorruptStorage, "IVF centroid has an invalid dimension"@))
        } else if self.books_fault(self.codebooks@.len() as int) is Some {
            self.books_fault(self.codebooks@.len() as int)
        } else if self.rows@.len() * self.config.subquantizers > usize::MAX {
            Some((ErrorCode::ResultBudgetExceeded, "PQ code shape overflow"@))
        } else if !self.layout_ok() {
            Some((ErrorCode::CorruptStorage, "IVF-PQ pages are structurally inconsistent"@))
        } else {
            None
        }
    }

    /// Centroids once found at fault stay so, however many follow.
    proof fn lemma_centroid_fault(&self, book: int, low: int, high: int)
        requires
            low <= high,
            self.centroid_fault(book, low) is Some,
        ensures
            self.centroid_fault(book, high) == self.centroid_fault(book, low),
        decreases high - low,
    {
        if low < high {
            self.lemma_centroid_fault(book, low, high - 1);
        }
    }

    /// Codebooks once found at fault stay so, however many follow.
    proof fn lemma_books_fault(&self, low: int, high: int)
        requires
            low <= high,
            self.books_fault(low) is Some,
        ensures
            self.books_fault(high) == self.books_fault(low),
        decreases high - low,
    {
        if low < high {
            self.lemma_books_fault(low, high - 1);
        }
    }

    /// The pages as flat device columns.
    pub fn device_image(&self) -> (result: Result<AnnDeviceImage>)
        requires
            self.config.subquantizers > 0 || self.codebooks@.len() == 0 || !rows_have(
                self.coarse@,
                self.dimension as int,
            ),
        ensures
            match self.image_fault() {
                Some(fault) => fails_with(result, fault.0, fault.1),
                None => result matches Ok(image) && self.is_image(image),
            },
    {
        let coarse_values: Vec<u32> = match flatten(&self.coarse, self.dimension) {
            Some(values) => values,
            None => {
                return corrupt("IVF centroid has an invalid dimension");
            },
        };
        let (codebook_subspace_offsets, codebook_vector_offsets, codebook_values) =
            match self.flatten_books() {
            Ok(books) => books,
            Err(error) => {
                return Err(error);
            },
        };
        let shape: usize = match self.rows.len().checked_mul(self.config.subquantizers) {
            Some(shape) => shape,
            None => {
                return exhausted("PQ code shape overflow");
            },
        };
        if self.codes.len() != shape || !self.check_lists() || self.built_versions.len()
            != self.rows.len() {
            return corrupt("IVF-PQ pages are structurally inconsistent");
        }
        Ok(
            AnnDeviceImage {
                config: self.config,
                dimension: self.dimension,
                similarity: self.similarity,
                coarse_values,
                coarse_count: self.coarse.len(),
                codebook_subspace_offsets,
                codebook_vector_offsets,
                codebook_values,
                rows: detach(self.rows.as_slice()),
                codes: detach(self.codes.as_slice()),
                list_offsets: detach(self.list_offsets.as_slice()),
                list_positions: detach(self.list_positions.as_slice()),
                built_versions: detach(self.built_versions.as_slice()),
                recall_basis_points: self.recall_basis_points,
                validation_queries: self.validation_queries,
                build_generation: self.build_generation,
            },
        )
    }

    fn check_lists(&self) -> (sound: bool)
        ensures
            sound == (self.list_offsets@.len() == self.coarse@.len() + 1
                && self.list_offsets@.last() == self.list_positions@.len() && forall|i: int|
                0 <= i < self.list_positions@.len() ==> (#[trigger] self.list_positions@[i])
                    < self.rows@.len()),
    {
        let offsets: usize = self.list_offsets.len();
        if offsets == 0 || offsets - 1 != self.coarse.len() || self.list_offsets[offsets - 1] as usize
            != self.list_positions.len() {
            return false;
        }
        for index in 0..self.list_positions.len()
            invariant
                forall|i: int|
                    0 <= i < index ==> (#[trigger] self.list_positions@[i]) < self.rows@.len(),
        {
            if self.list_positions[index] as usize >= self.rows.len() {
                assert(!(self.list_positions@[index as int] < self.rows@.len()));
                return false;
            }
        }
        true
    }

    /// Subspace offsets, vector offsets and values of the codebooks.
    #[verifier::rlimit(40)]
    #[verifier::spinoff_prover]
    fn flatten_books(&self) -> (result: Result<(Vec<u32>, Vec<u32>, Vec<u32>)>)
        requires
            self.config.subquantizers > 0 || self.codebooks@.len() == 0,
        ensures
            match result {
                Ok(books) => {
                    let rows = book_rows(self.codebooks@, self.codebooks@.len() as int);
                    &&& self.books_fault(self.codebooks@.len() as int) is None
                    &&& books.0@ == Seq::new(
                        self.codebooks@.len() + 1,
                        |book: int| book_rows(self.codebooks@, book).len() as u32,
                    )
                    &&& books.1@ == row_offsets(rows)
                    &&& books.2@ == flat(rows)
                },
                Err(error) => self.books_fault(self.codebooks@.len() as int) matches Some(fault)
                    && error.is(fault.0, fault.1),
            },
    {
        let mut subspaces: Vec<u32> = Vec::new();
        let mut offsets: Vec<u32> = Vec::new();
        let mut values: Vec<u32> = Vec::new();
        subspaces.push(0);
        offsets.push(0);
        let total: usize = self.codebooks.len();
        assert(book_rows(self.codebooks@, 0).take(0) =~= Seq::empty());
        for book in 0..total
            invariant
                self.config.subquantizers > 0 || total == 0,
                total == self.codebooks@.len(),
                self.books_fault(book as int) is None,
                subspaces@.len() == book + 1,
                forall|i: int|
                    0 <= i <= book ==> #[trigger] subspaces@[i] == book_rows(
                        self.codebooks@,
                        i,
                    ).len(),
                values@ == flat(book_rows(self.codebooks@, book as int)),
                values@.len() <= u32::MAX,
                offsets@ == row_offsets(book_rows(self.codebooks@, book as int)),
                book_rows(self.codebooks@, book as int).len() <= u32::MAX,
        {
            let (start, end) = subspace_bounds(self.dimension, self.config.subquantizers, book);
            let width: usize = end.saturating_sub(start);
            assert(width == subspace_width(
                self.dimension as int,
                self.config.subquantizers as int,
                book as int,
            ));
            let matrix = &self.codebooks[book];
            let ghost before = book_rows(self.codebooks@, book as int);
            let ghost inside = matrix_rows(matrix@);
            assert(before + inside.take(0) =~= before);
            for index in 0..matrix.len()
                invariant
                    book < total,
                    total == self.codebooks@.len(),
                    self.books_fault(book as int) is None,
                    self.centroid_fault(book as int, index as int) is None,
                    *matrix == self.codebooks@[book as int],
                    inside == matrix_rows(matrix@),
                    before == book_rows(self.codebooks@, book as int),
                    width == subspace_width(
                        self.dimension as int,
                        self.config.subquantizers as int,
                        book as int,
                    ),
                    values@ == flat(before + inside.take(index as int)),
                    values@.len() <= u32::MAX,
                    offsets@ == row_offsets(before + inside.take(index as int)),
            {
                let centroid = &matrix[index];
                if centroid.len() != width {
                    proof {
                        self.lemma_centroid_fault(book as int, index + 1, matrix@.len() as int);
                        self.lemma_books_fault(book + 1, total as int);
                    }
                    return corrupt("PQ centroid has an invalid subspace dimension");
                }
                let ghost seen = before + inside.take(index as int);
                let ghost more = before + inside.take(index + 1);
                proof {
                    assert(more =~= seen.push(centroid@));
                    assert(more.drop_last() =~= seen);
                    assert(more.last() == centroid@);
                }
                let mut copy: Vec<u32> = detach(centroid.as_slice());
                values.append(&mut copy);
                assert(values@ =~= flat(more));
                if values.len() as u64 > u32::MAX as u64 {
                    proof {
                        self.lemma_centroid_fault(book as int, index + 1, matrix@.len() as int);
                        self.lemma_books_fault(book + 1, total as int);
                    }
                    return exhausted("PQ codebook exceeds the device image limit");
                }
                let ghost known = offsets@;
                offsets.push(values.len() as u32);
                proof {
                    assert forall|i: int| 0 <= i < offsets@.len() implies #[trigger] offsets@[i]
                        == row_offsets(more)[i] by {
                        if i < known.len() {
                            assert(more.take(i) =~= seen.take(i));
                            assert(known[i] == row_offsets(seen)[i]);
                        } else {
                            assert(more.take(i) =~= more);
                        }
                    }
                    assert(offsets@ =~= row_offsets(more));
                }
            }
            proof {
                assert(inside.take(inside.len() as int) =~= inside);
                assert(book_rows(self.codebooks@, book + 1) =~= before + inside);
                assert(offsets@.len() == (before + inside).len() + 1);
            }
            if offsets.len() as u64 - 1 > u32::MAX as u64 {
                proof {
                    self.lemma_books_fault(book + 1, total as int);
                }
                return exhausted("PQ centroids exceeds the device image limit");
            }
            subspaces.push((offsets.len() - 1) as u32);
        }
        assert(subspaces@ =~= Seq::new(
            self.codebooks@.len() + 1,
            |book: int| book_rows(self.codebooks@, book).len() as u32,
        ));
        Ok((subspaces, offsets, values))
    }
}

/// The values of the first rows are no more than all.
proof fn lemma_books_grow(books: Seq<Vec<Vec<u32>>>, book: int, count: int, total: int)
    requires
        0 <= book < total <= books.len(),
        0 <= count <= books[book]@.len(),
    ensures
        flat(book_rows(books, book) + matrix_rows(books[book]@).take(count)).len() <= flat(
            book_rows(books, total),
        ).len(),
    decreases total,
{
    let part = book_rows(books, book) + matrix_rows(books[book]@).take(count);
    let whole = book_rows(books, book + 1);
    if total == book + 1 {
        assert(part =~= whole.take(part.len() as int));
        lemma_flat_take(whole, part.len() as int);
    } else {
        lemma_books_grow(books, book, count, total - 1);
        let longer = book_rows(books, total);
        let shorter = book_rows(books, total - 1);
        assert(shorter =~= longer.take(shorter.len() as int));
        lemma_flat_take(longer, shorter.len() as int);
    }
}

proof fn lemma_flat_take(rows: Seq<Seq<u32>>, count: int)
    requires
        0 <= count <= rows.len(),
    ensures
        flat(rows.take(count)).len() <= flat(rows).len(),
    decreases rows.len(),
{
    if count == rows.len() {
        assert(rows.take(count) =~= rows);
    } else {
        lemma_flat_take(rows.drop_last(), count);
        assert(rows.drop_last().take(count) =~= rows.take(count));
    }
}

/// The rows of a matrix one after the other, if all have this width.
fn flatten(matrix: &Vec<Vec<u32>>, width: usize) -> (values: Option<Vec<u32>>)
    ensures
        match values {
            Some(values) => rows_have(matrix@, width as int) && values@ == flat(
                matrix_rows(matrix@),
            ),
            None => !rows_have(matrix@, width as int),
        },
{
    let mut values: Vec<u32> = Vec::new();
    let ghost rows = matrix_rows(matrix@);
    assert(rows.take(0) =~= Seq::empty());
    for index in 0..matrix.len()
        invariant
            rows == matrix_rows(matrix@),
            values@ == flat(rows.take(index as int)),
            forall|i: int| 0 <= i < index ==> (#[trigger] matrix@[i])@.len() == width,
    {
        if matrix[index].len() != width {
            assert(matrix@[index as int]@.len() != width);
            return None;
        }
        let mut copy: Vec<u32> = detach(matrix[index].as_slice());
        values.append(&mut copy);
        assert(rows.take(index + 1).drop_last() =~= rows.take(index as int));
    }
    assert(rows.take(rows.len() as int) =~= rows);
    Some(values)
}

/// Queries that measure recall, at most.
pub const MAX_VALIDATION_QUERIES: usize = 64;

/// Neighbors that each query compares, at most.
pub const VALIDATION_TOP_K: usize = 10;

/// The active row that a validation query takes: rows spread evenly over all active ones.
pub fn validation_row(ordinal: usize, active: usize, queries: usize) -> (place: usize)
    requires
        0 < queries <= active,
        ordinal < queries,
    ensures
        place == spec_min(saturated(ordinal * active) / queries as int, active - 1),
        place < active,
{
    let sampled: usize = saturating_product(ordinal, active) / queries;
    if sampled < active - 1 {
        sampled
    } else {
        active - 1
    }
}

/// Recall in basis points: of the exact neighbors, those that were found; all where there are none.
pub open spec fn recall_points(expected: u64, matched: u64) -> int {
    if expected == 0 {
        10_000
    } else {
        spec_min(saturated64(matched * 10_000) / expected as int, 10_000)
    }
}

/// Whether recall is high enough for the pages to be published.
pub fn recall_gate(expected: u64, matched: u64) -> (recall: (u16, bool))
    ensures
        recall.0 == recall_points(expected, matched),
        recall.1 == (recall_points(expected, matched) >= 9000),
{
    let recall: u64 = if expected == 0 {
        10_000
    } else {
        saturating_product64(matched, 10_000) / expected
    };
    let points: u16 = if recall < 10_000 {
        recall as u16
    } else {
        10_000
    };
    (points, points >= IVF_PQ_MIN_RECALL_BASIS_POINTS)
}

/// How many of the exact neighbors the approximate search found.
pub fn matched_neighbors(exact: &[u64], approximate: &[u64]) -> (matched: usize)
    ensures
        matched == exact@.filter(|id: u64| approximate@.contains(id)).len(),
{
    let ghost found = |id: u64| approximate@.contains(id);
    let mut matched: usize = 0;
    assert(exact@.take(0).filter(found) =~= Seq::empty());
    for index in 0..exact.len()
        invariant
            found == (|id: u64| approximate@.contains(id)),
            matched == exact@.take(index as int).filter(found).len(),
            matched <= index,
    {
        let ghost seen = exact@.take(index as int);
        let ghost more = exact@.take(index + 1);
        proof {
            assert(more =~= seen.push(exact@[index as int]));
            reveal(Seq::filter);
            assert(more.drop_last() =~= seen);
        }
        if contains_id(approximate, exact[index]) {
            matched = matched + 1;
        }
    }
    assert(exact@.take(exact@.len() as int) =~= exact@);
    matched
}

fn contains_id(ids: &[u64], id: u64) -> (contained: bool)
    ensures
        contained == ids@.contains(id),
{
    for index in 0..ids.len()
        invariant
            forall|i: int| 0 <= i < index ==> ids@[i] != id,
    {
        if ids[index] == id {
            return true;
        }
    }
    false
}

/// A position is kept exactly where its row goes on, and positions keep their order.
pub proof fn law_positions_of_kept_rows_stay(rows: Seq<u32>, remap: Map<u128, u32>, count: int)
    requires
        0 <= count <= rows.len(),
    ensures
        forall|position: int| #[trigger]
            kept_positions(rows, remap, count).contains(position) <==> 0 <= position < count
                && remap.dom().contains(rows[position] as u128),
        forall|i: int, j: int|
            0 <= i < j < kept_positions(rows, remap, count).len() ==> (#[trigger] kept_positions(
                rows,
                remap,
                count,
            )[i]) < (#[trigger] kept_positions(rows, remap, count)[j]),
    decreases count,
{
    lemma_kept_inside(rows, remap, count);
    if count > 0 {
        law_positions_of_kept_rows_stay(rows, remap, count - 1);
        let before = kept_positions(rows, remap, count - 1);
        let now = kept_positions(rows, remap, count);
        assert forall|position: int| #[trigger] now.contains(position) <==> 0 <= position < count
            && remap.dom().contains(rows[position] as u128) by {
            assert(before.contains(position) <==> 0 <= position < count - 1 && remap.dom().contains(
                rows[position] as u128,
            ));
            if before.contains(position) {
                let i = choose|i: int| 0 <= i < before.len() && before[i] == position;
                assert(now[i] == position);
            }
            if remap.dom().contains(rows[count - 1] as u128) {
                assert(now[before.len() as int] == count - 1);
            }
            if now.contains(position) {
                let i = choose|i: int| 0 <= i < now.len() && now[i] == position;
                if i < before.len() {
                    assert(before[i] == position);
                }
            }
        }
    }
}

/// The codes of a kept position go with it.
pub proof fn law_codes_of_kept_positions_stay(
    codes: Seq<u8>,
    kept: Seq<int>,
    width: int,
    place: int,
)
    requires
        0 <= width,
        0 <= place < kept.len(),
        forall|i: int|
            0 <= i < kept.len() ==> 0 <= #[trigger] kept[i] && kept[i] * width + width
                <= codes.len() && 0 <= kept[i] * width,
    ensures
        kept_codes(codes, kept, width).len() == kept.len() * width,
        kept_codes(codes, kept, width).subrange(place * width, place * width + width)
            == codes.subrange(kept[place] * width, kept[place] * width + width),
    decreases kept.len(),
{
    let rest = kept.drop_last();
    let last = kept.len() - 1;
    let before = kept_codes(codes, rest, width);
    let own = codes.subrange(kept[last] * width, kept[last] * width + width);
    assert forall|i: int| 0 <= i < rest.len() implies 0 <= #[trigger] rest[i] && rest[i] * width
        + width <= codes.len() && 0 <= rest[i] * width by {
        assert(0 <= kept[i]);
    }
    assert(0 <= kept[last]);
    assert(kept.last() == kept[last]);
    if rest.len() > 0 {
        law_codes_of_kept_positions_stay(
            codes,
            rest,
            width,
            if place < last {
                place
            } else {
                0
            },
        );
    } else {
        assert(before.len() == 0);
    }
    assert(before.len() == last * width) by {
        assert(rest.len() == last);
        if last == 0 {
            assert(0 * width == 0) by (nonlinear_arith);
        }
    }
    assert((last + 1) * width == last * width + width) by (nonlinear_arith);
    assert(own.len() == width);
    assert(kept_codes(codes, kept, width) == before + own);
    if place < last {
        lemma_code_row(last, width, place);
        assert((before + own).subrange(place * width, place * width + width) =~= before.subrange(
            place * width,
            place * width + width,
        ));
    } else {
        assert((before + own).subrange(place * width, place * width + width) =~= own);
    }
}

proof fn lemma_code_row(rows: int, width: int, place: int)
    requires
        0 <= place < rows,
        0 <= width,
    ensures
        0 <= place * width,
        place * width + width <= rows * width,
{
    assert(place * width + width == (place + 1) * width) by (nonlinear_arith);
    assert((place + 1) * width <= rows * width) by (nonlinear_arith)
        requires
            place + 1 <= rows,
            0 <= width,
    ;
    assert(0 <= place * width) by (nonlinear_arith)
        requires
            0 <= place,
            0 <= width,
    ;
}

/// A page that follows a filter has, at every kept position, the new row of its old row and the revision
/// that it was built from.
pub proof fn law_remapped_rows_keep_their_revision(
    before: IvfPqIndex,
    remap: Map<u128, u32>,
    after: IvfPqIndex,
    place: int,
)
    requires
        remapped(before, remap, after),
        0 <= place < after.rows@.len(),
    ensures
        exists|position: int|
            #![trigger before.rows@[position]]
            0 <= position < before.rows@.len() && remap.dom().contains(
                before.rows@[position] as u128,
            ) && after.rows@[place] == remap[before.rows@[position] as u128]
                && after.built_versions@[place] == before.built_versions@[position],
        after.config == before.config,
        after.similarity == before.similarity,
{
    let count = before.rows@.len() as int;
    let kept = kept_positions(before.rows@, remap, count);
    lemma_kept_inside(before.rows@, remap, count);
    let position = kept[place];
    assert(before.rows@[position] == before.rows@[position]);
}

/// Recall is a hundredth of a percent of the neighbors that were expected: nine tenths are enough.
pub proof fn law_recall_counts_matches(expected: u64, matched: u64)
    requires
        matched * 10_000 <= u64::MAX,
        matched <= expected,
    ensures
        0 <= recall_points(expected, matched) <= 10_000,
        expected > 0 ==> (recall_points(expected, matched) >= 9_000 <==> matched * 10 >= expected
            * 9),
        expected > 0 && matched == expected ==> recall_points(expected, matched) == 10_000,
        expected == 0 ==> recall_points(expected, matched) == 10_000,
        expected > 0 && matched == 0 ==> recall_points(expected, matched) == 0,
{
    if expected > 0 {
        let total = expected as int;
        let scaled = matched as int * 10_000;
        vstd::arithmetic::div_mod::lemma_fundamental_div_mod(scaled, total);
        let points = scaled / total;
        assert(points <= 10_000) by (nonlinear_arith)
            requires
                scaled == total * points + scaled % total,
                scaled <= total * 10_000,
                0 <= scaled % total,
                0 < total,
        ;
        assert(points >= 9_000 <==> scaled >= total * 9_000) by (nonlinear_arith)
            requires
                scaled == total * points + scaled % total,
                0 <= scaled % total < total,
                0 < total,
        ;
        assert(matched == expected ==> points >= 10_000) by (nonlinear_arith)
            requires
                scaled == total * points + scaled % total,
                0 <= scaled % total < total,
                0 < total,
                scaled == matched as int * 10_000,
                total == expected as int,
        ;
        assert(0 <= points) by (nonlinear_arith)
            requires
                scaled == total * points + scaled % total,
                0 <= scaled % total < total,
                0 < total,
                0 <= scaled,
        ;
        if matched == 0 {
            assert(scaled == 0);
            assert(0int / total == 0);
        }
    }
}

} // verus!
