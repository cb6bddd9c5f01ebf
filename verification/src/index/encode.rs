//! The integer side of an IVF-PQ build: which rows are trained on, what a kernel may assign, and how
//! assigned rows and codes become pages.

use crate::arith::{min_usize, saturated, saturating_product, spec_min};
use crate::columns::packed::{flat, lemma_flat_through, row_offsets};
use crate::error::{fails_with, Error, ErrorCode, Result};
use crate::index::ann::IvfPqIndex;
use crate::index::images::{flatten_numbers, number_rows};
use crate::index::plan::IvfPqConfig;
use crate::index::vectors::VectorIndex;
use vstd::prelude::*;

verus! {

/// The first rows that count, in order.
pub open spec fn active_rows_of(active: Seq<bool>, count: int) -> Seq<int>
    decreases count,
{
    if count <= 0 {
        Seq::empty()
    } else if active[count - 1] {
        active_rows_of(active, count - 1).push(count - 1)
    } else {
        active_rows_of(active, count - 1)
    }
}

/// The rows that count are those whose flag is set, each once and in order.
pub proof fn law_active_rows_have_their_flag(active: Seq<bool>, count: int)
    requires
        0 <= count <= active.len(),
    ensures
        forall|row: int| #[trigger]
            active_rows_of(active, count).contains(row) <==> 0 <= row < count && active[row],
        forall|i: int, j: int|
            0 <= i < j < active_rows_of(active, count).len() ==> (#[trigger] active_rows_of(
                active,
                count,
            )[i]) < (#[trigger] active_rows_of(active, count)[j]),
    decreases count,
{
    if count > 0 {
        law_active_rows_have_their_flag(active, count - 1);
        let before = active_rows_of(active, count - 1);
        let now = active_rows_of(active, count);
        assert forall|row: int| #[trigger] now.contains(row) <==> 0 <= row < count && active[row] by {
            assert(before.contains(row) <==> 0 <= row < count - 1 && active[row]);
            if before.contains(row) {
                let i = choose|i: int| 0 <= i < before.len() && before[i] == row;
                assert(now[i] == row);
            }
            if active[count - 1] {
                assert(now[before.len() as int] == count - 1);
            }
            if now.contains(row) {
                let i = choose|i: int| 0 <= i < now.len() && now[i] == row;
                if i < before.len() {
                    assert(before[i] == row);
                }
            }
        }
        assert forall|i: int, j: int| 0 <= i < j < now.len() implies (#[trigger] now[i]) < (
        #[trigger] now[j]) by {
            if j < before.len() {
                assert(before[i] < before[j]);
            } else {
                assert(before.contains(before[i]));
            }
        }
    }
}

/// Rows as numbers.
pub open spec fn as_rows(rows: Seq<usize>) -> Seq<int> {
    Seq::new(rows.len(), |i: int| rows[i] as int)
}

impl VectorIndex {
    /// The rows that count, in order.
    pub fn active_rows(&self) -> (rows: Vec<usize>)
        requires
            self.active.wf(),
        ensures
            as_rows(rows@) == active_rows_of(self.active@, self.active@.len() as int),
            forall|i: int|
                0 <= i < rows@.len() ==> (#[trigger] rows@[i]) < self.active@.len()
                    && self.active@[rows@[i] as int],
    {
        let total: usize = self.active.len();
        let mut rows: Vec<usize> = Vec::new();
        assert(as_rows(rows@) =~= Seq::<int>::empty());
        for row in 0..total
            invariant
                self.active.wf(),
                total == self.active@.len(),
                as_rows(rows@) == active_rows_of(self.active@, row as int),
                forall|i: int|
                    0 <= i < rows@.len() ==> (#[trigger] rows@[i]) < self.active@.len()
                        && self.active@[rows@[i] as int],
        {
            let ghost before = rows@;
            if let Some(active) = self.active.get(row) {
                if *active {
                    rows.push(row);
                    assert(as_rows(rows@) =~= as_rows(before).push(row as int));
                }
            }
        }
        rows
    }
}

/// The place of a sample among the rows that count: samples are spread evenly.
pub open spec fn sample_place(sample: int, rows: int, samples: int) -> int {
    saturated(sample * rows) / samples
}

proof fn lemma_sample_place(sample: int, rows: int, samples: int)
    requires
        0 <= sample < samples,
        0 < rows,
    ensures
        0 <= sample_place(sample, rows, samples) < rows,
{
    assert(0 <= sample * rows < samples * rows) by (nonlinear_arith)
        requires
            0 <= sample < samples,
            0 < rows,
    ;
    let value = saturated(sample * rows);
    assert(value / samples < rows) by (nonlinear_arith)
        requires
            0 <= value < samples * rows,
            0 < samples,
    ;
    assert(value / samples >= 0) by (nonlinear_arith)
        requires
            0 <= value,
            0 < samples,
    ;
}

/// How many centroids training looks for.
#[derive(Clone, Copy, Debug, PartialEq, Eq)]
pub struct TrainingShape {
    pub coarse_count: usize,
    pub code_count: usize,
}

/// Centroids of a codebook: as many as a code can tell apart and the sample has rows.
pub open spec fn code_count(config: IvfPqConfig, training_rows: int) -> int {
    spec_min(vstd::arithmetic::power2::pow2(config.bits_per_code as nat) as int, training_rows)
}

/// The centroids of pages over a number of rows, of which a sample is trained on.
pub fn training_shape(config: IvfPqConfig, active_rows: usize, training_rows: usize) -> (result:
    Result<TrainingShape>)
    requires
        config.bits_per_code <= 8,
    ensures
        if active_rows == 0 {
            fails_with(
                result,
                ErrorCode::IndexUnavailable,
                "cannot build IVF-PQ on an empty vector matrix"@,
            )
        } else if training_rows < spec_min(config.coarse_centroids as int, active_rows as int) {
            fails_with(
                result,
                ErrorCode::IndexUnavailable,
                "IVF-PQ training sample is smaller than its coarse-centroid count"@,
            )
        } else {
            result matches Ok(shape) && shape.coarse_count == spec_min(
                config.coarse_centroids as int,
                active_rows as int,
            ) && shape.code_count == code_count(config, training_rows as int)
        },
{
    if active_rows == 0 {
        return Err(
            Error::new(
                ErrorCode::IndexUnavailable,
                "cannot build IVF-PQ on an empty vector matrix",
            ),
        );
    }
    let coarse_count: usize = min_usize(config.coarse_centroids, active_rows);
    if training_rows < coarse_count {
        return Err(
            Error::new(
                ErrorCode::IndexUnavailable,
                "IVF-PQ training sample is smaller than its coarse-centroid count",
            ),
        );
    }
    let mut codes: usize = 1;
    proof {
        vstd::arithmetic::power2::lemma2_to64();
    }
    for bit in 0..config.bits_per_code
        invariant
            config.bits_per_code <= 8,
            codes == vstd::arithmetic::power2::pow2(bit as nat),
    {
        proof {
            vstd::arithmetic::power2::lemma2_to64();
            vstd::arithmetic::power2::lemma_pow2_unfold((bit + 1) as nat);
            if bit < 7 {
                vstd::arithmetic::power2::lemma_pow2_strictly_increases(bit as nat, 7);
            }
        }
        codes = codes * 2;
    }
    Ok(TrainingShape { coarse_count, code_count: min_usize(codes, training_rows) })
}

/// The seed of a subspace: that of the pages, mixed with the place of the subspace.
pub open spec fn spec_subspace_seed(seed: u64, subspace: int) -> u64 {
    seed ^ (((subspace * 0x9e37_79b9_7f4a_7c15) % 0x1_0000_0000_0000_0000) as u64)
}

pub fn subspace_seed(seed: u64, subspace: usize) -> (mixed: u64)
    ensures
        mixed == spec_subspace_seed(seed, subspace as int),
{
    let place: u64 = subspace as u64;
    let wide: u128 = (place as u128) * 0x9e37_79b9_7f4a_7c15u128;
    seed ^ ((wide % 0x1_0000_0000_0000_0000u128) as u64)
}

/// The rows that are trained on: as many as asked for, spread evenly over the rows that count.
pub fn training_rows(source: &VectorIndex, training_count: usize) -> (result: Result<Vec<usize>>)
    requires
        source.active.wf(),
    ensures
        ({
            let rows = active_rows_of(source.active@, source.active@.len() as int);
            if training_count == 0 || training_count > rows.len() {
                fails_with(
                    result,
                    ErrorCode::IndexUnavailable,
                    "IVF-PQ training sample shape is invalid"@,
                )
            } else {
                result matches Ok(training) && as_rows(training@) == Seq::new(
                    training_count as nat,
                    |sample: int|
                        rows[sample_place(sample, rows.len() as int, training_count as int)],
                )
            }
        }),
{
    let active = source.active_rows();
    let ghost rows = active_rows_of(source.active@, source.active@.len() as int);
    assert(rows.len() == active@.len());
    if training_count == 0 || training_count > active.len() {
        return Err(
            Error::new(
                ErrorCode::IndexUnavailable,
                "IVF-PQ training sample shape is invalid",
            ),
        );
    }
    let mut training: Vec<usize> = Vec::with_capacity(training_count);
    for sample in 0..training_count
        invariant
            0 < training_count <= active@.len(),
            rows == as_rows(active@),
            training@.len() == sample,
            forall|i: int|
                0 <= i < sample ==> (#[trigger] training@[i]) as int == rows[sample_place(
                    i,
                    rows.len() as int,
                    training_count as int,
                )],
    {
        proof {
            lemma_sample_place(sample as int, active@.len() as int, training_count as int);
        }
        let place: usize = saturating_product(sample, active.len()) / training_count;
        training.push(active[place]);
    }
    assert(as_rows(training@) =~= Seq::new(
        training_count as nat,
        |sample: int| rows[sample_place(sample, rows.len() as int, training_count as int)],
    ));
    Ok(training)
}

/// Where the first centers of k-means are taken from: spread evenly, from a place that the seed gives.
pub open spec fn center_place(center: int, rows: int, count: int, seed: u64) -> int {
    ((seed as usize) as int % rows + sample_place(center, rows, count)) % rows
}

/// The training rows have one width, and there are enough of them.
pub open spec fn trainable(widths: Seq<usize>, count: int) -> bool {
    &&& widths.len() > 0
    &&& widths[0] > 0
    &&& forall|i: int| 0 <= i < widths.len() ==> (#[trigger] widths[i]) == widths[0]
    &&& 0 < count <= widths.len()
}

/// The rows that k-means starts from. `widths` are those of the training rows.
pub fn initial_centers(widths: &[usize], count: usize, seed: u64) -> (result: Result<Vec<usize>>)
    ensures
        if widths@.len() == 0 {
            fails_with(
                result,
                ErrorCode::IndexUnavailable,
                "k-means training set is empty"@,
            )
        } else if !trainable(widths@, count as int) {
            fails_with(
                result,
                ErrorCode::IndexUnavailable,
                "k-means training dimensions are invalid"@,
            )
        } else {
            result matches Ok(centers) && as_rows(centers@) == Seq::new(
                count as nat,
                |center: int|
                    center_place(center, widths@.len() as int, count as int, seed),
            )
        },
{
    let rows: usize = widths.len();
    if rows == 0 {
        return Err(
            Error::new(ErrorCode::IndexUnavailable, "k-means training set is empty"),
        );
    }
    let mut even = widths[0] > 0 && count > 0 && count <= rows;
    for index in 0..rows
        invariant
            rows == widths@.len(),
            rows > 0,
            even == (widths@[0] > 0 && 0 < count <= rows && forall|i: int|
                0 <= i < index ==> (#[trigger] widths@[i]) == widths@[0]),
    {
        if widths[index] != widths[0] {
            assert(widths@[index as int] != widths@[0]);
            even = false;
        }
    }
    if !even {
        return Err(
            Error::new(
                ErrorCode::IndexUnavailable,
                "k-means training dimensions are invalid",
            ),
        );
    }
    let offset: usize = truncate_seed(seed) % rows;
    let mut centers: Vec<usize> = Vec::with_capacity(count);
    for center in 0..count
        invariant
            rows == widths@.len(),
            0 < count <= rows,
            offset == (seed as usize) as int % rows as int,
            offset < rows,
            centers@.len() == center,
            forall|i: int|
                0 <= i < center ==> (#[trigger] centers@[i]) as int == center_place(
                    i,
                    rows as int,
                    count as int,
                    seed,
                ),
    {
        proof {
            lemma_sample_place(center as int, rows as int, count as int);
        }
        let rank: usize = saturating_product(center, rows) / count;
        let place: usize = if rank >= rows - offset {
            rank - (rows - offset)
        } else {
            offset + rank
        };
        proof {
            let whole = offset + rank;
            if rank >= rows - offset {
                vstd::arithmetic::div_mod::lemma_fundamental_div_mod_converse(
                    whole,
                    rows as int,
                    1,
                    whole - rows,
                );
            } else {
                vstd::arithmetic::div_mod::lemma_small_mod(whole as nat, rows as nat);
            }
        }
        centers.push(place);
    }
    assert(as_rows(centers@) =~= Seq::new(
        count as nat,
        |center: int| center_place(center, widths@.len() as int, count as int, seed),
    ));
    Ok(centers)
}

#[verifier::truncate]
fn truncate_seed(seed: u64) -> (word: usize)
    ensures
        word == seed as usize,
{
    seed as usize
}

/// Every row is assigned, and to a centroid that is there.
pub open spec fn assigned(assignments: Seq<u32>, rows: int, centroids: int) -> bool {
    assignments.len() == rows && forall|i: int|
        0 <= i < assignments.len() ==> (#[trigger] assignments[i]) < centroids
}

/// Checks what a build kernel gave.
pub fn check_assignments(assignments: &[u32], row_count: usize, centroid_count: usize) -> (result:
    Result<()>)
    ensures
        if assigned(assignments@, row_count as int, centroid_count as int) {
            result is Ok
        } else {
            fails_with(
                result,
                ErrorCode::IndexUnavailable,
                "IVF-PQ build kernel returned an invalid assignment vector"@,
            )
        },
{
    let mut valid = assignments.len() == row_count;
    for index in 0..assignments.len()
        invariant
            valid == (assignments@.len() == row_count && forall|i: int|
                0 <= i < index ==> (#[trigger] assignments@[i]) < centroid_count),
    {
        if assignments[index] as usize >= centroid_count {
            assert(assignments@[index as int] >= centroid_count);
            valid = false;
        }
    }
    if valid {
        Ok(())
    } else {
        Err(
            Error::new(
                ErrorCode::IndexUnavailable,
                "IVF-PQ build kernel returned an invalid assignment vector",
            ),
        )
    }
}

/// Checks the shapes of the two matrices that a kernel is handed.
pub fn check_assignment_shape(
    vector_values: usize,
    row_count: usize,
    dimension: usize,
    centroid_values: usize,
    centroid_count: usize,
) -> (result: Result<()>)
    ensures
        if row_count * dimension > usize::MAX {
            fails_with(result, ErrorCode::IndexUnavailable, "assignment matrix shape overflow"@)
        } else if centroid_count * dimension > usize::MAX {
            fails_with(result, ErrorCode::IndexUnavailable, "centroid matrix shape overflow"@)
        } else if row_count == 0 || dimension == 0 || centroid_count == 0 || vector_values
            != row_count * dimension || centroid_values != centroid_count * dimension {
            fails_with(
                result,
                ErrorCode::IndexUnavailable,
                "IVF-PQ assignment matrices are invalid"@,
            )
        } else {
            result is Ok
        },
{
    let vectors: usize = match row_count.checked_mul(dimension) {
        Some(values) => values,
        None => {
            return Err(
                Error::new(ErrorCode::IndexUnavailable, "assignment matrix shape overflow"),
            );
        },
    };
    let centroids: usize = match centroid_count.checked_mul(dimension) {
        Some(values) => values,
        None => {
            return Err(
                Error::new(ErrorCode::IndexUnavailable, "centroid matrix shape overflow"),
            );
        },
    };
    if row_count == 0 || dimension == 0 || centroid_count == 0 || vector_values != vectors
        || centroid_values != centroids {
        return Err(
            Error::new(
                ErrorCode::IndexUnavailable,
                "IVF-PQ assignment matrices are invalid",
            ),
        );
    }
    Ok(())
}

/// The positions below a bound that are assigned to a list, ascending.
pub open spec fn list_members(assignments: Seq<u32>, list: int, count: int) -> Seq<u32>
    decreases count,
{
    if count <= 0 {
        Seq::empty()
    } else if assignments[count - 1] == list {
        list_members(assignments, list, count - 1).push((count - 1) as u32)
    } else {
        list_members(assignments, list, count - 1)
    }
}

/// The members of every list.
pub open spec fn all_members(assignments: Seq<u32>, lists: int) -> Seq<Seq<u32>> {
    Seq::new(
        lists as nat,
        |list: int| list_members(assignments, list, assignments.len() as int),
    )
}

/// Puts every position into the list that it is assigned to.
pub fn publish_lists(assignments: &[u32], lists: usize) -> (result: Result<(Vec<u32>, Vec<u32>)>)
    ensures
        if !assigned(assignments@, assignments@.len() as int, lists as int) {
            fails_with(
                result,
                ErrorCode::CorruptStorage,
                "IVF assignment is out of bounds"@,
            )
        } else {
            match result {
                Ok((offsets, positions)) => {
                    &&& assignments@.len() <= u32::MAX
                    &&& offsets@ == row_offsets(all_members(assignments@, lists as int))
                    &&& positions@ == flat(all_members(assignments@, lists as int))
                },
                Err(error) => {
                    &&& error.is(ErrorCode::IndexUnavailable, "IVF postings exceed u32"@)
                    &&& assignments@.len() > u32::MAX
                },
            }
        },
{
    match check_assignments(assignments, assignments.len(), lists) {
        Ok(_) => {},
        Err(_) => {
            return Err(Error::new(ErrorCode::CorruptStorage, "IVF assignment is out of bounds"));
        },
    }
    if assignments.len() as u64 > u32::MAX as u64 {
        return Err(Error::new(ErrorCode::IndexUnavailable, "IVF postings exceed u32"));
    }
    let mut members: Vec<Vec<u32>> = Vec::with_capacity(lists);
    for list in 0..lists
        invariant
            members@.len() == list,
            forall|i: int| 0 <= i < list ==> (#[trigger] members@[i])@ == Seq::<u32>::empty(),
    {
        let empty: Vec<u32> = Vec::new();
        assert(empty@ =~= Seq::<u32>::empty());
        members.push(empty);
    }
    for position in 0..assignments.len()
        invariant
            assigned(assignments@, assignments@.len() as int, lists as int),
            assignments@.len() <= u32::MAX,
            members@.len() == lists,
            forall|list: int|
                0 <= list < lists ==> (#[trigger] members@[list])@ == list_members(
                    assignments@,
                    list,
                    position as int,
                ),
    {
        let ghost before = members@;
        let list: usize = assignments[position] as usize;
        members[list].push(position as u32);
        proof {
            assert forall|other: int| 0 <= other < lists implies (#[trigger] members@[other])@
                == list_members(assignments@, other, position + 1) by {
                if other != list {
                    assert(members@[other] == before[other]);
                }
            }
        }
    }
    assert(number_rows(members@) =~= all_members(assignments@, lists as int));
    proof {
        lemma_members_total(assignments@, lists as int);
    }
    match flatten_numbers(&members) {
        Some(parts) => Ok(parts),
        None => Err(Error::new(ErrorCode::IndexUnavailable, "IVF postings exceed u32")),
    }
}

/// The list that a second assignment fills past the last position, where the lists stand as a first
/// assignment counted them.
pub open spec fn overfull(counted: Seq<u32>, filled: Seq<u32>, lists: int, list: int) -> bool {
    flat(all_members(counted, lists).take(list)).len() + all_members(filled, lists)[list].len()
        > counted.len()
}

/// What is wrong with lists that one assignment counts and another fills.
pub open spec fn publication_fault(
    counted: Seq<u32>,
    filled: Seq<u32>,
    lists: int,
) -> Option<Seq<char>> {
    if exists|list: int| 0 <= list < lists && #[trigger] overfull(counted, filled, lists, list) {
        Some("IVF posting cursor is out of bounds"@)
    } else if exists|list: int|
        0 <= list < lists && (#[trigger] all_members(counted, lists)[list]).len() != all_members(
            filled,
            lists,
        )[list].len() {
        Some("IVF list publication did not fill every posting exactly once"@)
    } else {
        None
    }
}

/// Lists as a first assignment counts them and a second one, asked for anew, fills them. Both are to
/// count alike.
#[verifier::rlimit(40)]
#[verifier::spinoff_prover]
pub fn publish_counted_lists(counted: &[u32], filled: &[u32], lists: usize) -> (result: Result<
    (Vec<u32>, Vec<u32>),
>)
    requires
        assigned(counted@, counted@.len() as int, lists as int),
        assigned(filled@, counted@.len() as int, lists as int),
    ensures
        if counted@.len() > u32::MAX {
            fails_with(result, ErrorCode::IndexUnavailable, "IVF postings exceed u32"@)
        } else {
            match publication_fault(counted@, filled@, lists as int) {
                Some(message) => fails_with(result, ErrorCode::CorruptStorage, message),
                None => result matches Ok((offsets, positions)) && offsets@ == row_offsets(
                    all_members(filled@, lists as int),
                ) && offsets@ == row_offsets(all_members(counted@, lists as int)) && positions@
                    == flat(all_members(filled@, lists as int)),
            }
        },
{
    let ghost first = all_members(counted@, lists as int);
    let ghost second = all_members(filled@, lists as int);
    proof {
        lemma_members_total(counted@, lists as int);
        lemma_members_total(filled@, lists as int);
    }
    let (offsets, _) = match publish_lists(counted, lists) {
        Ok(parts) => parts,
        Err(error) => {
            return Err(error);
        },
    };
    let (ends, positions) = match publish_lists(filled, lists) {
        Ok(parts) => parts,
        Err(error) => {
            return Err(error);
        },
    };
    let mut alike = true;
    for list in 0..lists
        invariant
            lists == first.len(),
            lists == second.len(),
            first == all_members(counted@, lists as int),
            second == all_members(filled@, lists as int),
            offsets@ == row_offsets(first),
            ends@ == row_offsets(second),
            flat(first).len() == counted@.len(),
            flat(second).len() == counted@.len(),
            counted@.len() <= u32::MAX,
            forall|i: int|
                0 <= i < list ==> !#[trigger] overfull(counted@, filled@, lists as int, i),
            alike == forall|i: int|
                0 <= i < list ==> (#[trigger] first[i]).len() == second[i].len(),
    {
        proof {
            lemma_offset_step(first, list as int);
            lemma_offset_step(second, list as int);
        }
        let width: u32 = ends[list + 1] - ends[list];
        if width as u64 + offsets[list] as u64 > counted.len() as u64 {
            assert(overfull(counted@, filled@, lists as int, list as int));
            return Err(
                Error::new(ErrorCode::CorruptStorage, "IVF posting cursor is out of bounds"),
            );
        }
        if width != offsets[list + 1] - offsets[list] {
            alike = false;
            assert(first[list as int].len() != second[list as int].len());
        }
    }
    if !alike {
        proof {
            let list = choose|list: int|
                0 <= list < lists && (#[trigger] first[list]).len() != second[list].len();
            assert(all_members(counted@, lists as int)[list].len() != all_members(
                filled@,
                lists as int,
            )[list].len());
        }
        return Err(
            Error::new(
                ErrorCode::CorruptStorage,
                "IVF list publication did not fill every posting exactly once",
            ),
        );
    }
    proof {
        assert forall|i: int| 0 <= i <= lists implies flat(first.take(i)).len() == flat(
            second.take(i),
        ).len() by {
            lemma_same_widths(first, second, i);
        }
        assert(row_offsets(first) =~= row_offsets(second));
    }
    Ok((ends, positions))
}

/// Every list starts where the one before it ends.
proof fn lemma_offset_step(rows: Seq<Seq<u32>>, row: int)
    requires
        0 <= row < rows.len(),
        flat(rows).len() <= u32::MAX,
    ensures
        row_offsets(rows)[row] == flat(rows.take(row)).len(),
        row_offsets(rows)[row + 1] == row_offsets(rows)[row] + rows[row].len(),
{
    lemma_flat_through(rows, row);
    assert(rows.take(row + 1).drop_last() =~= rows.take(row));
    assert(rows.take(row + 1).last() == rows[row]);
}

proof fn lemma_same_widths(first: Seq<Seq<u32>>, second: Seq<Seq<u32>>, count: int)
    requires
        0 <= count <= first.len(),
        first.len() == second.len(),
        forall|i: int| 0 <= i < first.len() ==> (#[trigger] first[i]).len() == second[i].len(),
    ensures
        flat(first.take(count)).len() == flat(second.take(count)).len(),
    decreases count,
{
    if count > 0 {
        lemma_same_widths(first, second, count - 1);
        assert(first.take(count).drop_last() =~= first.take(count - 1));
        assert(second.take(count).drop_last() =~= second.take(count - 1));
        assert(first.take(count).last() == first[count - 1]);
        assert(second.take(count).last() == second[count - 1]);
    }
}

/// Every code of every subspace is there and takes one byte.
pub open spec fn codes_fit(columns: Seq<Vec<u32>>, rows: int) -> bool {
    forall|subspace: int, row: int|
        0 <= subspace < columns.len() && 0 <= row < rows ==> (
        #[trigger] columns[subspace]@[row]) <= u8::MAX
}

/// Codes row by row, each row with its codes by subspace.
pub open spec fn interleaved(columns: Seq<Vec<u32>>, rows: int) -> Seq<u8>
    decreases rows,
{
    if rows <= 0 {
        Seq::empty()
    } else {
        interleaved(columns, rows - 1) + Seq::new(
            columns.len(),
            |subspace: int| columns[subspace]@[rows - 1] as u8,
        )
    }
}

/// Turns codes by subspace into codes by row.
pub fn interleave_codes(columns: &Vec<Vec<u32>>, rows: usize) -> (result: Result<Vec<u8>>)
    requires
        forall|subspace: int|
            0 <= subspace < columns@.len() ==> (#[trigger] columns@[subspace])@.len() == rows,
    ensures
        if codes_fit(columns@, rows as int) {
            result matches Ok(codes) && codes@ == interleaved(columns@, rows as int)
        } else {
            fails_with(result, ErrorCode::IndexUnavailable, "PQ code exceeds one byte"@)
        },
{
    let mut codes: Vec<u8> = Vec::new();
    for row in 0..rows
        invariant
            forall|subspace: int|
                0 <= subspace < columns@.len() ==> (#[trigger] columns@[subspace])@.len() == rows,
            codes@ == interleaved(columns@, row as int),
            codes_fit(columns@, row as int),
    {
        let ghost before = codes@;
        for subspace in 0..columns.len()
            invariant
                row < rows,
                forall|other: int|
                    0 <= other < columns@.len() ==> (#[trigger] columns@[other])@.len() == rows,
                codes@ == before + Seq::new(
                    subspace as nat,
                    |other: int| columns@[other]@[row as int] as u8,
                ),
                forall|other: int|
                    0 <= other < subspace ==> (#[trigger] columns@[other])@[row as int] <= u8::MAX,
        {
            let ghost so_far = codes@;
            assert(columns@[subspace as int]@.len() == rows);
            let code: u32 = columns[subspace][row];
            if code > u8::MAX as u32 {
                assert(columns@[subspace as int]@[row as int] > u8::MAX);
                return Err(
                    Error::new(ErrorCode::IndexUnavailable, "PQ code exceeds one byte"),
                );
            }
            codes.push(code as u8);
            assert(codes@ =~= before + Seq::new(
                (subspace + 1) as nat,
                |other: int| columns@[other]@[row as int] as u8,
            ));
        }
        proof {
            assert(codes@ =~= interleaved(columns@, row + 1));
            assert forall|subspace: int, other: int|
                0 <= subspace < columns@.len() && 0 <= other < row + 1 implies (
            #[trigger] columns@[subspace]@[other]) <= u8::MAX by {
                if other == row {
                    assert(columns@[subspace]@[row as int] <= u8::MAX);
                }
            }
        }
    }
    Ok(codes)
}

/// The bounds of the batches that rows are streamed in: all but the last have one size.
pub fn batches(rows: usize, size: usize) -> (bounds: Vec<(usize, usize)>)
    requires
        size > 0,
    ensures
        bounds@.len() == (rows + size - 1) / (size as int),
        forall|i: int|
            0 <= i < bounds@.len() ==> (#[trigger] bounds@[i]).0 == i * size && bounds@[i].1
                == crate::arith::spec_min((i + 1) * size, rows as int) && bounds@[i].0
                < bounds@[i].1,
{
    let mut bounds: Vec<(usize, usize)> = Vec::new();
    let mut start: usize = 0;
    assert(0 * size == 0) by (nonlinear_arith);
    while start < rows
        invariant
            size > 0,
            start <= rows,
            start == crate::arith::spec_min(bounds@.len() * size, rows as int),
            start < rows ==> start == bounds@.len() * size,
            start == rows ==> (bounds@.len() - 1) * size < rows,
            forall|i: int|
                0 <= i < bounds@.len() ==> (#[trigger] bounds@[i]).0 == i * size && bounds@[i].1
                    == crate::arith::spec_min((i + 1) * size, rows as int) && bounds@[i].0
                    < bounds@[i].1,
        decreases rows - start,
    {
        let end: usize = if rows - start <= size {
            rows
        } else {
            start + size
        };
        proof {
            let count = bounds@.len() as int;
            assert((count + 1) * size == count * size + size) by (nonlinear_arith);
        }
        bounds.push((start, end));
        start = end;
    }
    proof {
        let count = bounds@.len() as int;
        assert((count - 1) * size == count * size - size) by (nonlinear_arith);
        assert(count * size >= rows);
        vstd::arithmetic::div_mod::lemma_fundamental_div_mod_converse(
            rows + size - 1,
            size as int,
            count,
            rows + size - 1 - count * size,
        );
    }
    bounds
}

/// The revisions of rows.
pub open spec fn versions_of(source: VectorIndex, rows: Seq<int>) -> Seq<u64> {
    Seq::new(rows.len(), |i: int| source.versions@[rows[i]])
}

/// Pages of assigned rows, not validated yet.
pub open spec fn assembled(
    source: VectorIndex,
    config: IvfPqConfig,
    coarse: Seq<Vec<u32>>,
    codebooks: Seq<Vec<Vec<u32>>>,
    assignments: Seq<u32>,
    columns: Seq<Vec<u32>>,
    pages: IvfPqIndex,
) -> bool {
    let rows = active_rows_of(source.active@, source.active@.len() as int);
    &&& pages.config == config
    &&& pages.dimension == source.dimension
    &&& pages.similarity == source.similarity
    &&& pages.coarse@ == coarse
    &&& pages.codebooks@ == codebooks
    &&& pages.rows@ == Seq::new(rows.len(), |i: int| rows[i] as u32)
    &&& pages.codes@ == interleaved(columns, rows.len() as int)
    &&& pages.built_versions@ == versions_of(source, rows)
    &&& pages.list_offsets@ == row_offsets(all_members(assignments, coarse.len() as int))
    &&& pages.list_positions@ == flat(all_members(assignments, coarse.len() as int))
    &&& pages.recall_basis_points == 0
    &&& pages.validation_queries == 0
    &&& pages.build_generation@ == Seq::new(32, |i: int| 0u8)
}

/// The kernel assigned every row that counts to a list, each time it was asked, and gave every subspace
/// a code for it.
pub open spec fn build_fits(
    source: VectorIndex,
    lists: int,
    assignments: Seq<u32>,
    published: Seq<u32>,
    columns: Seq<Vec<u32>>,
) -> bool {
    let rows = active_rows_of(source.active@, source.active@.len() as int).len() as int;
    &&& assigned(assignments, rows, lists)
    &&& assigned(published, rows, lists)
    &&& forall|subspace: int|
        0 <= subspace < columns.len() ==> (#[trigger] columns[subspace])@.len() == rows
}

/// Makes pages from trained centroids, the list of every row that counts, and its codes by subspace.
/// The lists are counted by one assignment and filled by a second one. Centroids are bits of IEEE 754
/// singles.
pub fn assemble_pages(
    source: &VectorIndex,
    config: IvfPqConfig,
    coarse: Vec<Vec<u32>>,
    codebooks: Vec<Vec<Vec<u32>>>,
    assignments: &[u32],
    published: &[u32],
    columns: &Vec<Vec<u32>>,
) -> (result: Result<IvfPqIndex>)
    requires
        source.wf(),
    ensures
        ({
            let rows = active_rows_of(source.active@, source.active@.len() as int);
            if !build_fits(*source, coarse@.len() as int, assignments@, published@, columns@) {
                fails_with(
                    result,
                    ErrorCode::IndexUnavailable,
                    "IVF-PQ build kernel returned an invalid assignment vector"@,
                )
            } else if !codes_fit(columns@, rows.len() as int) {
                fails_with(result, ErrorCode::IndexUnavailable, "PQ code exceeds one byte"@)
            } else if exists|i: int| 0 <= i < rows.len() && #[trigger] rows[i] > u32::MAX {
                fails_with(
                    result,
                    ErrorCode::ResultBudgetExceeded,
                    "IVF source row exceeds the device image limit"@,
                )
            } else if rows.len() > u32::MAX {
                fails_with(result, ErrorCode::IndexUnavailable, "IVF postings exceed u32"@)
            } else {
                match publication_fault(assignments@, published@, coarse@.len() as int) {
                    Some(message) => fails_with(result, ErrorCode::CorruptStorage, message),
                    None => result matches Ok(pages) && assembled(
                        *source,
                        config,
                        coarse@,
                        codebooks@,
                        published@,
                        columns@,
                        pages,
                    ),
                }
            }
        }),
{
    let active = source.active_rows();
    let ghost rows = active_rows_of(source.active@, source.active@.len() as int);
    assert(rows.len() == active@.len());
    match check_assignments(assignments, active.len(), coarse.len()) {
        Ok(_) => {},
        Err(error) => {
            return Err(error);
        },
    }
    match check_assignments(published, active.len(), coarse.len()) {
        Ok(_) => {},
        Err(error) => {
            return Err(error);
        },
    }
    for subspace in 0..columns.len()
        invariant
            rows == active_rows_of(source.active@, source.active@.len() as int),
            rows.len() == active@.len(),
            forall|i: int|
                0 <= i < subspace ==> (#[trigger] columns@[i])@.len() == active@.len(),
    {
        if columns[subspace].len() != active.len() {
            assert(columns@[subspace as int]@.len() != active@.len());
            return Err(
                Error::new(
                    ErrorCode::IndexUnavailable,
                    "IVF-PQ build kernel returned an invalid assignment vector",
                ),
            );
        }
    }
    let codes = match interleave_codes(columns, active.len()) {
        Ok(codes) => codes,
        Err(error) => {
            return Err(error);
        },
    };
    let mut row_numbers: Vec<u32> = Vec::with_capacity(active.len());
    let mut built_versions: Vec<u64> = Vec::with_capacity(active.len());
    for index in 0..active.len()
        invariant
            source.wf(),
            rows == active_rows_of(source.active@, source.active@.len() as int),
            rows == as_rows(active@),
            build_fits(*source, coarse@.len() as int, assignments@, published@, columns@),
            codes_fit(columns@, rows.len() as int),
            forall|i: int|
                0 <= i < active@.len() ==> (#[trigger] active@[i]) < source.active@.len(),
            forall|i: int| 0 <= i < index ==> #[trigger] rows[i] <= u32::MAX,
            row_numbers@ == Seq::new(index as nat, |i: int| rows[i] as u32),
            built_versions@ == Seq::new(index as nat, |i: int| source.versions@[rows[i]]),
    {
        let row: usize = active[index];
        assert(active@[index as int] < source.active@.len());
        assert(rows[index as int] == row);
        if row as u64 > u32::MAX as u64 {
            return Err(
                Error::new(
                    ErrorCode::ResultBudgetExceeded,
                    "IVF source row exceeds the device image limit",
                ),
            );
        }
        row_numbers.push(row as u32);
        match source.versions.get(row) {
            Some(version) => {
                built_versions.push(*version);
            },
            None => {
                assert(false);
            },
        }
        assert(row_numbers@ =~= Seq::new((index + 1) as nat, |i: int| rows[i] as u32));
        assert(built_versions@ =~= Seq::new(
            (index + 1) as nat,
            |i: int| source.versions@[rows[i]],
        ));
    }
    let (list_offsets, list_positions) = match publish_counted_lists(
        assignments,
        published,
        coarse.len(),
    ) {
        Ok(parts) => parts,
        Err(error) => {
            return Err(error);
        },
    };
    let build_generation: [u8; 32] = [0u8; 32];
    assert(build_generation@ =~= Seq::new(32, |i: int| 0u8));
    assert(built_versions@ =~= versions_of(*source, rows));
    Ok(
        IvfPqIndex {
            config,
            dimension: source.dimension,
            similarity: source.similarity,
            coarse,
            codebooks,
            rows: row_numbers,
            codes,
            list_offsets,
            list_positions,
            built_versions,
            recall_basis_points: 0,
            validation_queries: 0,
            build_generation,
        },
    )
}

/// How many positions below a bound the lists hold together.
spec fn members_below(assignments: Seq<u32>, lists: int, count: int) -> Seq<Seq<u32>> {
    Seq::new(lists as nat, |list: int| list_members(assignments, list, count))
}

proof fn lemma_flat_len_update(rows: Seq<Seq<u32>>, place: int, value: Seq<u32>)
    requires
        0 <= place < rows.len(),
        value.len() == rows[place].len() + 1,
    ensures
        flat(rows.update(place, value)).len() == flat(rows).len() + 1,
    decreases rows.len(),
{
    let changed = rows.update(place, value);
    if place == rows.len() - 1 {
        assert(changed.drop_last() =~= rows.drop_last());
    } else {
        lemma_flat_len_update(rows.drop_last(), place, value);
        assert(changed.drop_last() =~= rows.drop_last().update(place, value));
    }
}

proof fn lemma_flat_empty(rows: Seq<Seq<u32>>)
    requires
        forall|i: int| 0 <= i < rows.len() ==> (#[trigger] rows[i]).len() == 0,
    ensures
        flat(rows).len() == 0,
    decreases rows.len(),
{
    if rows.len() > 0 {
        lemma_flat_empty(rows.drop_last());
    }
}

proof fn lemma_members_below(assignments: Seq<u32>, lists: int, count: int)
    requires
        0 <= count <= assignments.len(),
        assigned(assignments, assignments.len() as int, lists),
    ensures
        flat(members_below(assignments, lists, count)).len() == count,
    decreases count,
{
    let now = members_below(assignments, lists, count);
    if count == 0 {
        lemma_flat_empty(now);
    } else {
        lemma_members_below(assignments, lists, count - 1);
        let before = members_below(assignments, lists, count - 1);
        let list = assignments[count - 1] as int;
        let value = list_members(assignments, list, count);
        assert(now =~= before.update(list, value));
        lemma_flat_len_update(before, list, value);
    }
}

/// Every position is in exactly one list.
proof fn lemma_members_total(assignments: Seq<u32>, lists: int)
    requires
        assigned(assignments, assignments.len() as int, lists),
    ensures
        flat(all_members(assignments, lists)).len() == assignments.len(),
{
    lemma_members_below(assignments, lists, assignments.len() as int);
    assert(members_below(assignments, lists, assignments.len() as int) =~= all_members(
        assignments,
        lists,
    ));
}

/// The lists hold every assigned position once.
pub proof fn law_lists_hold_every_row(assignments: Seq<u32>, lists: int, position: int)
    requires
        assigned(assignments, assignments.len() as int, lists),
        assignments.len() <= u32::MAX,
        0 <= position < assignments.len(),
    ensures
        flat(all_members(assignments, lists)).len() == assignments.len(),
        list_members(
            assignments,
            assignments[position] as int,
            assignments.len() as int,
        ).contains(position as u32),
{
    lemma_members_total(assignments, lists);
    lemma_member(assignments, position, assignments.len() as int);
}

proof fn lemma_member(assignments: Seq<u32>, position: int, count: int)
    requires
        0 <= position < count <= assignments.len(),
        assignments.len() <= u32::MAX,
    ensures
        list_members(assignments, assignments[position] as int, count).contains(position as u32),
    decreases count,
{
    let list = assignments[position] as int;
    let now = list_members(assignments, list, count);
    if position == count - 1 {
        assert(now[now.len() - 1] == position as u32);
    } else {
        lemma_member(assignments, position, count - 1);
        let before = list_members(assignments, list, count - 1);
        let i = choose|i: int| 0 <= i < before.len() && before[i] == position as u32;
        assert(now[i] == position as u32);
    }
}

/// A list holds the positions that were assigned to it, and no others.
pub proof fn law_lists_hold_their_rows_only(
    assignments: Seq<u32>,
    list: int,
    count: int,
    place: int,
)
    requires
        0 <= count <= assignments.len() <= u32::MAX,
        0 <= place < list_members(assignments, list, count).len(),
    ensures
        list_members(assignments, list, count)[place] < count,
        assignments[list_members(assignments, list, count)[place] as int] == list,
    decreases count,
{
    let before = list_members(assignments, list, count - 1);
    if count > 0 && place < before.len() {
        law_lists_hold_their_rows_only(assignments, list, count - 1, place);
    }
}

/// The codes of a row stand together, in the order of their subspaces, and the rows one after another.
pub proof fn law_codes_stand_row_by_row(columns: Seq<Vec<u32>>, rows: int, row: int, subspace: int)
    requires
        0 <= row < rows,
        0 <= subspace < columns.len(),
    ensures
        interleaved(columns, rows).len() == rows * columns.len(),
        row * columns.len() + subspace < interleaved(columns, rows).len(),
        interleaved(columns, rows)[row * columns.len() + subspace]
            == columns[subspace]@[row] as u8,
    decreases rows,
{
    lemma_interleaved_len(columns, rows);
    lemma_interleaved_len(columns, rows - 1);
    let width = columns.len() as int;
    assert(rows * width == (rows - 1) * width + width) by (nonlinear_arith);
    if row < rows - 1 {
        law_codes_stand_row_by_row(columns, rows - 1, row, subspace);
    }
}

proof fn lemma_interleaved_len(columns: Seq<Vec<u32>>, rows: int)
    requires
        0 <= rows,
    ensures
        interleaved(columns, rows).len() == rows * columns.len(),
    decreases rows,
{
    let width = columns.len() as int;
    assert(rows * width == (rows - 1) * width + width) by (nonlinear_arith);
    if rows > 0 {
        lemma_interleaved_len(columns, rows - 1);
    } else {
        assert(rows * width == 0) by (nonlinear_arith)
            requires
                rows == 0,
        ;
    }
}

} // verus!
