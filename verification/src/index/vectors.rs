//! Contiguous vector matrix with stable identities and per-row revisions.

use crate::algorithms::traversal::{lemma_marked_step, marked};
use crate::error::{fails_with, Error, ErrorCode, Result};
use crate::persistent::paged::PagedVec;
use crate::persistent::radix::PersistentMap;
use crate::values::PropertyId;
use vstd::prelude::*;

verus! {

/// Vector comparison semantics fixed by the project embedding profile.
#[derive(Clone, Copy, Debug, PartialEq, Eq, Structural)]
pub enum Similarity {
    Cosine,
    Dot,
    Euclidean,
}

/// How coordinates are held.
#[derive(Clone, Copy, Debug, PartialEq, Eq, Structural)]
pub enum EmbeddingDType {
    F16,
    Bf16,
}

/// The exponent of the coordinate is not the one of infinities and of what is not a number.
pub open spec fn finite_bits(dtype: EmbeddingDType, bits: u16) -> bool {
    match dtype {
        EmbeddingDType::F16 => bits as int / 1024 % 32 != 31,
        EmbeddingDType::Bf16 => bits as int / 128 % 256 != 255,
    }
}

/// Whether a coordinate is neither infinite nor not a number.
pub fn is_finite(dtype: EmbeddingDType, bits: u16) -> (finite: bool)
    ensures
        finite == finite_bits(dtype, bits),
{
    match dtype {
        EmbeddingDType::F16 => bits / 1024 % 32 != 31,
        EmbeddingDType::Bf16 => bits / 128 % 256 != 255,
    }
}

/// Contiguous vector matrix with stable identities and per-row revisions. Coordinates are the bits of
/// 16-bit floats.
pub struct VectorIndex {
    pub dimension: usize,
    pub similarity: Similarity,
    pub dtype: EmbeddingDType,
    pub entity_ids: PagedVec<u64>,
    pub values: PagedVec<u16>,
    pub versions: PagedVec<u64>,
    pub active: PagedVec<bool>,
    pub rows: PersistentMap<usize>,
}

/// Storage of a vector column that lies in shared allocations.
pub struct SharedVectorBacking {
    pub property: PropertyId,
    pub dimension: usize,
    pub entity_ids: PagedVec<u64>,
    pub values: PagedVec<u16>,
    pub versions: PagedVec<u64>,
    pub active: PagedVec<bool>,
}

/// A vector matrix as one device-resident column.
pub struct VectorDeviceImage {
    pub property: PropertyId,
    pub dimension: usize,
    pub similarity: Similarity,
    pub dtype: EmbeddingDType,
    pub entity_ids: Vec<u64>,
    pub values: Vec<u16>,
    pub versions: Vec<u64>,
    pub active: Vec<u8>,
}

/// One vector: its coordinates, its revision and whether it counts.
pub struct StoredVector {
    pub coordinates: Seq<u16>,
    pub revision: u64,
    pub active: bool,
}

pub(crate) fn same_similarity(left: Similarity, right: Similarity) -> (same: bool)
    ensures
        same == (left == right),
{
    match (left, right) {
        (Similarity::Euclidean, Similarity::Euclidean) => true,
        (Similarity::Dot, Similarity::Dot) => true,
        (Similarity::Cosine, Similarity::Cosine) => true,
        _ => false,
    }
}

/// Coordinates that fit a profile.
pub open spec fn coordinates_fit(
    dimension: int,
    dtype: EmbeddingDType,
    coordinates: Seq<u16>,
) -> bool {
    coordinates.len() == dimension && forall|i: int|
        0 <= i < coordinates.len() ==> finite_bits(dtype, #[trigger] coordinates[i])
}

pub(crate) fn check_coordinates(
    dimension: usize,
    dtype: EmbeddingDType,
    coordinates: &[u16],
) -> (fit: bool)
    ensures
        fit == coordinates_fit(dimension as int, dtype, coordinates@),
{
    if coordinates.len() != dimension {
        return false;
    }
    for index in 0..coordinates.len()
        invariant
            forall|i: int| 0 <= i < index ==> finite_bits(dtype, #[trigger] coordinates@[i]),
    {
        if !is_finite(dtype, coordinates[index]) {
            assert(!finite_bits(dtype, coordinates@[index as int]));
            return false;
        }
    }
    true
}

/// The coordinates of one row of a matrix.
pub open spec fn matrix_row(values: Seq<u16>, dimension: int, row: int) -> Seq<u16> {
    values.subrange(row * dimension, row * dimension + dimension)
}

proof fn lemma_row_inside(rows: int, dimension: int, row: int)
    requires
        0 <= row < rows,
        0 <= dimension,
    ensures
        0 <= row * dimension,
        row * dimension + dimension <= rows * dimension,
{
    assert(row * dimension + dimension == (row + 1) * dimension) by (nonlinear_arith);
    assert((row + 1) * dimension <= rows * dimension) by (nonlinear_arith)
        requires
            row + 1 <= rows,
            0 <= dimension,
    ;
    assert(0 <= row * dimension) by (nonlinear_arith)
        requires
            0 <= row,
            0 <= dimension,
    ;
}

/// Rows of a matrix do not overlap.
proof fn lemma_rows_apart(rows: int, dimension: int, left: int, right: int)
    requires
        0 <= left < right < rows,
        0 <= dimension,
    ensures
        left * dimension + dimension <= right * dimension,
{
    lemma_row_inside(right + 1, dimension, right);
    assert(left * dimension + dimension == (left + 1) * dimension) by (nonlinear_arith);
    assert((left + 1) * dimension <= right * dimension) by (nonlinear_arith)
        requires
            left + 1 <= right,
            0 <= dimension,
    ;
}

impl Clone for VectorIndex {
    fn clone(&self) -> (copy: Self)
        ensures
            copy == *self,
    {
        VectorIndex {
            dimension: self.dimension,
            similarity: self.similarity,
            dtype: self.dtype,
            entity_ids: self.entity_ids.clone(),
            values: self.values.clone(),
            versions: self.versions.clone(),
            active: self.active.clone(),
            rows: self.rows.clone(),
        }
    }
}

impl VectorIndex {
    /// Every part can be read, whatever its length.
    pub open spec fn readable(&self) -> bool {
        &&& self.entity_ids.wf()
        &&& self.values.wf()
        &&& self.versions.wf()
        &&& self.active.wf()
        &&& self.rows.wf()
    }

    /// Rows of the matrix.
    pub open spec fn row_total(&self) -> int {
        self.entity_ids@.len() as int
    }

    /// Parts of the right length, finite coordinates, and a row for each identity.
    pub open spec fn wf(&self) -> bool {
        &&& self.readable()
        &&& self.dimension > 0
        &&& self.values@.len() == self.row_total() * self.dimension
        &&& self.versions@.len() == self.row_total()
        &&& self.active@.len() == self.row_total()
        &&& forall|i: int|
            0 <= i < self.values@.len() ==> finite_bits(self.dtype, #[trigger] self.values@[i])
        &&& forall|row: int|
            0 <= row < self.row_total() ==> self.rows@.dom().contains(
                (#[trigger] self.entity_ids@[row]) as u128,
            ) && self.rows@[self.entity_ids@[row] as u128] == row
        &&& forall|key: u128| #[trigger]
            self.rows@.dom().contains(key) ==> self.rows@[key] < self.row_total()
                && self.entity_ids@[self.rows@[key] as int] as u128 == key
    }

    /// What a row holds.
    pub open spec fn row(&self, row: int) -> StoredVector {
        StoredVector {
            coordinates: matrix_row(self.values@, self.dimension as int, row),
            revision: self.versions@[row],
            active: self.active@[row],
        }
    }

    /// The vector of an identity.
    pub open spec fn vector(&self, entity: u64) -> Option<StoredVector> {
        if self.rows@.dom().contains(entity as u128) {
            Some(self.row(self.rows@[entity as u128] as int))
        } else {
            None
        }
    }

    /// The identity has a vector that counts.
    pub open spec fn counts(&self, entity: u64) -> bool {
        self.vector(entity) matches Some(vector) && vector.active
    }

    pub fn new(dimension: usize, similarity: Similarity) -> (result: Result<Self>)
        ensures
            is_new(result, dimension, similarity, EmbeddingDType::F16),
    {
        VectorIndex::new_with_dtype(dimension, similarity, EmbeddingDType::F16)
    }

    pub fn new_with_dtype(
        dimension: usize,
        similarity: Similarity,
        dtype: EmbeddingDType,
    ) -> (result: Result<Self>)
        ensures
            is_new(result, dimension, similarity, dtype),
    {
        if dimension == 0 {
            return Err(
                Error::new(
                    ErrorCode::EmbeddingProfileMismatch,
                    "vector dimension must be positive",
                ),
            );
        }
        let index = VectorIndex {
            dimension,
            similarity,
            dtype,
            entity_ids: PagedVec::default(),
            values: PagedVec::default(),
            versions: PagedVec::default(),
            active: PagedVec::default(),
            rows: PersistentMap::default(),
        };
        assert(0 * dimension == 0) by (nonlinear_arith);
        Ok(index)
    }

    /// Rebinds the parts to shared storage of the same shape.
    pub fn rebind_shared(&mut self, backing: SharedVectorBacking) -> (result: Result<()>)
        ensures
            if old(self).dimension == backing.dimension && old(self).entity_ids@.len()
                == backing.entity_ids@.len() && old(self).values@.len() == backing.values@.len()
                && old(self).versions@.len() == backing.versions@.len() && old(self).active@.len()
                == backing.active@.len() {
                &&& result is Ok
                &&& *final(self) == (VectorIndex {
                    entity_ids: backing.entity_ids,
                    values: backing.values,
                    versions: backing.versions,
                    active: backing.active,
                    ..*old(self)
                })
            } else {
                fails_with(
                    result,
                    ErrorCode::CorruptStorage,
                    "shared vector backing does not match the canonical vector column"@,
                ) && *final(self) == *old(self)
            },
    {
        if self.dimension != backing.dimension || self.entity_ids.len() != backing.entity_ids.len()
            || self.values.len() != backing.values.len() || self.versions.len()
            != backing.versions.len() || self.active.len() != backing.active.len() {
            return Err(
                Error::new(
                    ErrorCode::CorruptStorage,
                    "shared vector backing does not match the canonical vector column",
                ),
            );
        }
        self.entity_ids = backing.entity_ids;
        self.values = backing.values;
        self.versions = backing.versions;
        self.active = backing.active;
        Ok(())
    }

    /// Parts whose lengths belong together.
    pub open spec fn consistent(&self) -> bool {
        &&& self.values@.len() == self.row_total() * self.dimension
        &&& self.versions@.len() == self.row_total()
        &&& self.active@.len() == self.row_total()
    }

    /// The matrix as one device-resident column.
    pub fn device_image(&self, property: PropertyId) -> (result: Result<VectorDeviceImage>)
        requires
            self.readable(),
        ensures
            if self.row_total() * self.dimension > usize::MAX {
                fails_with(result, ErrorCode::CorruptStorage, "vector shape overflow"@)
            } else if !self.consistent() {
                fails_with(
                    result,
                    ErrorCode::CorruptStorage,
                    "canonical vector matrix is structurally inconsistent"@,
                )
            } else {
                result matches Ok(image) && {
                    &&& image.property == property
                    &&& image.dimension == self.dimension
                    &&& image.similarity == self.similarity
                    &&& image.dtype == self.dtype
                    &&& image.entity_ids@ == self.entity_ids@
                    &&& image.values@ == self.values@
                    &&& image.versions@ == self.versions@
                    &&& image.active@ == Seq::new(
                        self.active@.len(),
                        |row: int|
                            if self.active@[row] {
                                1u8
                            } else {
                                0u8
                            },
                    )
                }
            },
    {
        let total: usize = self.entity_ids.len();
        let shape: usize = match total.checked_mul(self.dimension) {
            Some(shape) => shape,
            None => {
                return Err(Error::new(ErrorCode::CorruptStorage, "vector shape overflow"));
            },
        };
        if self.values.len() != shape || self.versions.len() != total || self.active.len() != total {
            return Err(
                Error::new(
                    ErrorCode::CorruptStorage,
                    "canonical vector matrix is structurally inconsistent",
                ),
            );
        }
        let mut active: Vec<u8> = Vec::with_capacity(total);
        for row in 0..total
            invariant
                self.active.wf(),
                total == self.active@.len(),
                active.len() == row,
                forall|i: int|
                    0 <= i < row ==> #[trigger] active@[i] == if self.active@[i] {
                        1u8
                    } else {
                        0u8
                    },
        {
            let byte: u8 = match self.active.get(row) {
                Some(flag) => if *flag {
                    1
                } else {
                    0
                },
                None => 0,
            };
            active.push(byte);
        }
        assert(active@ =~= Seq::new(
            self.active@.len(),
            |row: int|
                if self.active@[row] {
                    1u8
                } else {
                    0u8
                },
        ));
        Ok(
            VectorDeviceImage {
                property,
                dimension: self.dimension,
                similarity: self.similarity,
                dtype: self.dtype,
                entity_ids: self.entity_ids.to_vec(),
                values: self.values.to_vec(),
                versions: self.versions.to_vec(),
                active,
            },
        )
    }

    /// Stores a vector under an identity. A known identity keeps its row.
    #[verifier::rlimit(60)]
    #[verifier::spinoff_prover]
    pub fn upsert_quantized(&mut self, entity_id: u64, coordinates: &[u16], revision: u64) -> (
        result: Result<()>)
        requires
            old(self).wf(),
            !old(self).rows@.dom().contains(entity_id as u128) ==> (old(self).row_total() + 1)
                * old(self).dimension <= usize::MAX && old(self).row_total() < usize::MAX,
        ensures
            final(self).wf(),
            if coordinates_fit(old(self).dimension as int, old(self).dtype, coordinates@) {
                &&& result is Ok
                &&& same_profile(*old(self), *final(self))
                &&& final(self).vector(entity_id) == Some(
                    StoredVector { coordinates: coordinates@, revision, active: true },
                )
                &&& forall|other: u64|
                    other != entity_id ==> #[trigger] final(self).vector(other) == old(
                        self).vector(other)
                &&& final(self).entity_ids@ == if old(self).rows@.dom().contains(entity_id as u128) {
                    old(self).entity_ids@
                } else {
                    old(self).entity_ids@.push(entity_id)
                }
                &&& marked(final(self).active@) == marked(old(self).active@) + if old(
                    self,
                ).counts(entity_id) {
                    0int
                } else {
                    1
                }
            } else {
                &&& fails_with(
                    result,
                    ErrorCode::EmbeddingProfileMismatch,
                    "quantized vector is incompatible with the embedding profile"@,
                )
                &&& *final(self) == *old(self)
            },
    {
        if !check_coordinates(self.dimension, self.dtype, coordinates) {
            return Err(
                Error::new(
                    ErrorCode::EmbeddingProfileMismatch,
                    "quantized vector is incompatible with the embedding profile",
                ),
            );
        }
        let ghost before = *self;
        let dimension: usize = self.dimension;
        let found: Option<usize> = match self.rows.get(entity_id as u128) {
            Some(row) => Some(*row),
            None => None,
        };
        match found {
            Some(row) => {
                let size: usize = self.values.len();
                proof {
                    lemma_row_inside(before.row_total(), dimension as int, row as int);
                }
                let start: usize = row * dimension;
                for offset in 0..dimension
                    invariant
                        before.wf(),
                        dimension == before.dimension,
                        coordinates@.len() == dimension,
                        row < before.row_total(),
                        start == row * dimension,
                        size == before.values@.len(),
                        start + dimension <= size,
                        self.values.wf(),
                        self.values@.len() == before.values@.len(),
                        *self == (VectorIndex { values: self.values, ..before }),
                        forall|i: int|
                            0 <= i < before.values@.len() ==> #[trigger] self.values@[i] == if start
                                <= i < start + offset {
                                coordinates@[i - start]
                            } else {
                                before.values@[i]
                            },
                {
                    let _ = self.values.replace(start + offset, coordinates[offset]);
                }
                let _ = self.versions.replace(row, revision);
                let _ = self.active.replace(row, true);
                proof {
                    if before.active@[row as int] {
                        assert(self.active@ =~= before.active@);
                    } else {
                        lemma_marked_step(before.active@, row as int);
                    }
                    assert(matrix_row(self.values@, dimension as int, row as int)
                        =~= coordinates@);
                    assert forall|other: u64| other != entity_id implies #[trigger] self.vector(
                        other,
                    ) == before.vector(other) by {
                        if before.rows@.dom().contains(other as u128) {
                            let place = before.rows@[other as u128] as int;
                            assert(place != row);
                            lemma_row_inside(before.row_total(), dimension as int, place);
                            if place < row {
                                lemma_rows_apart(
                                    before.row_total(),
                                    dimension as int,
                                    place,
                                    row as int,
                                );
                            } else {
                                lemma_rows_apart(
                                    before.row_total(),
                                    dimension as int,
                                    row as int,
                                    place,
                                );
                            }
                            assert(matrix_row(self.values@, dimension as int, place) =~= matrix_row(
                                before.values@,
                                dimension as int,
                                place,
                            ));
                        }
                    }
                }
                Ok(())
            },
            None => {
                let row: usize = self.entity_ids.len();
                proof {
                    assert((row + 1) * dimension == row * dimension + dimension)
                        by (nonlinear_arith);
                }
                self.entity_ids.push(entity_id);
                for offset in 0..dimension
                    invariant
                        dimension == before.dimension,
                        coordinates@.len() == dimension,
                        before.values@.len() + dimension <= usize::MAX,
                        self.values.wf(),
                        self.values@ == before.values@ + coordinates@.take(offset as int),
                        *self == (VectorIndex {
                            values: self.values,
                            entity_ids: self.entity_ids,
                            ..before
                        }),
                        self.entity_ids.wf(),
                        self.entity_ids@ == before.entity_ids@.push(entity_id),
                {
                    self.values.push(coordinates[offset]);
                    assert(self.values@ =~= before.values@ + coordinates@.take(offset + 1));
                }
                assert(coordinates@.take(dimension as int) =~= coordinates@);
                self.versions.push(revision);
                self.active.push(true);
                assert(self.active@.drop_last() =~= before.active@);
                let _ = self.rows.len();
                proof {
                    before.lemma_few_rows();
                }
                let _ = self.rows.insert(entity_id as u128, row);
                proof {
                    assert(self.rows@.dom().contains(entity_id as u128));
                    assert forall|place: int| 0 <= place < self.row_total() implies self.rows@.dom().contains(
                        (#[trigger] self.entity_ids@[place]) as u128,
                    ) && self.rows@[self.entity_ids@[place] as u128] == place by {
                        if place < row {
                            assert(before.rows@.dom().contains(before.entity_ids@[place] as u128));
                        }
                    }
                    assert forall|key: u128| #[trigger] self.rows@.dom().contains(key) implies self.rows@[key]
                        < self.row_total() && self.entity_ids@[self.rows@[key] as int] as u128
                        == key by {
                        if key != entity_id as u128 {
                            assert(before.rows@.dom().contains(key));
                        }
                    }
                    lemma_row_inside(row + 1, dimension as int, row as int);
                    assert(matrix_row(self.values@, dimension as int, row as int) =~= coordinates@);
                    assert forall|other: u64| other != entity_id implies #[trigger] self.vector(
                        other,
                    ) == before.vector(other) by {
                        assert(other as u128 != entity_id as u128);
                        if before.rows@.dom().contains(other as u128) {
                            let place = before.rows@[other as u128] as int;
                            lemma_row_inside(before.row_total(), dimension as int, place);
                            assert(matrix_row(self.values@, dimension as int, place) =~= matrix_row(
                                before.values@,
                                dimension as int,
                                place,
                            ));
                        }
                    }
                }
                Ok(())
            },
        }
    }

    /// There are no more identities than rows.
    proof fn lemma_few_rows(&self)
        requires
            self.wf(),
            self.rows@.dom().finite(),
        ensures
            self.rows@.dom().len() <= self.row_total(),
    {
        let place = |key: u128| self.rows@[key] as int;
        let all = vstd::set_lib::set_int_range(0, self.row_total());
        vstd::set_lib::lemma_int_range(0, self.row_total());
        let image = self.rows@.dom().map(place);
        assert(image.subset_of(all));
        vstd::set_lib::lemma_len_subset(image, all);
        assert forall|a: u128, b: u128|
            self.rows@.dom().contains(a) && self.rows@.dom().contains(b) && #[trigger] place(a)
                == #[trigger] place(b) implies a == b by {
            assert(self.entity_ids@[self.rows@[a] as int] as u128 == a);
            assert(self.entity_ids@[self.rows@[b] as int] as u128 == b);
        }
        vstd::set_lib::lemma_map_size(self.rows@.dom(), image, place);
    }

    /// Makes the vector of an identity count no more.
    pub fn remove(&mut self, entity_id: u64, revision: u64)
        requires
            old(self).wf(),
        ensures
            final(self).wf(),
            same_profile(*old(self), *final(self)),
            final(self).entity_ids@ == old(self).entity_ids@,
            final(self).vector(entity_id) == match old(self).vector(entity_id) {
                Some(vector) => Some(
                    StoredVector { coordinates: vector.coordinates, revision, active: false },
                ),
                None => None,
            },
            forall|other: u64|
                other != entity_id ==> #[trigger] final(self).vector(other) == old(self).vector(
                    other,
                ),
            marked(final(self).active@) == marked(old(self).active@) - if old(self).counts(
                entity_id,
            ) {
                1int
            } else {
                0
            },
    {
        let ghost before = *self;
        let found: Option<usize> = match self.rows.get(entity_id as u128) {
            Some(row) => Some(*row),
            None => None,
        };
        if let Some(row) = found {
            let _ = self.active.replace(row, false);
            let _ = self.versions.replace(row, revision);
            proof {
                if before.active@[row as int] {
                    lemma_marked_step(self.active@, row as int);
                    assert(self.active@.update(row as int, true) =~= before.active@);
                } else {
                    assert(self.active@ =~= before.active@);
                }
                assert forall|other: u64| other != entity_id implies #[trigger] self.vector(other)
                    == before.vector(other) by {
                    if before.rows@.dom().contains(other as u128) {
                        assert(before.rows@[other as u128] != row);
                    }
                }
            }
        }
    }

    pub fn dimension(&self) -> (dimension: usize)
        ensures
            dimension == self.dimension,
    {
        self.dimension
    }

    pub fn similarity(&self) -> (similarity: Similarity)
        ensures
            similarity == self.similarity,
    {
        self.similarity
    }

    pub fn dtype(&self) -> (dtype: EmbeddingDType)
        ensures
            dtype == self.dtype,
    {
        self.dtype
    }

    /// Rows that count.
    pub fn len(&self) -> (len: usize)
        requires
            self.active.wf(),
        ensures
            len == marked(self.active@),
    {
        let total: usize = self.active.len();
        let mut count: usize = 0;
        for row in 0..total
            invariant
                self.active.wf(),
                total == self.active@.len(),
                count <= row,
                count == marked(self.active@.take(row as int)),
        {
            if let Some(active) = self.active.get(row) {
                if *active {
                    count = count + 1;
                }
            }
            assert(self.active@.take(row + 1).drop_last() =~= self.active@.take(row as int));
        }
        assert(self.active@.take(total as int) =~= self.active@);
        count
    }

    pub fn is_empty(&self) -> (empty: bool)
        requires
            self.active.wf(),
        ensures
            empty == (marked(self.active@) == 0),
    {
        self.len() == 0
    }

    /// The coordinates of an identity, if it has any that count.
    pub fn coordinates_for(&self, entity_id: u64) -> (coordinates: Option<Vec<u16>>)
        requires
            self.wf(),
        ensures
            match coordinates {
                Some(coordinates) => self.vector(entity_id) matches Some(vector) && vector.active
                    && vector.coordinates == coordinates@,
                None => self.vector(entity_id) matches Some(vector) ==> !vector.active,
            },
    {
        let row: usize = match self.rows.get(entity_id as u128) {
            Some(row) => *row,
            None => {
                return None;
            },
        };
        let active: bool = match self.active.get(row) {
            Some(active) => *active,
            None => false,
        };
        if !active {
            return None;
        }
        Some(self.row_coordinates(row))
    }

    fn row_coordinates(&self, row: usize) -> (coordinates: Vec<u16>)
        requires
            self.wf(),
            row < self.row_total(),
        ensures
            coordinates@ == matrix_row(self.values@, self.dimension as int, row as int),
    {
        let dimension: usize = self.dimension;
        let size: usize = self.values.len();
        proof {
            lemma_row_inside(self.row_total(), dimension as int, row as int);
        }
        let start: usize = row * dimension;
        let mut coordinates: Vec<u16> = Vec::with_capacity(dimension);
        for offset in 0..dimension
            invariant
                self.wf(),
                dimension == self.dimension,
                start == row * dimension,
                size == self.values@.len(),
                start + dimension <= size,
                coordinates.len() == offset,
                forall|i: int| 0 <= i < offset ==> #[trigger] coordinates@[i] == self.values@[start
                    + i],
        {
            if let Some(bits) = self.values.get(start + offset) {
                coordinates.push(*bits);
            }
        }
        assert(coordinates@ =~= matrix_row(self.values@, dimension as int, row as int));
        coordinates
    }
}

/// The rows that a filter keeps: those that count and whose identity is wanted.
pub open spec fn kept_row(index: VectorIndex, retained: Map<u128, ()>, row: int) -> bool {
    0 <= row < index.row_total() && index.active@[row] && retained.dom().contains(
        index.entity_ids@[row] as u128,
    )
}

/// What a filter leaves of the first rows, and where each of them went.
pub open spec fn filtered_rows(
    before: VectorIndex,
    retained: Map<u128, ()>,
    count: int,
    after: VectorIndex,
    remap: Map<u128, u32>,
) -> bool {
    &&& same_profile(before, after)
    &&& forall|key: u128| #[trigger]
        remap.dom().contains(key) <==> key < count && kept_row(before, retained, key as int)
    &&& forall|key: u128| #[trigger]
        remap.dom().contains(key) ==> remap[key] < after.row_total()
            && after.entity_ids@[remap[key] as int] == before.entity_ids@[key as int]
            && after.row(remap[key] as int) == before.row(key as int)
    &&& forall|low: u128, high: u128|
        #![trigger remap.dom().contains(low), remap.dom().contains(high)]
        remap.dom().contains(low) && remap.dom().contains(high) && low < high ==> remap[low]
            < remap[high]
    &&& forall|entity: u64|
        #![trigger after.rows@.dom().contains(entity as u128)]
        after.rows@.dom().contains(entity as u128) ==> before.rows@.dom().contains(entity as u128)
            && remap.dom().contains(before.rows@[entity as u128] as u128)
}

impl VectorIndex {
    /// Keeps the vectors that count and whose identity is wanted, in their order, and says where each
    /// row went.
    #[verifier::rlimit(60)]
    #[verifier::spinoff_prover]
    pub fn retain_entities(&mut self, retained: &PersistentMap<()>) -> (result: Result<
        PersistentMap<u32>,
    >)
        requires
            old(self).wf(),
            retained.wf(),
        ensures
            match result {
                Ok(remap) => {
                    &&& final(self).wf()
                    &&& remap.wf()
                    &&& filtered_rows(
                        *old(self),
                        retained@,
                        old(self).row_total(),
                        *final(self),
                        remap@,
                    )
                },
                Err(error) => {
                    &&& *final(self) == *old(self)
                    &&& old(self).row_total() > u32::MAX
                    &&& error.is(
                        ErrorCode::ResultBudgetExceeded,
                        "filtered vector row exceeds device index width"@,
                    )
                },
            },
    {
        let mut filtered = match VectorIndex::new_with_dtype(
            self.dimension,
            self.similarity,
            self.dtype,
        ) {
            Ok(filtered) => filtered,
            Err(error) => {
                assert(false);
                return Err(error);
            },
        };
        let mut remap: PersistentMap<u32> = PersistentMap::default();
        let total: usize = self.entity_ids.len();
        let size: usize = self.values.len();
        proof {
            assert forall|entity: u64| !#[trigger] filtered.rows@.dom().contains(
                entity as u128,
            ) by {
                assert(filtered.vector(entity) is None);
            }
        }
        for row in 0..total
            invariant
                *self == *old(self),
                self.wf(),
                retained.wf(),
                total == self.row_total(),
                size == self.values@.len(),
                filtered.wf(),
                filtered.row_total() <= row,
                filtered.row_total() <= u32::MAX as int + 1,
                remap.wf(),
                remap@.dom().finite() ==> remap@.dom().len() <= row,
                filtered_rows(*self, retained@, row as int, filtered, remap@),
                forall|key: u128| #[trigger]
                    remap@.dom().contains(key) ==> remap@[key] < filtered.row_total(),
        {
            let entity: u64 = match self.entity_ids.get(row) {
                Some(entity) => *entity,
                None => 0,
            };
            let active: bool = match self.active.get(row) {
                Some(active) => *active,
                None => false,
            };
            let ghost before = filtered;
            let ghost known = remap@;
            assert(self.rows@.dom().contains(self.entity_ids@[row as int] as u128));
            if active && retained.contains_key(entity as u128) {
                let coordinates = self.row_coordinates(row);
                let revision: u64 = match self.versions.get(row) {
                    Some(revision) => *revision,
                    None => 0,
                };
                let next: usize = filtered.entity_ids.len();
                if next as u64 > u32::MAX as u64 {
                    return Err(
                        Error::new(
                            ErrorCode::ResultBudgetExceeded,
                            "filtered vector row exceeds device index width",
                        ),
                    );
                }
                proof {
                    lemma_row_inside(self.row_total(), self.dimension as int, row as int);
                    assert((next + 1) * self.dimension <= total * self.dimension)
                        by (nonlinear_arith)
                        requires
                            next + 1 <= total,
                            self.dimension >= 0,
                    ;
                    assert forall|i: int| 0 <= i < coordinates@.len() implies finite_bits(
                        self.dtype,
                        #[trigger] coordinates@[i],
                    ) by {
                        assert(coordinates@[i] == self.values@[row * self.dimension + i]);
                    }
                    assert(!filtered.rows@.dom().contains(entity as u128)) by {
                        if filtered.rows@.dom().contains(entity as u128) {
                            assert(self.rows@[entity as u128] == row);
                            assert(remap@.dom().contains(row as u128));
                        }
                    }
                }
                match filtered.upsert_quantized(entity, coordinates.as_slice(), revision) {
                    Ok(_) => {},
                    Err(error) => {
                        assert(false);
                        return Err(error);
                    },
                }
                let _ = remap.len();
                let _ = remap.insert(row as u128, next as u32);
                proof {
                    lemma_filter_step(
                        *self,
                        retained@,
                        row as int,
                        before,
                        filtered,
                        known,
                        remap@,
                        entity,
                        next as u32,
                    );
                }
            } else {
                proof {
                    assert(!kept_row(*self, retained@, row as int));
                }
            }
        }
        *self = filtered;
        Ok(remap)
    }
}

#[verifier::rlimit(40)]
#[verifier::spinoff_prover]
proof fn lemma_filter_step(
    source: VectorIndex,
    retained: Map<u128, ()>,
    row: int,
    before: VectorIndex,
    after: VectorIndex,
    known: Map<u128, u32>,
    remap: Map<u128, u32>,
    entity: u64,
    next: u32,
)
    requires
        source.wf(),
        before.wf(),
        after.wf(),
        kept_row(source, retained, row),
        row <= usize::MAX,
        entity == source.entity_ids@[row],
        filtered_rows(source, retained, row, before, known),
        next == before.row_total(),
        remap == known.insert(row as u128, next),
        same_profile(before, after),
        !before.rows@.dom().contains(entity as u128),
        after.entity_ids@ == before.entity_ids@.push(entity),
        after.vector(entity) == Some(
            StoredVector {
                coordinates: matrix_row(source.values@, source.dimension as int, row),
                revision: source.versions@[row],
                active: true,
            },
        ),
        forall|other: u64|
            other != entity ==> #[trigger] after.vector(other) == before.vector(other),
    ensures
        filtered_rows(source, retained, row + 1, after, remap),
        forall|key: u128| #[trigger] remap.dom().contains(key) ==> remap[key] < after.row_total(),
{
    assert(after.entity_ids@[next as int] == entity);
    assert(after.rows@[entity as u128] == next);
    assert(source.rows@.dom().contains(source.entity_ids@[row] as u128));
    assert(source.rows@[entity as u128] == row);
    assert forall|key: u128| #[trigger] remap.dom().contains(key) <==> key < row + 1 && kept_row(
        source,
        retained,
        key as int,
    ) by {
        if key != row as u128 {
            assert(remap.dom().contains(key) == known.dom().contains(key));
        }
    }
    assert forall|key: u128| #[trigger] remap.dom().contains(key) implies remap[key]
        < after.row_total() && after.entity_ids@[remap[key] as int]
        == source.entity_ids@[key as int] && after.row(remap[key] as int) == source.row(
        key as int,
    ) by {
        if key != row as u128 {
            assert(known.dom().contains(key));
            let place = known[key] as int;
            let other = before.entity_ids@[place];
            assert(before.rows@.dom().contains(before.entity_ids@[place] as u128));
            assert(before.rows@[other as u128] == place);
            assert(other != entity);
            assert(after.vector(other) == before.vector(other));
            assert(after.entity_ids@[place] == other);
            assert(after.rows@.dom().contains(after.entity_ids@[place] as u128));
            assert(after.rows@[other as u128] == place);
        }
    }
    assert forall|low: u128, high: u128|
        #![trigger remap.dom().contains(low), remap.dom().contains(high)]
        remap.dom().contains(low) && remap.dom().contains(high) && low < high implies remap[low]
        < remap[high] by {
        if high != row as u128 && low != row as u128 {
            assert(known.dom().contains(low) && known.dom().contains(high));
        } else if high == row as u128 {
            assert(known.dom().contains(low));
        } else {
            assert(known.dom().contains(high));
        }
    }
    assert forall|other: u64|
        #![trigger after.rows@.dom().contains(other as u128)]
        after.rows@.dom().contains(other as u128) implies source.rows@.dom().contains(
        other as u128,
    ) && remap.dom().contains(source.rows@[other as u128] as u128) by {
        if other != entity {
            assert(after.vector(other) is Some);
            assert(before.vector(other) is Some);
            assert(before.rows@.dom().contains(other as u128));
            assert(known.dom().contains(source.rows@[other as u128] as u128));
        }
    }
}

/// The same dimension, comparison and number format.
pub open spec fn same_profile(before: VectorIndex, after: VectorIndex) -> bool {
    &&& after.dimension == before.dimension
    &&& after.similarity == before.similarity
    &&& after.dtype == before.dtype
}

/// An index without a vector, unless the dimension is zero.
pub open spec fn is_new(
    result: Result<VectorIndex>,
    dimension: usize,
    similarity: Similarity,
    dtype: EmbeddingDType,
) -> bool {
    if dimension == 0 {
        fails_with(
            result,
            ErrorCode::EmbeddingProfileMismatch,
            "vector dimension must be positive"@,
        )
    } else {
        result matches Ok(index) && {
            &&& index.wf()
            &&& index.dimension == dimension
            &&& index.similarity == similarity
            &&& index.dtype == dtype
            &&& index.row_total() == 0
            &&& forall|entity: u64| (#[trigger] index.vector(entity)) is None
        }
    }
}

/// Coordinates fit where there are as many as the matrix has columns and each is a number: the exponent
/// of a half or a brain float is not all ones.
pub proof fn law_coordinates_are_numbers(
    dimension: int,
    dtype: EmbeddingDType,
    coordinates: Seq<u16>,
    place: int,
)
    requires
        coordinates_fit(dimension, dtype, coordinates),
        0 <= place < coordinates.len(),
    ensures
        coordinates.len() == dimension,
        match dtype {
            EmbeddingDType::F16 => coordinates[place] as int % 0x8000 < 0x7c00,
            EmbeddingDType::Bf16 => coordinates[place] as int % 0x8000 < 0x7f80,
        },
{
    assert(finite_bits(dtype, coordinates[place]));
}

/// A coordinate whose exponent is not all ones is taken.
pub proof fn law_numbers_are_taken(bits: u16)
    ensures
        finite_bits(EmbeddingDType::F16, bits) <==> bits as int % 0x8000 < 0x7c00,
        finite_bits(EmbeddingDType::Bf16, bits) <==> bits as int % 0x8000 < 0x7f80,
{
}

/// A filter keeps the rows that count and whose identity is wanted, with their coordinates and revisions,
/// and no others.
pub proof fn law_filters_keep_wanted_vectors(
    before: VectorIndex,
    retained: Map<u128, ()>,
    after: VectorIndex,
    remap: Map<u128, u32>,
    row: u32,
)
    requires
        filtered_rows(before, retained, before.row_total(), after, remap),
        row < before.row_total(),
    ensures
        remap.dom().contains(row as u128) <==> before.active@[row as int]
            && retained.dom().contains(before.entity_ids@[row as int] as u128),
        remap.dom().contains(row as u128) ==> after.entity_ids@[remap[row as u128] as int]
            == before.entity_ids@[row as int] && after.row(remap[row as u128] as int) == before.row(
            row as int,
        ),
{
    assert(remap.dom().contains(row as u128) <==> (row as u128) < before.row_total() && kept_row(
        before,
        retained,
        row as int,
    ));
}

} // verus!
