//! Device images of indexes and the bytes that they take.

use crate::arith::{saturated, saturating_product};
use crate::columns::packed::{flat, row_offsets};
use crate::error::{Error, ErrorCode, Result};
use crate::index::ann::AnnDeviceImage;
use crate::index::bitmap::{bitmap_rows, rows_of_bitmap};
use crate::index::postings::PostingTable;
use crate::index::profile::EmbeddingProfile;
use crate::index::vectors::VectorDeviceImage;
use crate::values::PropertyId;
use vstd::layout::size_of;
use vstd::prelude::*;

verus! {

/// Byte-comparable canonical scalar keys plus flattened postings.
pub struct PostingDeviceImage {
    pub key_offsets: Vec<u32>,
    pub key_bytes: Vec<u8>,
    pub posting_offsets: Vec<u32>,
    pub rows: Vec<u32>,
}

/// Normalized term dictionary plus flattened text postings.
pub struct TextDeviceImage {
    pub term_offsets: Vec<u32>,
    pub term_bytes: Vec<u8>,
    pub posting_offsets: Vec<u32>,
    pub rows: Vec<u32>,
}

/// One ONLINE rebuildable index in backend-neutral device columns.
#[allow(inconsistent_fields)]
pub enum DerivedIndexDeviceImage {
    Equality { name: String, postings: PostingDeviceImage },
    Range { name: String, postings: PostingDeviceImage },
    Text { name: String, postings: TextDeviceImage },
    Vector { name: String, property: PropertyId, approximate: Option<AnnDeviceImage> },
}

/// Complete canonical-vector and ONLINE-derived-index image for one project.
pub struct IndexDeviceImage {
    pub profile: Option<EmbeddingProfile>,
    pub vectors: Vec<VectorDeviceImage>,
    pub indexes: Vec<DerivedIndexDeviceImage>,
}

/// Bytes of numbers of one width.
pub open spec fn number_bytes(count: nat, width: int) -> int {
    saturated(count * width)
}

impl VectorDeviceImage {
    pub open spec fn spec_resident_bytes(&self) -> int {
        saturated(
            saturated(
                saturated(
                    number_bytes(self.entity_ids@.len(), 8) + number_bytes(self.values@.len(), 2),
                ) + number_bytes(self.versions@.len(), 8),
            ) + self.active@.len(),
        )
    }

    pub fn resident_bytes(&self) -> (bytes: usize)
        ensures
            bytes == self.spec_resident_bytes(),
    {
        saturating_product(self.entity_ids.len(), 8).saturating_add(
            saturating_product(self.values.len(), 2),
        ).saturating_add(saturating_product(self.versions.len(), 8)).saturating_add(
            self.active.len(),
        )
    }
}

impl AnnDeviceImage {
    pub open spec fn spec_resident_bytes(&self) -> int {
        saturated(
            number_bytes(self.coarse_values@.len(), 4) + number_bytes(
                self.codebook_subspace_offsets@.len(),
                4,
            ) + number_bytes(self.codebook_vector_offsets@.len(), 4) + number_bytes(
                self.codebook_values@.len(),
                4,
            ) + number_bytes(self.rows@.len(), 4) + self.codes@.len() + number_bytes(
                self.list_offsets@.len(),
                4,
            ) + number_bytes(self.list_positions@.len(), 4) + number_bytes(
                self.built_versions@.len(),
                8,
            ),
        )
    }

    pub fn resident_bytes(&self) -> (bytes: usize)
        ensures
            bytes == self.spec_resident_bytes(),
    {
        saturating_product(self.coarse_values.len(), 4).saturating_add(
            saturating_product(self.codebook_subspace_offsets.len(), 4),
        ).saturating_add(saturating_product(self.codebook_vector_offsets.len(), 4)).saturating_add(
            saturating_product(self.codebook_values.len(), 4),
        ).saturating_add(saturating_product(self.rows.len(), 4)).saturating_add(
            self.codes.len(),
        ).saturating_add(saturating_product(self.list_offsets.len(), 4)).saturating_add(
            saturating_product(self.list_positions.len(), 4),
        ).saturating_add(saturating_product(self.built_versions.len(), 8))
    }
}

impl PostingDeviceImage {
    pub open spec fn spec_resident_bytes(&self) -> int {
        saturated(
            number_bytes(self.key_offsets@.len(), 4) + self.key_bytes@.len() + number_bytes(
                self.posting_offsets@.len(),
                4,
            ) + number_bytes(self.rows@.len(), 4),
        )
    }

    pub fn resident_bytes(&self) -> (bytes: usize)
        ensures
            bytes == self.spec_resident_bytes(),
    {
        saturating_product(self.key_offsets.len(), 4).saturating_add(
            self.key_bytes.len(),
        ).saturating_add(saturating_product(self.posting_offsets.len(), 4)).saturating_add(
            saturating_product(self.rows.len(), 4),
        )
    }
}

impl TextDeviceImage {
    pub open spec fn spec_resident_bytes(&self) -> int {
        saturated(
            number_bytes(self.term_offsets@.len(), 4) + self.term_bytes@.len() + number_bytes(
                self.posting_offsets@.len(),
                4,
            ) + number_bytes(self.rows@.len(), 4),
        )
    }

    pub fn resident_bytes(&self) -> (bytes: usize)
        ensures
            bytes == self.spec_resident_bytes(),
    {
        saturating_product(self.term_offsets.len(), 4).saturating_add(
            self.term_bytes.len(),
        ).saturating_add(saturating_product(self.posting_offsets.len(), 4)).saturating_add(
            saturating_product(self.rows.len(), 4),
        )
    }
}

impl DerivedIndexDeviceImage {
    pub open spec fn spec_resident_bytes(&self) -> int {
        match self {
            DerivedIndexDeviceImage::Equality { postings, .. } => postings.spec_resident_bytes(),
            DerivedIndexDeviceImage::Range { postings, .. } => postings.spec_resident_bytes(),
            DerivedIndexDeviceImage::Text { postings, .. } => postings.spec_resident_bytes(),
            DerivedIndexDeviceImage::Vector { approximate, .. } => match approximate {
                Some(approximate) => approximate.spec_resident_bytes(),
                None => 0,
            },
        }
    }

    pub fn resident_bytes(&self) -> (bytes: usize)
        ensures
            bytes == self.spec_resident_bytes(),
    {
        match self {
            DerivedIndexDeviceImage::Equality { postings, .. } => postings.resident_bytes(),
            DerivedIndexDeviceImage::Range { postings, .. } => postings.resident_bytes(),
            DerivedIndexDeviceImage::Text { postings, .. } => postings.resident_bytes(),
            DerivedIndexDeviceImage::Vector { approximate, .. } => match approximate {
                Some(approximate) => approximate.resident_bytes(),
                None => 0,
            },
        }
    }
}

/// Bytes of the first vector columns.
pub open spec fn vector_bytes(vectors: Seq<VectorDeviceImage>, count: int) -> int
    decreases count,
{
    if count <= 0 {
        0
    } else {
        vector_bytes(vectors, count - 1) + vectors[count - 1].spec_resident_bytes()
    }
}

/// Bytes of the first derived indexes.
pub open spec fn derived_index_bytes(indexes: Seq<DerivedIndexDeviceImage>, count: int) -> int
    decreases count,
{
    if count <= 0 {
        0
    } else {
        derived_index_bytes(indexes, count - 1) + indexes[count - 1].spec_resident_bytes()
    }
}

impl IndexDeviceImage {
    pub fn resident_bytes(&self) -> (bytes: usize)
        ensures
            bytes == saturated(
                (if self.profile is Some {
                    size_of::<EmbeddingProfile>() as int
                } else {
                    0
                }) + vector_bytes(self.vectors@, self.vectors@.len() as int) + derived_index_bytes(
                    self.indexes@,
                    self.indexes@.len() as int,
                ),
            ),
    {
        let profile: usize = match &self.profile {
            Some(_) => core::mem::size_of::<EmbeddingProfile>(),
            None => 0,
        };
        let mut total: usize = 0;
        for index in 0..self.vectors.len()
            invariant
                total == saturated(vector_bytes(self.vectors@, index as int)),
                vector_bytes(self.vectors@, index as int) >= 0,
        {
            total = total.saturating_add(self.vectors[index].resident_bytes());
        }
        let ghost columns = vector_bytes(self.vectors@, self.vectors@.len() as int);
        for index in 0..self.indexes.len()
            invariant
                columns >= 0,
                derived_index_bytes(self.indexes@, index as int) >= 0,
                total == saturated(columns + derived_index_bytes(self.indexes@, index as int)),
        {
            total = total.saturating_add(self.indexes[index].resident_bytes());
        }
        profile.saturating_add(total)
    }
}

/// The rows of the first keys of a table, each list ascending.
pub open spec fn lists_rows(table: PostingTable, lists: Seq<Seq<u32>>) -> bool {
    &&& lists.len() == table.entries@.len()
    &&& forall|i: int|
        0 <= i < lists.len() ==> is_row_list(
            #[trigger] lists[i],
            bitmap_rows(table.entries@[i].rows),
        )
}

pub open spec fn is_row_list(list: Seq<u32>, rows: Set<u32>) -> bool {
    &&& forall|i: int, j: int| 0 <= i < j < list.len() ==> (#[trigger] list[i]) < (#[trigger] list[j])
    &&& forall|row: u32| #[trigger] list.contains(row) <==> rows.contains(row)
}

/// The device columns of keys and their rows.
pub open spec fn is_posting_image(
    keys: Seq<Seq<u8>>,
    lists: Seq<Seq<u32>>,
    image: PostingDeviceImage,
) -> bool {
    &&& image.key_bytes@ == flat(keys)
    &&& image.key_offsets@ == row_offsets(keys)
    &&& image.rows@ == flat(lists)
    &&& image.posting_offsets@ == row_offsets(lists)
}

/// The keys or their rows cannot be addressed by 32 bits.
pub open spec fn too_wide(keys: Seq<Seq<u8>>, lists: Seq<Seq<u32>>, error: Error) -> bool {
    &&& error.code == ErrorCode::ResultBudgetExceeded
    &&& flat(keys).len() > u32::MAX || flat(lists).len() > u32::MAX
}

/// Bytes of keys in the order of a table, as device columns with its postings. The bytes of each key
/// come from the caller.
pub fn posting_device_image(table: &PostingTable, keys: &Vec<Vec<u8>>) -> (result: Result<
    PostingDeviceImage,
>)
    requires
        keys@.len() == table.entries@.len(),
    ensures
        match result {
            Ok(image) => exists|lists: Seq<Seq<u32>>| #[trigger]
                lists_rows(*table, lists) && is_posting_image(byte_rows(keys@), lists, image),
            Err(error) => exists|lists: Seq<Seq<u32>>| #[trigger]
                lists_rows(*table, lists) && too_wide(byte_rows(keys@), lists, error),
        },
{
    let mut lists: Vec<Vec<u32>> = Vec::with_capacity(table.entries.len());
    for index in 0..table.entries.len()
        invariant
            lists@.len() == index,
            forall|i: int|
                0 <= i < index ==> is_row_list(
                    (#[trigger] lists@[i])@,
                    bitmap_rows(table.entries@[i].rows),
                ),
    {
        lists.push(rows_of_bitmap(&table.entries[index].rows));
    }
    let ghost rows = number_rows(lists@);
    proof {
        assert(lists_rows(*table, rows)) by {
            assert forall|i: int| 0 <= i < rows.len() implies is_row_list(
                #[trigger] rows[i],
                bitmap_rows(table.entries@[i].rows),
            ) by {
                assert(is_row_list(lists@[i]@, bitmap_rows(table.entries@[i].rows)));
            }
        }
    }
    let (key_offsets, key_bytes) = match flatten_bytes(keys) {
        Some(parts) => parts,
        None => {
            return Err(
                Error::new(
                    ErrorCode::ResultBudgetExceeded,
                    "index key bytes exceeds the device image limit",
                ),
            );
        },
    };
    let (posting_offsets, row_values) = match flatten_numbers(&lists) {
        Some(parts) => parts,
        None => {
            return Err(
                Error::new(
                    ErrorCode::ResultBudgetExceeded,
                    "index postings exceeds the device image limit",
                ),
            );
        },
    };
    Ok(PostingDeviceImage { key_offsets, key_bytes, posting_offsets, rows: row_values })
}

/// The rows of a vector of byte strings.
pub open spec fn byte_rows(rows: Seq<Vec<u8>>) -> Seq<Seq<u8>> {
    Seq::new(rows.len(), |i: int| rows[i]@)
}

pub open spec fn number_rows(rows: Seq<Vec<u32>>) -> Seq<Seq<u32>> {
    Seq::new(rows.len(), |i: int| rows[i]@)
}

proof fn lemma_flat_take<T>(rows: Seq<Seq<T>>, count: int)
    requires
        0 <= count <= rows.len(),
    ensures
        flat(rows.take(count)).len() <= flat(rows).len(),
    decreases rows.len(),
{
    if count == rows.len() {
        assert(rows.take(count) =~= rows);
    } else {
        lemma_flat_take(rows.drop_last(), count);
        assert(rows.drop_last().take(count) =~= rows.take(count));
    }
}

/// Offsets and values of byte strings, where 32 bits address them.
fn flatten_bytes(rows: &Vec<Vec<u8>>) -> (parts: Option<(Vec<u32>, Vec<u8>)>)
    ensures
        match parts {
            Some(parts) => parts.0@ == row_offsets(byte_rows(rows@)) && parts.1@ == flat(
                byte_rows(rows@),
            ),
            None => flat(byte_rows(rows@)).len() > u32::MAX,
        },
{
    let mut offsets: Vec<u32> = Vec::new();
    let mut values: Vec<u8> = Vec::new();
    let ghost all = byte_rows(rows@);
    offsets.push(0);
    assert(all.take(0) =~= Seq::empty());
    for index in 0..rows.len()
        invariant
            all == byte_rows(rows@),
            values@ == flat(all.take(index as int)),
            offsets@.len() == index + 1,
            forall|i: int| 0 <= i <= index ==> #[trigger] offsets@[i] == flat(all.take(i)).len(),
    {
        let mut copy: Vec<u8> = crate::shared::detach(rows[index].as_slice());
        values.append(&mut copy);
        assert(all.take(index + 1).drop_last() =~= all.take(index as int));
        if values.len() as u64 > u32::MAX as u64 {
            proof {
                lemma_flat_take(all, index + 1);
            }
            return None;
        }
        offsets.push(values.len() as u32);
    }
    assert(all.take(all.len() as int) =~= all);
    assert(offsets@ =~= row_offsets(all));
    Some((offsets, values))
}

/// Offsets and values of number lists, where 32 bits address them.
pub(crate) fn flatten_numbers(rows: &Vec<Vec<u32>>) -> (parts: Option<(Vec<u32>, Vec<u32>)>)
    ensures
        match parts {
            Some(parts) => parts.0@ == row_offsets(number_rows(rows@)) && parts.1@ == flat(
                number_rows(rows@),
            ),
            None => flat(number_rows(rows@)).len() > u32::MAX,
        },
{
    let mut offsets: Vec<u32> = Vec::new();
    let mut values: Vec<u32> = Vec::new();
    let ghost all = number_rows(rows@);
    offsets.push(0);
    assert(all.take(0) =~= Seq::empty());
    for index in 0..rows.len()
        invariant
            all == number_rows(rows@),
            values@ == flat(all.take(index as int)),
            offsets@.len() == index + 1,
            forall|i: int| 0 <= i <= index ==> #[trigger] offsets@[i] == flat(all.take(i)).len(),
    {
        let mut copy: Vec<u32> = crate::shared::detach(rows[index].as_slice());
        values.append(&mut copy);
        assert(all.take(index + 1).drop_last() =~= all.take(index as int));
        if values.len() as u64 > u32::MAX as u64 {
            proof {
                lemma_flat_take(all, index + 1);
            }
            return None;
        }
        offsets.push(values.len() as u32);
    }
    assert(all.take(all.len() as int) =~= all);
    assert(offsets@ =~= row_offsets(all));
    Some((offsets, values))
}

/// What an image takes: eight bytes for an identity and for a revision, two for a coordinate, one for a
/// flag, four for a row, an offset or a centroid coordinate, and one for a byte of a key or a code.
pub proof fn law_images_take_their_columns(
    vectors: VectorDeviceImage,
    postings: PostingDeviceImage,
    pages: AnnDeviceImage,
)
    ensures
        vectors.entity_ids@.len() * 8 + vectors.values@.len() * 2 + vectors.versions@.len() * 8
            + vectors.active@.len() <= usize::MAX ==> vectors.spec_resident_bytes()
            == vectors.entity_ids@.len() * 8 + vectors.values@.len() * 2 + vectors.versions@.len()
            * 8 + vectors.active@.len(),
        postings.key_offsets@.len() * 4 + postings.key_bytes@.len() + postings.posting_offsets@.len()
            * 4 + postings.rows@.len() * 4 <= usize::MAX ==> postings.spec_resident_bytes()
            == postings.key_offsets@.len() * 4 + postings.key_bytes@.len()
            + postings.posting_offsets@.len() * 4 + postings.rows@.len() * 4,
        ({
            let bytes = pages.coarse_values@.len() * 4 + pages.codebook_subspace_offsets@.len() * 4
                + pages.codebook_vector_offsets@.len() * 4 + pages.codebook_values@.len() * 4
                + pages.rows@.len() * 4 + pages.codes@.len() + pages.list_offsets@.len() * 4
                + pages.list_positions@.len() * 4 + pages.built_versions@.len() * 8;
            bytes <= usize::MAX ==> pages.spec_resident_bytes() == bytes
        }),
{
}

} // verus!
