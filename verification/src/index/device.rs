//! The device image of a catalog, and rebinding its vectors to shared storage.

use crate::error::{fails_with, Error, ErrorCode, Result};
use crate::index::ann::{rows_have, IvfPqIndex};
use crate::index::catalog::{corrupt, is_online, IndexCatalog, IndexEntry, RuntimeIndex};
use crate::index::images::{
    byte_rows, is_posting_image, lists_rows, posting_device_image, too_wide,
    DerivedIndexDeviceImage, IndexDeviceImage, PostingDeviceImage, TextDeviceImage,
};
use crate::index::keys::{IndexKey, Key};
use crate::index::postings::PostingTable;
use crate::index::profile::DerivedIndexState;
use crate::index::scalar::Postings;
use crate::index::vectors::{SharedVectorBacking, VectorDeviceImage, VectorIndex};
use crate::shared::{clone_faithful, lemma_handle_faithful, Handle};
use crate::values::PropertyId;
use vstd::prelude::*;
use vstd::utf8::encode_utf8;

verus! {

/// The encoder takes every key.
pub open spec fn encodes_keys<K: FnMut(&IndexKey) -> Result<Vec<u8>>>(encoder: K) -> bool {
    forall|key: &IndexKey| #[trigger] call_requires(encoder, (key,))
}

/// The table lists the postings once all changes are written.
pub open spec fn tabulates(table: PostingTable, postings: Postings) -> bool {
    table.wf() && forall|key: Key| #[trigger] table.entry(key) == postings.sealed_entry(key)
}

/// What the encoder gives for every key of a table.
pub open spec fn keys_encoded<K: FnMut(&IndexKey) -> Result<Vec<u8>>>(
    encoder: K,
    table: PostingTable,
    keys: Seq<Vec<u8>>,
) -> bool {
    keys.len() == table.entries@.len() && forall|i: int|
        0 <= i < keys.len() ==> call_ensures(
            encoder,
            (&table.entries@[i].key,),
            Ok::<Vec<u8>, Error>(#[trigger] keys[i]),
        )
}

/// The image of scalar postings.
pub open spec fn images_postings<K: FnMut(&IndexKey) -> Result<Vec<u8>>>(
    encoder: K,
    postings: Postings,
    image: PostingDeviceImage,
) -> bool {
    exists|table: PostingTable, keys: Seq<Vec<u8>>, lists: Seq<Seq<u32>>|
        #![trigger keys_encoded(encoder, table, keys), lists_rows(table, lists)]
        {
            &&& tabulates(table, postings)
            &&& keys_encoded(encoder, table, keys)
            &&& lists_rows(table, lists)
            &&& is_posting_image(byte_rows(keys), lists, image)
        }
}

/// The bytes of a term.
pub open spec fn term_bytes(key: Key) -> Seq<u8> {
    match key {
        Key::Text(text) => encode_utf8(text),
        _ => Seq::empty(),
    }
}

/// The bytes of the terms of a table.
pub open spec fn table_terms(table: PostingTable) -> Seq<Seq<u8>> {
    Seq::new(table.entries@.len(), |i: int| term_bytes(table.entries@[i].key.key()))
}

/// The image of text postings.
pub open spec fn images_terms(postings: Postings, image: TextDeviceImage) -> bool {
    exists|table: PostingTable, lists: Seq<Seq<u32>>|
        #![trigger table_terms(table), lists_rows(table, lists)]
        {
            &&& tabulates(table, postings)
            &&& lists_rows(table, lists)
            &&& is_posting_image(
                table_terms(table),
                lists,
                PostingDeviceImage {
                    key_offsets: image.term_offsets,
                    key_bytes: image.term_bytes,
                    posting_offsets: image.posting_offsets,
                    rows: image.rows,
                },
            )
        }
}

/// The keys or rows of scalar postings cannot be addressed by 32 bits.
pub open spec fn postings_too_wide<K: FnMut(&IndexKey) -> Result<Vec<u8>>>(
    encoder: K,
    postings: Postings,
    error: Error,
) -> bool {
    exists|table: PostingTable, keys: Seq<Vec<u8>>, lists: Seq<Seq<u32>>|
        #![trigger keys_encoded(encoder, table, keys), lists_rows(table, lists)]
        {
            &&& tabulates(table, postings)
            &&& keys_encoded(encoder, table, keys)
            &&& lists_rows(table, lists)
            &&& too_wide(byte_rows(keys), lists, error)
        }
}

/// The encoder fails on a key of scalar postings, the first of them in order.
pub open spec fn key_unencoded<K: FnMut(&IndexKey) -> Result<Vec<u8>>>(
    encoder: K,
    postings: Postings,
    error: Error,
) -> bool {
    exists|table: PostingTable, keys: Seq<Vec<u8>>|
        #[trigger] fails_behind(encoder, table, keys, error) && tabulates(table, postings)
}

/// The encoder gives these for the first keys of a table and fails on the next one.
pub open spec fn fails_behind<K: FnMut(&IndexKey) -> Result<Vec<u8>>>(
    encoder: K,
    table: PostingTable,
    keys: Seq<Vec<u8>>,
    error: Error,
) -> bool {
    &&& keys.len() < table.entries@.len()
    &&& forall|i: int|
        0 <= i < keys.len() ==> call_ensures(
            encoder,
            (&table.entries@[i].key,),
            Ok::<Vec<u8>, Error>(#[trigger] keys[i]),
        )
    &&& call_ensures(
        encoder,
        (&table.entries@[keys.len() as int].key,),
        Err::<Vec<u8>, Error>(error),
    )
}

/// The terms or rows of text postings cannot be addressed by 32 bits.
pub open spec fn terms_too_wide(postings: Postings, error: Error) -> bool {
    exists|table: PostingTable, lists: Seq<Seq<u32>>|
        #![trigger table_terms(table), lists_rows(table, lists)]
        {
            &&& tabulates(table, postings)
            &&& lists_rows(table, lists)
            &&& too_wide(table_terms(table), lists, error)
        }
}

fn image_postings<K: FnMut(&IndexKey) -> Result<Vec<u8>>>(
    postings: &Postings,
    encoder: &mut K,
) -> (result: Result<PostingDeviceImage>)
    requires
        postings.wf(),
        encodes_keys(*old(encoder)),
    ensures
        *final(encoder) == *old(encoder),
        match result {
            Ok(image) => images_postings(*old(encoder), *postings, image),
            Err(error) => postings_too_wide(*old(encoder), *postings, error) || key_unencoded(
                *old(encoder),
                *postings,
                error,
            ),
        },
{
    let table = postings.materialized();
    let mut keys: Vec<Vec<u8>> = Vec::with_capacity(table.entries.len());
    for index in 0..table.entries.len()
        invariant
            tabulates(table, *postings),
            *encoder == *old(encoder),
            encodes_keys(*old(encoder)),
            keys@.len() == index,
            forall|i: int|
                0 <= i < index ==> call_ensures(
                    *old(encoder),
                    (&table.entries@[i].key,),
                    Ok::<Vec<u8>, Error>(#[trigger] keys@[i]),
                ),
    {
        let key = &table.entries[index].key;
        assert(call_requires(*encoder, (key,)));
        match encoder(key) {
            Ok(bytes) => {
                keys.push(bytes);
            },
            Err(error) => {
                assert(call_ensures(*old(encoder), (key,), Err::<Vec<u8>, Error>(error)));
                assert(fails_behind(*old(encoder), table, keys@, error));
                return Err(error);
            },
        }
    }
    let result = posting_device_image(&table, &keys);
    proof {
        assert(keys_encoded(*old(encoder), table, keys@));
        assert(tabulates(table, *postings));
        if result is Ok {
            let image = result->Ok_0;
            let lists = choose|lists: Seq<Seq<u32>>| #[trigger]
                lists_rows(table, lists) && is_posting_image(byte_rows(keys@), lists, image);
            assert(lists_rows(table, lists));
        } else {
            let error = result->Err_0;
            let lists = choose|lists: Seq<Seq<u32>>| #[trigger]
                lists_rows(table, lists) && too_wide(byte_rows(keys@), lists, error);
            assert(lists_rows(table, lists));
        }
    }
    result
}

fn image_terms(postings: PostingTable, Ghost(of): Ghost<Postings>) -> (result: Result<
    TextDeviceImage,
>)
    requires
        tabulates(postings, of),
    ensures
        match result {
            Ok(image) => images_terms(of, image),
            Err(error) => terms_too_wide(of, error),
        },
{
    let mut keys: Vec<Vec<u8>> = Vec::with_capacity(postings.entries.len());
    for index in 0..postings.entries.len()
        invariant
            keys@.len() == index,
            forall|i: int|
                0 <= i < index ==> (#[trigger] keys@[i])@ == term_bytes(
                    postings.entries@[i].key.key(),
                ),
    {
        match &postings.entries[index].key {
            IndexKey::String(text) => {
                keys.push(crate::shared::detach(text.as_str().as_bytes()));
            },
            _ => {
                keys.push(Vec::new());
                assert(keys@[index as int]@ =~= Seq::<u8>::empty());
            },
        }
    }
    assert(byte_rows(keys@) =~= table_terms(postings));
    match posting_device_image(&postings, &keys) {
        Ok(image) => {
            let text = TextDeviceImage {
                term_offsets: image.key_offsets,
                term_bytes: image.key_bytes,
                posting_offsets: image.posting_offsets,
                rows: image.rows,
            };
            Ok(text)
        },
        Err(error) => Err(error),
    }
}

/// The image of one index.
pub open spec fn images_entry<K: FnMut(&IndexKey) -> Result<Vec<u8>>>(
    encoder: K,
    entry: IndexEntry,
    image: DerivedIndexDeviceImage,
) -> bool {
    match (entry.runtime, image) {
        (
            Some(RuntimeIndex::Equality(index)),
            DerivedIndexDeviceImage::Equality { name, postings },
        ) => name@ == entry.name() && images_postings(encoder, index.postings, postings),
        (
            Some(RuntimeIndex::Range(index)),
            DerivedIndexDeviceImage::Range { name, postings },
        ) => name@ == entry.name() && images_postings(encoder, index.postings, postings),
        (Some(RuntimeIndex::Text(index)), DerivedIndexDeviceImage::Text { name, postings }) => name@
            == entry.name() && images_terms(index.term_postings(), postings),
        (
            Some(RuntimeIndex::Vector { property: held, approximate: pages }),
            DerivedIndexDeviceImage::Vector { name, property, approximate },
        ) => name@ == entry.name() && property == held && match (pages, approximate) {
            (Some(pages), Some(image)) => pages.spec_value().is_image(image),
            (None, None) => true,
            _ => false,
        },
        _ => false,
    }
}

/// Why an index has no image.
pub open spec fn entry_unimaged<K: FnMut(&IndexKey) -> Result<Vec<u8>>>(
    encoder: K,
    entry: IndexEntry,
    error: Error,
) -> bool {
    ||| entry.runtime is None && error.is(
        ErrorCode::CorruptStorage,
        "ONLINE index has no physical runtime"@,
    )
    ||| match entry.runtime {
        Some(RuntimeIndex::Equality(index)) => postings_too_wide(encoder, index.postings, error)
            || key_unencoded(encoder, index.postings, error),
        Some(RuntimeIndex::Range(index)) => postings_too_wide(encoder, index.postings, error)
            || key_unencoded(encoder, index.postings, error),
        Some(RuntimeIndex::Text(index)) => terms_too_wide(index.term_postings(), error),
        Some(RuntimeIndex::Vector { property, approximate: Some(pages) }) => pages_unimaged(
            pages.spec_value(),
            error,
        ),
        _ => false,
    }
}

/// Why pages have no image: their first fault, or codebooks without a subspace.
pub open spec fn pages_unimaged(pages: IvfPqIndex, error: Error) -> bool {
    if pages.config.subquantizers == 0 && pages.codebooks@.len() > 0 {
        error.is(ErrorCode::CorruptStorage, "IVF-PQ pages are structurally inconsistent"@)
    } else {
        pages.image_fault() matches Some(fault) && error.is(fault.0, fault.1)
    }
}

fn image_entry<K: FnMut(&IndexKey) -> Result<Vec<u8>>>(entry: &IndexEntry, encoder: &mut K) -> (
    result: Result<DerivedIndexDeviceImage>)
    requires
        entry.wf(),
        encodes_keys(*old(encoder)),
    ensures
        *final(encoder) == *old(encoder),
        match result {
            Ok(image) => images_entry(*old(encoder), *entry, image),
            Err(error) => entry_unimaged(*old(encoder), *entry, error),
        },
{
    let name = entry.definition.name.clone();
    match &entry.runtime {
        Some(RuntimeIndex::Equality(index)) => match image_postings(&index.postings, encoder) {
            Ok(postings) => Ok(DerivedIndexDeviceImage::Equality { name, postings }),
            Err(error) => Err(error),
        },
        Some(RuntimeIndex::Range(index)) => match image_postings(&index.postings, encoder) {
            Ok(postings) => Ok(DerivedIndexDeviceImage::Range { name, postings }),
            Err(error) => Err(error),
        },
        Some(RuntimeIndex::Text(index)) => match image_terms(
            index.materialized_postings(),
            Ghost(index.term_postings()),
        ) {
            Ok(postings) => Ok(DerivedIndexDeviceImage::Text { name, postings }),
            Err(error) => Err(error),
        },
        Some(RuntimeIndex::Vector { property, approximate }) => match approximate {
            Some(pages) => {
                if pages.value().config.subquantizers == 0 && pages.value().codebooks.len() > 0 {
                    return corrupt("IVF-PQ pages are structurally inconsistent");
                }
                match pages.value().device_image() {
                    Ok(image) => Ok(
                        DerivedIndexDeviceImage::Vector {
                            name,
                            property: *property,
                            approximate: Some(image),
                        },
                    ),
                    Err(error) => Err(error),
                }
            },
            None => Ok(
                DerivedIndexDeviceImage::Vector { name, property: *property, approximate: None },
            ),
        },
        None => corrupt("ONLINE index has no physical runtime"),
    }
}

/// The first online entry without an image.
pub open spec fn first_unimaged<K: FnMut(&IndexKey) -> Result<Vec<u8>>>(
    encoder: K,
    entries: Seq<IndexEntry>,
    place: int,
    error: Error,
) -> bool {
    &&& 0 <= place < entries.len()
    &&& entries[place].state == DerivedIndexState::Online
    &&& entry_unimaged(encoder, entries[place], error)
    &&& forall|i: int|
        0 <= i < place && (#[trigger] entries[i]).state == DerivedIndexState::Online
            ==> has_image(encoder, entries[i])
}

/// The entry has an image.
pub open spec fn has_image<K: FnMut(&IndexKey) -> Result<Vec<u8>>>(
    encoder: K,
    entry: IndexEntry,
) -> bool {
    exists|image: DerivedIndexDeviceImage| #[trigger] images_entry(encoder, entry, image)
}

/// The first entries that are online, in order.
pub open spec fn online_entries(entries: Seq<IndexEntry>, count: int) -> Seq<IndexEntry>
    decreases count,
{
    if count <= 0 {
        Seq::empty()
    } else if entries[count - 1].state == DerivedIndexState::Online {
        online_entries(entries, count - 1).push(entries[count - 1])
    } else {
        online_entries(entries, count - 1)
    }
}

/// The image of a matrix.
pub open spec fn images_column(
    column: VectorIndex,
    property: PropertyId,
    image: VectorDeviceImage,
) -> bool {
    &&& image.property == property
    &&& image.dimension == column.dimension
    &&& image.similarity == column.similarity
    &&& image.dtype == column.dtype
    &&& image.entity_ids@ == column.entity_ids@
    &&& image.values@ == column.values@
    &&& image.versions@ == column.versions@
    &&& image.active@ == Seq::new(
        column.active@.len(),
        |row: int|
            if column.active@[row] {
                1u8
            } else {
                0u8
            },
    )
}

/// The images of all columns, by ascending property.
pub open spec fn images_columns(catalog: IndexCatalog, images: Seq<VectorDeviceImage>) -> bool {
    &&& forall|i: int, j: int|
        0 <= i < j < images.len() ==> (#[trigger] images[i]).property.0 < (
        #[trigger] images[j]).property.0
    &&& forall|i: int|
        0 <= i < images.len() ==> catalog.vector_columns@.dom().contains(
            (#[trigger] images[i]).property.0 as u128,
        ) && images_column(
            catalog.vector_columns@[images[i].property.0 as u128].spec_value(),
            images[i].property,
            images[i],
        )
    &&& images.len() == catalog.vector_columns@.dom().len()
}

impl IndexCatalog {
    fn image_columns(&self) -> (result: Result<Vec<VectorDeviceImage>>)
        requires
            self.wf(),
        ensures
            result matches Ok(images) && images_columns(*self, images@),
    {
        let columns = self.vector_columns.iter();
        let mut images: Vec<VectorDeviceImage> = Vec::with_capacity(columns.len());
        for index in 0..columns.len()
            invariant
                self.wf(),
                images@.len() == index,
                columns@.len() == self.vector_columns@.dom().len(),
                forall|i: int, j: int|
                    0 <= i < j < columns@.len() ==> (#[trigger] columns@[i]).0 < (
                    #[trigger] columns@[j]).0,
                forall|i: int|
                    0 <= i < columns@.len() ==> self.vector_columns@.dom().contains(
                        (#[trigger] columns@[i]).0,
                    ) && self.vector_columns@[columns@[i].0] == *columns@[i].1,
                forall|i: int|
                    0 <= i < index ==> (#[trigger] images@[i]).property.0 as u128 == columns@[i].0
                        && images_column(
                        self.vector_columns@[columns@[i].0].spec_value(),
                        images@[i].property,
                        images@[i],
                    ),
        {
            let key: u128 = columns[index].0;
            assert(self.vector_columns@.dom().contains(columns@[index as int].0));
            let property = PropertyId(key as u32);
            let column = columns[index].1.value();
            let values: usize = column.values.len();
            assert(column.row_total() * column.dimension == values);
            match column.device_image(property) {
                Ok(image) => {
                    images.push(image);
                },
                Err(error) => {
                    assert(false);
                    return Err(error);
                },
            }
        }
        proof {
            assert forall|i: int, j: int| 0 <= i < j < images@.len() implies (
            #[trigger] images@[i]).property.0 < (#[trigger] images@[j]).property.0 by {
                assert(columns@[i].0 < columns@[j].0);
            }
            assert forall|i: int| 0 <= i < images@.len() implies self.vector_columns@.dom().contains(
                (#[trigger] images@[i]).property.0 as u128,
            ) && images_column(
                self.vector_columns@[images@[i].property.0 as u128].spec_value(),
                images@[i].property,
                images@[i],
            ) by {
                assert(self.vector_columns@.dom().contains(columns@[i].0));
            }
        }
        Ok(images)
    }

    /// The canonical vectors and the ONLINE indexes as device columns. Indexes in another state are not
    /// eligible for queries, and are left out.
    pub fn device_image<K: FnMut(&IndexKey) -> Result<Vec<u8>>>(&self, encoder: K) -> (result:
        Result<IndexDeviceImage>)
        requires
            self.wf(),
            encodes_keys(encoder),
        ensures
            match result {
                Ok(image) => {
                    let entries = online_entries(self.entries@, self.entries@.len() as int);
                    &&& image.profile == self.profile
                    &&& images_columns(*self, image.vectors@)
                    &&& image.indexes@.len() == entries.len()
                    &&& forall|i: int|
                        0 <= i < entries.len() ==> images_entry(
                            encoder,
                            entries[i],
                            #[trigger] image.indexes@[i],
                        )
                },
                Err(error) => exists|place: int| #[trigger]
                    first_unimaged(encoder, self.entries@, place, error),
            },
    {
        let mut encode = encoder;
        let vectors = match self.image_columns() {
            Ok(vectors) => vectors,
            Err(error) => {
                return Err(error);
            },
        };
        let mut indexes: Vec<DerivedIndexDeviceImage> = Vec::new();
        for index in 0..self.entries.len()
            invariant
                self.wf(),
                encode == encoder,
                encodes_keys(encoder),
                indexes@.len() == online_entries(self.entries@, index as int).len(),
                forall|i: int|
                    0 <= i < index && (#[trigger] self.entries@[i]).state
                        == DerivedIndexState::Online ==> has_image(encoder, self.entries@[i]),
                forall|i: int|
                    0 <= i < indexes@.len() ==> images_entry(
                        encoder,
                        online_entries(self.entries@, index as int)[i],
                        #[trigger] indexes@[i],
                    ),
        {
            let entry = &self.entries[index];
            assert(self.entries@[index as int].wf());
            assert(online_entries(self.entries@, index + 1) == if entry.state
                == DerivedIndexState::Online {
                online_entries(self.entries@, index as int).push(self.entries@[index as int])
            } else {
                online_entries(self.entries@, index as int)
            });
            if is_online(entry.state) {
                let ghost before = indexes@;
                match image_entry(entry, &mut encode) {
                    Ok(image) => {
                        assert(images_entry(encoder, self.entries@[index as int], image));
                        indexes.push(image);
                        assert forall|i: int| 0 <= i < before.len() implies images_entry(
                            encoder,
                            online_entries(self.entries@, index as int)[i],
                            #[trigger] indexes@[i],
                        ) by {
                            assert(indexes@[i] == before[i]);
                        }
                    },
                    Err(error) => {
                        assert(first_unimaged(encoder, self.entries@, index as int, error));
                        return Err(error);
                    },
                }
            }
        }
        let profile = match &self.profile {
            Some(profile) => Some(*profile),
            None => None,
        };
        Ok(IndexDeviceImage { profile, vectors, indexes })
    }
}

/// The backing has the shape of the column.
pub open spec fn fits_backing(column: VectorIndex, backing: SharedVectorBacking) -> bool {
    &&& column.dimension == backing.dimension
    &&& column.entity_ids@.len() == backing.entity_ids@.len()
    &&& column.values@.len() == backing.values@.len()
    &&& column.versions@.len() == backing.versions@.len()
    &&& column.active@.len() == backing.active@.len()
}

/// The column with the parts of a backing.
pub open spec fn rebound(column: VectorIndex, backing: SharedVectorBacking) -> VectorIndex {
    VectorIndex {
        entity_ids: backing.entity_ids,
        values: backing.values,
        versions: backing.versions,
        active: backing.active,
        ..column
    }
}

/// What keeps a backing out of the columns.
pub open spec fn backing_fault(
    columns: Map<u128, Handle<VectorIndex>>,
    backing: SharedVectorBacking,
) -> Option<Seq<char>> {
    let key = backing.property.0 as u128;
    if !columns.dom().contains(key) {
        Some("shared vector backing targets an unknown property"@)
    } else if !fits_backing(columns[key].spec_value(), backing) {
        Some("shared vector backing does not match the canonical vector column"@)
    } else {
        None
    }
}

/// The columns after the first backings were taken over: each has the last backing of its property.
pub open spec fn columns_rebound(
    before: Map<u128, Handle<VectorIndex>>,
    after: Map<u128, Handle<VectorIndex>>,
    backings: Seq<SharedVectorBacking>,
    count: int,
) -> bool {
    &&& after.dom() == before.dom()
    &&& forall|key: u128| #[trigger]
        before.dom().contains(key) ==> match last_backing(backings, key, count) {
            Some(place) => after[key].spec_value() == rebound(
                before[key].spec_value(),
                backings[place],
            ),
            None => after[key].spec_value() == before[key].spec_value(),
        }
}

/// The last of the first backings with a property.
pub open spec fn last_backing(
    backings: Seq<SharedVectorBacking>,
    key: u128,
    count: int,
) -> Option<int>
    decreases count,
{
    if count <= 0 {
        None
    } else if backings[count - 1].property.0 as u128 == key {
        Some(count - 1)
    } else {
        last_backing(backings, key, count - 1)
    }
}

proof fn lemma_last_backing(backings: Seq<SharedVectorBacking>, key: u128, count: int)
    ensures
        last_backing(backings, key, count) matches Some(place) ==> 0 <= place < count
            && backings[place].property.0 as u128 == key,
    decreases count,
{
    if count > 0 {
        lemma_last_backing(backings, key, count - 1);
    }
}

/// The first backing with a fault.
pub open spec fn first_backing_fault(
    columns: Map<u128, Handle<VectorIndex>>,
    backings: Seq<SharedVectorBacking>,
    place: int,
    message: Seq<char>,
) -> bool {
    &&& 0 <= place < backings.len()
    &&& backing_fault(columns, backings[place]) == Some(message)
    &&& forall|i: int| 0 <= i < place ==> backing_fault(columns, #[trigger] backings[i]) is None
}

impl IndexCatalog {
    /// Rebinds every vector column to shared storage of the same shape.
    #[verifier::rlimit(40)]
    #[verifier::spinoff_prover]
    pub fn rebind_shared_vectors(&mut self, backings: Vec<SharedVectorBacking>) -> (result: Result<
        (),
    >)
        requires
            old(self).vector_columns.wf(),
        ensures
            *final(self) == (IndexCatalog {
                vector_columns: final(self).vector_columns,
                ..*old(self)
            }),
            final(self).vector_columns.wf(),
            if backings@.len() != old(self).vector_columns@.dom().len() {
                fails_with(
                    result,
                    ErrorCode::CorruptStorage,
                    "shared vector backing set is incomplete"@,
                ) && *final(self) == *old(self)
            } else {
                match result {
                    Ok(_) => {
                        &&& forall|i: int|
                            0 <= i < backings@.len() ==> backing_fault(
                                old(self).vector_columns@,
                                #[trigger] backings@[i],
                            ) is None
                        &&& columns_rebound(
                            old(self).vector_columns@,
                            final(self).vector_columns@,
                            backings@,
                            backings@.len() as int,
                        )
                    },
                    Err(error) => error.code == ErrorCode::CorruptStorage && exists|place: int|
                        #[trigger]
                        first_backing_fault(
                            old(self).vector_columns@,
                            backings@,
                            place,
                            error.message@,
                        ) && columns_rebound(
                            old(self).vector_columns@,
                            final(self).vector_columns@,
                            backings@,
                            place,
                        ),
                }
            },
    {
        if backings.len() != self.vector_columns.len() {
            return corrupt("shared vector backing set is incomplete");
        }
        proof {
            lemma_handle_faithful::<VectorIndex>();
        }
        let ghost before = *self;
        let ghost all = backings@;
        let mut rest = backings;
        let ghost mut done: int = 0;
        assert(all.skip(0) =~= all);
        while rest.len() > 0
            invariant
                before == *old(self),
                clone_faithful::<Handle<VectorIndex>>(),
                0 <= done <= all.len(),
                rest@ == all.skip(done),
                all == backings@,
                all.len() == before.vector_columns@.dom().len(),
                self.vector_columns.wf(),
                *self == (IndexCatalog { vector_columns: self.vector_columns, ..before }),
                columns_rebound(before.vector_columns@, self.vector_columns@, all, done),
                forall|i: int|
                    0 <= i < done ==> backing_fault(before.vector_columns@, #[trigger] all[i]) is None,
            decreases rest@.len(),
        {
            let backing = rest.remove(0);
            let ghost taken = backing;
            let key: u128 = backing.property.0 as u128;
            let ghost middle = *self;
            proof {
                assert(taken == all[done]);
                assert(rest@ =~= all.skip(done + 1));
                lemma_last_backing(all, key, done);
                if let Some(place) = last_backing(all, key, done) {
                    assert(backing_fault(before.vector_columns@, all[place]) is None);
                }
            }
            let result = match self.vector_columns.get_mut(key) {
                Some(handle) => handle.value_mut().rebind_shared(backing),
                None => corrupt("shared vector backing targets an unknown property"),
            };
            match result {
                Ok(_) => {},
                Err(error) => {
                    assert(first_backing_fault(before.vector_columns@, all, done, error.message@));
                    proof {
                        assert(self.vector_columns@.dom() =~= before.vector_columns@.dom());
                        assert forall|other: u128| #[trigger]
                            before.vector_columns@.dom().contains(
                                other,
                            ) implies self.vector_columns@[other].spec_value()
                            == middle.vector_columns@[other].spec_value() by {}
                    }
                    return Err(error);
                },
            }
            proof {
                assert(backing_fault(before.vector_columns@, all[done]) is None);
                assert(self.vector_columns@.dom() =~= before.vector_columns@.dom());
                assert forall|other: u128| #[trigger] before.vector_columns@.dom().contains(
                    other,
                ) implies match last_backing(all, other, done + 1) {
                    Some(place) => self.vector_columns@[other].spec_value() == rebound(
                        before.vector_columns@[other].spec_value(),
                        all[place],
                    ),
                    None => self.vector_columns@[other].spec_value()
                        == before.vector_columns@[other].spec_value(),
                } by {
                    if other != key {
                        assert(self.vector_columns@[other] == middle.vector_columns@[other]);
                        assert(last_backing(all, other, done + 1) == last_backing(
                            all,
                            other,
                            done,
                        ));
                    }
                }
                done = done + 1;
            }
        }
        Ok(())
    }
}

/// Where several backings are given for one column, the last counts. A column for which none is given
/// stays as it was, and no column changes its dimension.
pub proof fn law_last_backing_counts(
    before: Map<u128, Handle<VectorIndex>>,
    after: Map<u128, Handle<VectorIndex>>,
    backings: Seq<SharedVectorBacking>,
    key: u128,
    place: int,
)
    requires
        columns_rebound(before, after, backings, backings.len() as int),
        before.dom().contains(key),
        forall|i: int|
            place < i < backings.len() ==> (#[trigger] backings[i]).property.0 as u128 != key,
    ensures
        0 <= place < backings.len() && backings[place].property.0 as u128 == key ==> {
            let column = after[key].spec_value();
            &&& column.entity_ids == backings[place].entity_ids
            &&& column.values == backings[place].values
            &&& column.versions == backings[place].versions
            &&& column.active == backings[place].active
        },
        place == -1 ==> after[key].spec_value() == before[key].spec_value(),
        after.dom().contains(key),
        after[key].spec_value().dimension == before[key].spec_value().dimension,
        after[key].spec_value().similarity == before[key].spec_value().similarity,
{
    lemma_backing_that_counts(backings, key, backings.len() as int, place);
}

proof fn lemma_backing_that_counts(backings: Seq<SharedVectorBacking>, key: u128, count: int, place: int)
    requires
        0 <= count <= backings.len(),
        forall|i: int| place < i < count ==> (#[trigger] backings[i]).property.0 as u128 != key,
    ensures
        0 <= place < count && backings[place].property.0 as u128 == key ==> last_backing(
            backings,
            key,
            count,
        ) == Some(place),
        place == -1 ==> last_backing(backings, key, count) is None,
    decreases count,
{
    if count > 0 {
        lemma_backing_that_counts(backings, key, count - 1, place);
    }
}

} // verus!
