//! The embedding profile of a project, index definitions and their names.

use crate::digest::{blake3_digest, digest};
use crate::error::{fails_with, Error, ErrorCode, Result};
use crate::index::vectors::{EmbeddingDType, Similarity};
use crate::knowledge::NameCatalog;
use crate::values::{LabelId, PropertyId};
use vstd::prelude::*;
use vstd::utf8::encode_utf8;

verus! {

/// One immutable local embedding profile saved once per project.
#[derive(Clone, Copy, Debug, PartialEq, Eq)]
pub struct EmbeddingProfile {
    pub model_hash: [u8; 32],
    pub tokenizer_hash: [u8; 32],
    pub dimension: u32,
    pub dtype: EmbeddingDType,
    pub normalized: bool,
    pub similarity: Similarity,
    pub profile_hash: [u8; 32],
}

/// A number in groups of seven bits, lowest first, with the eighth bit set where more follow.
pub open spec fn varint(value: nat) -> Seq<u8>
    decreases value,
{
    if value < 128 {
        seq![value as u8]
    } else {
        seq![(value % 128 + 128) as u8] + varint(value / 128)
    }
}

/// The postcard encoding of what a profile is made of: the bytes of the two hashes, then the numbers and
/// the flag, without anything between.
pub open spec fn profile_encoding(
    model: Seq<u8>,
    tokenizer: Seq<u8>,
    dimension: u32,
    dtype: u32,
    normalized: bool,
    similarity: u32,
) -> Seq<u8> {
    model + tokenizer + varint(dimension as nat) + varint(dtype as nat) + seq![
        if normalized {
            1u8
        } else {
            0u8
        },
    ] + varint(similarity as nat)
}

/// `postcard::to_stdvec`: the encoding of a tuple. An array of bytes and a tuple are written without a
/// length, a byte as it is, a flag as one byte, and a 32-bit number in groups of seven bits. Writing into
/// a growing vector does not fail. Number formats and comparisons go by their place among the variants,
/// which is how postcard writes a variant.
#[verifier::external_body]
fn encode_profile(
    model: [u8; 32],
    tokenizer: [u8; 32],
    dimension: u32,
    dtype: u32,
    normalized: bool,
    similarity: u32,
) -> (encoded: Option<Vec<u8>>)
    ensures
        encoded is Some,
        encoded->Some_0@ == profile_encoding(
            model@,
            tokenizer@,
            dimension,
            dtype,
            normalized,
            similarity,
        ),
{
    postcard::to_stdvec(&(model, tokenizer, dimension, dtype, normalized, similarity)).ok()
}

/// The place of a number format among the variants.
pub open spec fn dtype_place(dtype: EmbeddingDType) -> u32 {
    match dtype {
        EmbeddingDType::F16 => 0,
        EmbeddingDType::Bf16 => 1,
    }
}

/// The place of a comparison among the variants.
pub open spec fn similarity_place(similarity: Similarity) -> u32 {
    match similarity {
        Similarity::Cosine => 0,
        Similarity::Dot => 1,
        Similarity::Euclidean => 2,
    }
}

/// The encoding of a profile without its hash.
pub open spec fn encoding_of(profile: EmbeddingProfile) -> Seq<u8> {
    profile_encoding(
        profile.model_hash@,
        profile.tokenizer_hash@,
        profile.dimension,
        dtype_place(profile.dtype),
        profile.normalized,
        similarity_place(profile.similarity),
    )
}

/// Two profiles are the same.
pub open spec fn same_profile(left: EmbeddingProfile, right: EmbeddingProfile) -> bool {
    &&& left.model_hash@ == right.model_hash@
    &&& left.tokenizer_hash@ == right.tokenizer_hash@
    &&& left.dimension == right.dimension
    &&& left.dtype == right.dtype
    &&& left.normalized == right.normalized
    &&& left.similarity == right.similarity
    &&& left.profile_hash@ == right.profile_hash@
}

pub(crate) fn same_digest(left: &[u8; 32], right: &[u8; 32]) -> (same: bool)
    ensures
        same == (left@ == right@),
{
    for index in 0..32usize
        invariant
            left@.len() == 32,
            right@.len() == 32,
            forall|i: int| 0 <= i < index ==> left@[i] == right@[i],
    {
        if left[index] != right[index] {
            return false;
        }
    }
    assert(left@ =~= right@);
    true
}

/// What keeps a profile from being valid.
pub open spec fn profile_fault(profile: EmbeddingProfile) -> Option<(ErrorCode, Seq<char>)> {
    if profile.dimension == 0 {
        Some((ErrorCode::EmbeddingProfileMismatch, "embedding dimension must be positive"@))
    } else if blake3_digest(encoding_of(profile)) != profile.profile_hash@ {
        Some((ErrorCode::EmbeddingProfileMismatch, "embedding profile hash is invalid"@))
    } else {
        None
    }
}

impl EmbeddingProfile {
    /// A profile with the hash of its fields.
    pub fn new(
        model_hash: [u8; 32],
        tokenizer_hash: [u8; 32],
        dimension: u32,
        dtype: EmbeddingDType,
        normalized: bool,
        similarity: Similarity,
    ) -> (result: Result<Self>)
        ensures
            ({
                let encoded = profile_encoding(
                    model_hash@,
                    tokenizer_hash@,
                    dimension,
                    dtype_place(dtype),
                    normalized,
                    similarity_place(similarity),
                );
                if dimension == 0 {
                    fails_with(
                        result,
                        ErrorCode::EmbeddingProfileMismatch,
                        "embedding dimension must be positive"@,
                    )
                } else {
                    result matches Ok(profile) && {
                        &&& profile.model_hash == model_hash
                        &&& profile.tokenizer_hash == tokenizer_hash
                        &&& profile.dimension == dimension
                        &&& profile.dtype == dtype
                        &&& profile.normalized == normalized
                        &&& profile.similarity == similarity
                        &&& profile.profile_hash@ == blake3_digest(encoded)
                    }
                }
            }),
            result matches Ok(profile) ==> profile_fault(profile) is None,
    {
        if dimension == 0 {
            return Err(
                Error::new(
                    ErrorCode::EmbeddingProfileMismatch,
                    "embedding dimension must be positive",
                ),
            );
        }
        let dtype_index: u32 = match dtype {
            EmbeddingDType::F16 => 0,
            EmbeddingDType::Bf16 => 1,
        };
        let similarity_index: u32 = match similarity {
            Similarity::Cosine => 0,
            Similarity::Dot => 1,
            Similarity::Euclidean => 2,
        };
        let encoded = match encode_profile(
            model_hash,
            tokenizer_hash,
            dimension,
            dtype_index,
            normalized,
            similarity_index,
        ) {
            Some(encoded) => encoded,
            None => {
                return Err(Error::internal("embedding profile encoding failed"));
            },
        };
        Ok(profile_with_hash(model_hash, tokenizer_hash, dimension, dtype, normalized, similarity,
            encoded.as_slice()))
    }

    /// Accepts a profile whose hash is that of its fields.
    pub fn validate(&self) -> (result: Result<()>)
        ensures
            match profile_fault(*self) {
                Some(fault) => fails_with(result, fault.0, fault.1),
                None => result is Ok,
            },
    {
        let expected = match EmbeddingProfile::new(
            self.model_hash,
            self.tokenizer_hash,
            self.dimension,
            self.dtype,
            self.normalized,
            self.similarity,
        ) {
            Ok(expected) => expected,
            Err(error) => {
                return Err(error);
            },
        };
        if !same_digest(&expected.profile_hash, &self.profile_hash) {
            return Err(
                Error::new(
                    ErrorCode::EmbeddingProfileMismatch,
                    "embedding profile hash is invalid",
                ),
            );
        }
        Ok(())
    }

    /// Whether two profiles are the same.
    pub fn matches_profile(&self, other: &Self) -> (same: bool)
        ensures
            same == same_profile(*self, *other),
    {
        let same_dtype = match (self.dtype, other.dtype) {
            (EmbeddingDType::F16, EmbeddingDType::F16) => true,
            (EmbeddingDType::Bf16, EmbeddingDType::Bf16) => true,
            _ => false,
        };
        let same_similarity = match (self.similarity, other.similarity) {
            (Similarity::Cosine, Similarity::Cosine) => true,
            (Similarity::Dot, Similarity::Dot) => true,
            (Similarity::Euclidean, Similarity::Euclidean) => true,
            _ => false,
        };
        same_dtype && same_similarity && self.dimension == other.dimension && self.normalized
            == other.normalized && same_digest(&self.model_hash, &other.model_hash) && same_digest(
            &self.tokenizer_hash,
            &other.tokenizer_hash,
        ) && same_digest(&self.profile_hash, &other.profile_hash)
    }
}

/// A profile whose hash is the digest of its encoding.
pub fn profile_with_hash(
    model_hash: [u8; 32],
    tokenizer_hash: [u8; 32],
    dimension: u32,
    dtype: EmbeddingDType,
    normalized: bool,
    similarity: Similarity,
    encoded: &[u8],
) -> (profile: EmbeddingProfile)
    ensures
        profile.model_hash == model_hash,
        profile.tokenizer_hash == tokenizer_hash,
        profile.dimension == dimension,
        profile.dtype == dtype,
        profile.normalized == normalized,
        profile.similarity == similarity,
        profile.profile_hash@ == blake3_digest(encoded@),
{
    EmbeddingProfile {
        model_hash,
        tokenizer_hash,
        dimension,
        dtype,
        normalized,
        similarity,
        profile_hash: digest(encoded),
    }
}

/// Durable index family.
#[derive(Clone, Copy, Debug, PartialEq, Eq, Structural)]
pub enum GraphIndexKind {
    Equality,
    Range,
    Text,
    Vector,
}

/// Minimal durable ordinary-index definition. Physical postings and ANN pages are derived.
pub struct GraphIndexDefinition {
    pub name: String,
    pub kind: GraphIndexKind,
    pub label: LabelId,
    pub properties: Vec<PropertyId>,
    /// Enforced node-property uniqueness constraint backed by this equality posting.
    pub unique: bool,
}

/// Local lifecycle of one rebuildable physical index.
#[derive(Clone, Copy, Debug, PartialEq, Eq, Structural)]
pub enum DerivedIndexState {
    Populating,
    Online,
    Failed,
    Dropping,
}

/// Durable mapping from one scalar text source to one canonical vector column.
pub struct EmbeddingIndexDefinition {
    pub name: String,
    pub label: LabelId,
    pub source_property: PropertyId,
    pub target_property: PropertyId,
    pub model: String,
}

/// Labels and properties that a schema knows.
pub struct SchemaNames {
    pub labels: u32,
    pub properties: NameCatalog,
}

impl SchemaNames {
    pub open spec fn knows_label(&self, label: LabelId) -> bool {
        label.0 < self.labels
    }

    pub open spec fn knows_property(&self, property: PropertyId) -> bool {
        property.0 < self.properties.names().len()
    }
}

/// What keeps a definition out.
pub open spec fn definition_fault(
    schema: SchemaNames,
    definition: GraphIndexDefinition,
) -> Option<Seq<char>> {
    let bytes = encode_utf8(definition.name@).len();
    if bytes == 0 || bytes > 255 {
        Some("index name must contain 1..=255 bytes"@)
    } else if !schema.knows_label(definition.label) || definition.properties@.len() == 0 || exists|
        i: int,
    |
        0 <= i < definition.properties@.len() && !schema.knows_property(
            #[trigger] definition.properties@[i],
        ) {
        Some("index definition references unknown or empty schema targets"@)
    } else if (definition.kind == GraphIndexKind::Text || definition.kind
        == GraphIndexKind::Vector) && definition.properties@.len() != 1 {
        Some("text and vector indexes require exactly one property"@)
    } else if definition.unique && (definition.kind != GraphIndexKind::Equality
        || definition.properties@.len() != 1) {
        Some("a uniqueness constraint requires exactly one equality-indexed property"@)
    } else {
        None
    }
}

fn refuse(message: &str) -> (result: Result<()>)
    ensures
        fails_with(result, ErrorCode::QueryType, message@),
{
    Err(Error::new(ErrorCode::QueryType, message))
}

pub fn validate_definition(schema: &SchemaNames, definition: &GraphIndexDefinition) -> (result:
    Result<()>)
    requires
        schema.properties.wf(),
    ensures
        match definition_fault(*schema, *definition) {
            Some(message) => fails_with(result, ErrorCode::QueryType, message),
            None => result is Ok,
        },
{
    let bytes: usize = definition.name.as_str().as_bytes().len();
    if bytes == 0 || bytes > 255 {
        return refuse("index name must contain 1..=255 bytes");
    }
    if definition.label.0 >= schema.labels || definition.properties.len() == 0 {
        return refuse("index definition references unknown or empty schema targets");
    }
    for index in 0..definition.properties.len()
        invariant
            schema.properties.wf(),
            0 < bytes <= 255,
            bytes == encode_utf8(definition.name@).len(),
            forall|i: int|
                0 <= i < index ==> schema.knows_property(#[trigger] definition.properties@[i]),
    {
        if schema.properties.property_name(definition.properties[index]).is_none() {
            assert(!schema.knows_property(definition.properties@[index as int]));
            return refuse("index definition references unknown or empty schema targets");
        }
    }
    let single = definition.properties.len() == 1;
    let (needs_single, equality) = match definition.kind {
        GraphIndexKind::Equality => (false, true),
        GraphIndexKind::Range => (false, false),
        GraphIndexKind::Text => (true, false),
        GraphIndexKind::Vector => (true, false),
    };
    if needs_single && !single {
        return refuse("text and vector indexes require exactly one property");
    }
    if definition.unique && (!equality || !single) {
        return refuse(
            "a uniqueness constraint requires exactly one equality-indexed property",
        );
    }
    Ok(())
}

/// A definition is taken exactly where its name has from 1 to 255 bytes, its label and its properties are
/// known and there are some, an index of text or vectors has one property, and a constraint is an
/// equality index with one property.
pub proof fn law_sound_definitions_are_taken(schema: SchemaNames, definition: GraphIndexDefinition)
    ensures
        definition_fault(schema, definition) is None <==> {
            &&& 1 <= encode_utf8(definition.name@).len() <= 255
            &&& definition.label.0 < schema.labels
            &&& definition.properties@.len() > 0
            &&& forall|i: int|
                0 <= i < definition.properties@.len() ==> (
                #[trigger] definition.properties@[i]).0 < schema.properties.names().len()
            &&& definition.kind == GraphIndexKind::Text ==> definition.properties@.len() == 1
            &&& definition.kind == GraphIndexKind::Vector ==> definition.properties@.len() == 1
            &&& definition.unique ==> definition.kind == GraphIndexKind::Equality
                && definition.properties@.len() == 1
        },
{
    if forall|i: int|
        0 <= i < definition.properties@.len() ==> (#[trigger] definition.properties@[i]).0
            < schema.properties.names().len() {
        assert forall|i: int| 0 <= i < definition.properties@.len() implies schema.knows_property(
            #[trigger] definition.properties@[i],
        ) by {}
    }
    if definition_fault(schema, definition) is None {
        assert forall|i: int| 0 <= i < definition.properties@.len() implies (
        #[trigger] definition.properties@[i]).0 < schema.properties.names().len() by {
            assert(schema.knows_property(definition.properties@[i]));
        }
    }
}

/// A number reads back from its groups of seven bits.
pub proof fn law_varint_reads_back(value: nat)
    ensures
        varint(value).len() > 0,
        value < 128 ==> varint(value) == seq![value as u8],
        value >= 128 ==> varint(value)[0] >= 128 && varint(value)[0] - 128 + 128 * (value / 128)
            == value && varint(value).skip(1) == varint(value / 128),
    decreases value,
{
    if value >= 128 {
        assert(varint(value).skip(1) =~= varint(value / 128));
    }
}

/// What the hash of a profile is taken of starts with the hashes of its model and its tokenizer and ends
/// with its number type, whether it is normalized and its similarity, a byte each.
pub proof fn law_profile_hash_covers_all_choices(profile: EmbeddingProfile, bytes: Seq<u8>)
    requires
        bytes == encoding_of(profile),
    ensures
        (profile.model_hash@ + profile.tokenizer_hash@).is_prefix_of(bytes),
        bytes.len() >= 3,
        profile.dtype == EmbeddingDType::F16 ==> bytes[bytes.len() - 3] == 0,
        profile.dtype == EmbeddingDType::Bf16 ==> bytes[bytes.len() - 3] == 1,
        bytes[bytes.len() - 2] == 1 <==> profile.normalized,
        bytes[bytes.len() - 2] == 0 <==> !profile.normalized,
        profile.similarity == Similarity::Cosine ==> bytes.last() == 0,
        profile.similarity == Similarity::Dot ==> bytes.last() == 1,
        profile.similarity == Similarity::Euclidean ==> bytes.last() == 2,
{
    let ends = varint(similarity_place(profile.similarity) as nat);
    let middle = varint(dtype_place(profile.dtype) as nat);
    assert(ends.len() == 1 && middle.len() == 1);
}

} // verus!
