//! Fingerprint of the kernel sources of a backend.

use crate::bytes::{
    framed_bytes, law_le_round_trip, le_bytes, lemma_byte_ranges, push_framed,
};
use crate::digest::{blake3_digest, digest};
use vstd::prelude::*;
use vstd::utf8::encode_utf8;

verus! {

/// The transcript of the first sources: the name and the text of each, both behind their lengths.
pub open spec fn transcript(sources: Seq<(&str, &str)>, count: int) -> Seq<u8>
    decreases count,
{
    if count <= 0 {
        Seq::empty()
    } else {
        transcript(sources, count - 1) + framed_bytes(encode_utf8(sources[count - 1].0@))
            + framed_bytes(
            encode_utf8(sources[count - 1].1@),
        )
    }
}

/// The digest of the transcript. Names and lengths are part of it, so that moving code between sources,
/// adding one or changing any of them gives another transcript.
pub fn metal_kernel_sources_hash(sources: &[(&str, &str)]) -> (hash: [u8; 32])
    ensures
        hash@ == blake3_digest(transcript(sources@, sources@.len() as int)),
{
    let mut bytes: Vec<u8> = Vec::new();
    for index in 0..sources.len()
        invariant
            bytes@ == transcript(sources@, index as int),
    {
        push_framed(&mut bytes, sources[index].0.as_bytes());
        push_framed(&mut bytes, sources[index].1.as_bytes());
    }
    digest(bytes.as_slice())
}

/// Frames tell where they end: the first of two frames in a row can be read back.
pub proof fn law_frames_are_unambiguous(
    first: Seq<u8>,
    rest: Seq<u8>,
    other: Seq<u8>,
    more: Seq<u8>,
)
    requires
        framed_bytes(first) + rest == framed_bytes(other) + more,
        first.len() <= u64::MAX,
        other.len() <= u64::MAX,
    ensures
        first == other,
        rest == more,
{
    lemma_byte_ranges();
    law_le_round_trip(first.len(), 8);
    law_le_round_trip(other.len(), 8);
    let left = framed_bytes(first) + rest;
    let right = framed_bytes(other) + more;
    assert(left.take(8) =~= le_bytes(first.len(), 8));
    assert(right.take(8) =~= le_bytes(other.len(), 8));
    assert(first.len() == other.len());
    assert(first =~= left.subrange(8, 8 + first.len() as int));
    assert(other =~= right.subrange(8, 8 + other.len() as int));
    assert(rest =~= left.skip(8 + first.len() as int));
    assert(more =~= right.skip(8 + other.len() as int));
}

/// Changing a source changes the transcript.
pub proof fn law_transcript_tells_sources_apart(
    left: Seq<(&str, &str)>,
    right: Seq<(&str, &str)>,
    count: int,
    changed: int,
)
    requires
        0 <= changed < count <= left.len(),
        left.len() == right.len(),
        forall|i: int|
            0 <= i < left.len() ==> encode_utf8((#[trigger] left[i]).0@).len() <= u64::MAX
                && encode_utf8(left[i].1@).len() <= u64::MAX,
        forall|i: int|
            0 <= i < right.len() ==> encode_utf8((#[trigger] right[i]).0@).len() <= u64::MAX
                && encode_utf8(right[i].1@).len() <= u64::MAX,
        encode_utf8(left[changed].0@) != encode_utf8(right[changed].0@) || encode_utf8(
            left[changed].1@,
        ) != encode_utf8(right[changed].1@),
    ensures
        transcript(left, count) != transcript(right, count),
{
    if transcript(left, count) == transcript(right, count) {
        lemma_tail(left, 0, count);
        lemma_tail(right, 0, count);
        lemma_tails_agree(left, right, 0, count, changed);
    }
}

/// The transcript of the sources from one place to another.
spec fn tail(sources: Seq<(&str, &str)>, from: int, to: int) -> Seq<u8>
    decreases to - from,
{
    if from >= to {
        Seq::empty()
    } else {
        framed_bytes(encode_utf8(sources[from].0@)) + (framed_bytes(encode_utf8(sources[from].1@))
            + tail(
            sources,
            from + 1,
            to,
        ))
    }
}

proof fn lemma_tail_last(sources: Seq<(&str, &str)>, from: int, to: int)
    requires
        0 <= from < to,
    ensures
        tail(sources, from, to) == tail(sources, from, to - 1) + framed_bytes(
            encode_utf8(sources[to - 1].0@),
        ) + framed_bytes(encode_utf8(sources[to - 1].1@)),
    decreases to - from,
{
    if from + 1 < to {
        lemma_tail_last(sources, from + 1, to);
        assert(tail(sources, from, to) =~= tail(sources, from, to - 1) + framed_bytes(
            encode_utf8(sources[to - 1].0@),
        ) + framed_bytes(encode_utf8(sources[to - 1].1@)));
    } else {
        assert(tail(sources, to, to) =~= Seq::empty());
        assert(tail(sources, from, to - 1) =~= Seq::empty());
        assert(tail(sources, from, to) =~= tail(sources, from, to - 1) + framed_bytes(
            encode_utf8(sources[to - 1].0@),
        ) + framed_bytes(encode_utf8(sources[to - 1].1@)));
    }
}

proof fn lemma_tail(sources: Seq<(&str, &str)>, from: int, to: int)
    requires
        from == 0,
        0 <= to,
    ensures
        tail(sources, from, to) == transcript(sources, to),
    decreases to,
{
    if to > 0 {
        lemma_tail(sources, from, to - 1);
        lemma_tail_last(sources, from, to);
    }
}

proof fn lemma_tails_agree(
    left: Seq<(&str, &str)>,
    right: Seq<(&str, &str)>,
    from: int,
    to: int,
    place: int,
)
    requires
        0 <= from <= place < to <= left.len(),
        left.len() == right.len(),
        forall|i: int|
            0 <= i < left.len() ==> encode_utf8((#[trigger] left[i]).0@).len() <= u64::MAX
                && encode_utf8(left[i].1@).len() <= u64::MAX,
        forall|i: int|
            0 <= i < right.len() ==> encode_utf8((#[trigger] right[i]).0@).len() <= u64::MAX
                && encode_utf8(right[i].1@).len() <= u64::MAX,
        tail(left, from, to) == tail(right, from, to),
    ensures
        encode_utf8(left[place].0@) == encode_utf8(right[place].0@),
        encode_utf8(left[place].1@) == encode_utf8(right[place].1@),
    decreases to - from,
{
    let a = left[from];
    let b = right[from];
    let rest = framed_bytes(encode_utf8(a.1@)) + tail(left, from + 1, to);
    let more = framed_bytes(encode_utf8(b.1@)) + tail(right, from + 1, to);
    law_frames_are_unambiguous(encode_utf8(a.0@), rest, encode_utf8(b.0@), more);
    law_frames_are_unambiguous(
        encode_utf8(a.1@),
        tail(left, from + 1, to),
        encode_utf8(b.1@),
        tail(right, from + 1, to),
    );
    if from < place {
        lemma_tails_agree(left, right, from + 1, to, place);
    }
}

} // verus!
