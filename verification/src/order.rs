//! Integer keys that order like tuples, and ascending sequences of them.

use vstd::prelude::*;

verus! {

/// A triple as one number: triples compare like their numbers.
pub open spec fn triple_key(triple: (u32, u32, u32)) -> u128 {
    (triple.0 * 0x1_0000_0000_0000_0000 + triple.1 * 0x1_0000_0000 + triple.2) as u128
}

/// A pair as one number: pairs compare like their numbers.
pub open spec fn pair_key(pair: (u32, u32)) -> u128 {
    (pair.0 * 0x1_0000_0000 + pair.1) as u128
}

pub open spec fn triple_of(key: u128) -> (u32, u32, u32) {
    (
        (key / 0x1_0000_0000_0000_0000) as u32,
        ((key / 0x1_0000_0000) % 0x1_0000_0000) as u32,
        (key % 0x1_0000_0000) as u32,
    )
}

pub open spec fn pair_of(key: u128) -> (u32, u32) {
    ((key / 0x1_0000_0000) as u32, (key % 0x1_0000_0000) as u32)
}

pub open spec fn triple_less(left: (u32, u32, u32), right: (u32, u32, u32)) -> bool {
    left.0 < right.0 || left.0 == right.0 && (left.1 < right.1 || left.1 == right.1 && left.2
        < right.2)
}

pub open spec fn pair_less(left: (u32, u32), right: (u32, u32)) -> bool {
    left.0 < right.0 || left.0 == right.0 && left.1 < right.1
}

pub proof fn lemma_triple_key(triple: (u32, u32, u32))
    ensures
        triple_of(triple_key(triple)) == triple,
        triple_key(triple) == triple.0 * 0x1_0000_0000_0000_0000 + triple.1 * 0x1_0000_0000
            + triple.2,
{
}

pub proof fn lemma_pair_key(pair: (u32, u32))
    ensures
        pair_of(pair_key(pair)) == pair,
        pair_key(pair) == pair.0 * 0x1_0000_0000 + pair.1,
{
}

/// Triples compare like their keys.
pub proof fn law_triple_key_order(left: (u32, u32, u32), right: (u32, u32, u32))
    ensures
        triple_key(left) < triple_key(right) <==> triple_less(left, right),
{
    lemma_triple_key(left);
    lemma_triple_key(right);
}

/// Pairs compare like their keys.
pub proof fn law_pair_key_order(left: (u32, u32), right: (u32, u32))
    ensures
        pair_key(left) < pair_key(right) <==> pair_less(left, right),
{
    lemma_pair_key(left);
    lemma_pair_key(right);
}

pub fn encode_triple(triple: (u32, u32, u32)) -> (key: u128)
    ensures
        key == triple_key(triple),
{
    (triple.0 as u128) * 0x1_0000_0000_0000_0000 + (triple.1 as u128) * 0x1_0000_0000
        + triple.2 as u128
}

pub fn decode_triple(key: u128) -> (triple: (u32, u32, u32))
    requires
        key < 0x1_0000_0000_0000_0000_0000_0000,
    ensures
        triple == triple_of(key),
{
    (
        (key / 0x1_0000_0000_0000_0000) as u32,
        ((key / 0x1_0000_0000) % 0x1_0000_0000) as u32,
        (key % 0x1_0000_0000) as u32,
    )
}

pub fn encode_pair(pair: (u32, u32)) -> (key: u128)
    ensures
        key == pair_key(pair),
{
    (pair.0 as u128) * 0x1_0000_0000 + pair.1 as u128
}

pub fn decode_pair(key: u128) -> (pair: (u32, u32))
    requires
        key < 0x1_0000_0000_0000_0000,
    ensures
        pair == pair_of(key),
{
    ((key / 0x1_0000_0000) as u32, (key % 0x1_0000_0000) as u32)
}

/// No key is above a later one.
pub open spec fn sorted(keys: Seq<u128>) -> bool {
    forall|i: int, j: int| 0 <= i < j < keys.len() ==> #[trigger] keys[i] <= #[trigger] keys[j]
}

/// `<[u128]>::sort_unstable`: the same keys, none above a later one.
#[verifier::external_body]
pub(crate) fn sort_keys(keys: &mut Vec<u128>)
    ensures
        sorted(final(keys)@),
        final(keys)@.to_multiset() == old(keys)@.to_multiset(),
{
    keys.sort_unstable();
}

/// Two sequences of one multiset hold the same keys and have one length.
pub proof fn lemma_permutation(left: Seq<u128>, right: Seq<u128>)
    requires
        left.to_multiset() == right.to_multiset(),
    ensures
        left.len() == right.len(),
        forall|key: u128| #[trigger] left.contains(key) == right.contains(key),
{
    left.to_multiset_ensures();
    right.to_multiset_ensures();
    assert forall|key: u128| #[trigger] left.contains(key) == right.contains(key) by {
        assert(left.contains(key) <==> left.to_multiset().count(key) > 0);
        assert(right.contains(key) <==> right.to_multiset().count(key) > 0);
    }
}

/// Two sorted sequences of one multiset are equal.
pub proof fn lemma_sorted_unique(left: Seq<u128>, right: Seq<u128>)
    requires
        sorted(left),
        sorted(right),
        left.to_multiset() == right.to_multiset(),
    ensures
        left == right,
    decreases left.len(),
{
    lemma_permutation(left, right);
    if left.len() > 0 {
        let last = left.len() - 1;
        let a = left[last];
        let b = right[last];
        assert(right.contains(a)) by {
            assert(left.contains(a));
        }
        assert(left.contains(b)) by {
            assert(right.contains(b));
        }
        let i = choose|i: int| 0 <= i < right.len() && right[i] == a;
        let j = choose|j: int| 0 <= j < left.len() && left[j] == b;
        assert(a <= b) by {
            if i < last {
                assert(right[i] <= right[last]);
            }
        }
        assert(b <= a) by {
            if j < last {
                assert(left[j] <= left[last]);
            }
        }
        let l = left.drop_last();
        let r = right.drop_last();
        assert(left =~= l.push(a));
        assert(right =~= r.push(b));
        l.to_multiset_ensures();
        r.to_multiset_ensures();
        left.to_multiset_ensures();
        right.to_multiset_ensures();
        assert(l.push(a).to_multiset() =~= l.to_multiset().insert(a));
        assert(r.push(b).to_multiset() =~= r.to_multiset().insert(b));
        assert(l.to_multiset() =~= l.to_multiset().insert(a).remove(a));
        assert(r.to_multiset() =~= r.to_multiset().insert(b).remove(b));
        assert forall|x: int, y: int| 0 <= x < y < l.len() implies #[trigger] l[x]
            <= #[trigger] l[y] by {
            assert(left[x] <= left[y]);
        }
        assert forall|x: int, y: int| 0 <= x < y < r.len() implies #[trigger] r[x]
            <= #[trigger] r[y] by {
            assert(right[x] <= right[y]);
        }
        lemma_sorted_unique(l, r);
    } else {
        assert(left =~= right);
    }
}

} // verus!
