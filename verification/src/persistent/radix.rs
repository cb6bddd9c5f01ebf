//! A persistent fixed-depth radix map over 128-bit keys.

use crate::arith::{saturated, saturating_product};
use crate::persistent::arena::room;
use crate::shared::{clone_faithful, make_mut, same_allocation, share};
use std::sync::Arc;
use vstd::arithmetic::power2::pow2;
use vstd::layout::size_of;
use vstd::prelude::*;

verus! {

const RADIX_BITS: u32 = 4;

const RADIX_FANOUT: usize = 16;

const RADIX_LEVELS: u32 = 32;

const RADIX_LEAF_CAPACITY: usize = 8;

enum RadixNode<V> {
    Branch(Vec<Option<Arc<RadixNode<V>>>>),
    Leaf(Vec<(u128, V)>),
}

type Child<V> = Option<Arc<RadixNode<V>>>;

/// Keys below one node at `depth`: 16 to the number of levels left.
spec fn width(depth: int) -> int {
    pow2((128 - 4 * depth) as nat) as int
}

spec fn spec_slot(key: int, depth: int) -> int {
    (key / width(depth + 1)) % 16
}

proof fn lemma_width(depth: int)
    requires
        0 <= depth <= 32,
    ensures
        width(depth) >= 1,
        depth < 32 ==> width(depth) == 16 * width(depth + 1),
        depth == 32 ==> width(depth) == 1,
{
    vstd::arithmetic::power2::lemma_pow2_pos((128 - 4 * depth) as nat);
    vstd::arithmetic::power2::lemma2_to64();
    if depth < 32 {
        vstd::arithmetic::power2::lemma_pow2_adds(4, (128 - 4 * (depth + 1)) as nat);
    }
}

proof fn lemma_root_width(key: u128)
    ensures
        0 <= key < width(0),
{
    vstd::arithmetic::power2::lemma_pow2_adds(64, 64);
    vstd::arithmetic::power2::lemma2_to64_rest();
}

/// Slot of a key under an aligned base: the child whose range holds it.
proof fn lemma_slot(key: int, depth: int, base: int, slot: int)
    requires
        0 <= depth < 32,
        base >= 0,
        base % width(depth) == 0,
        0 <= slot < 16,
    ensures
        base + slot * width(depth + 1) <= key < base + (slot + 1) * width(depth + 1) ==> spec_slot(
            key,
            depth,
        ) == slot,
        base <= key < base + width(depth) ==> {
            let own = spec_slot(key, depth);
            &&& 0 <= own < 16
            &&& base + own * width(depth + 1) <= key < base + own * width(depth + 1) + width(
                depth + 1,
            )
        },
        (base + slot * width(depth + 1)) % width(depth + 1) == 0,
        base + slot * width(depth + 1) >= 0,
        slot * width(depth + 1) + width(depth + 1) <= width(depth),
        (slot + 1) * width(depth + 1) == slot * width(depth + 1) + width(depth + 1),
{
    lemma_width(depth);
    lemma_width(depth + 1);
    let inner = width(depth + 1);
    let block = base / width(depth);
    vstd::arithmetic::div_mod::lemma_fundamental_div_mod(base, width(depth));
    assert(base == block * 16 * inner) by (nonlinear_arith)
        requires
            base == width(depth) * block + 0,
            width(depth) == 16 * inner,
    ;
    assert((slot + 1) * inner == slot * inner + inner) by (nonlinear_arith);
    assert(slot * inner >= 0) by (nonlinear_arith)
        requires
            slot >= 0,
            inner >= 1,
    ;
    assert(slot * inner + inner <= 16 * inner) by (nonlinear_arith)
        requires
            slot <= 15,
            inner >= 1,
    ;
    assert(base + slot * inner == (block * 16 + slot) * inner) by (nonlinear_arith)
        requires
            base == block * 16 * inner,
    ;
    vstd::arithmetic::div_mod::lemma_mod_multiples_basic(block * 16 + slot, inner);
    if base + slot * inner <= key < base + (slot + 1) * inner {
        vstd::arithmetic::div_mod::lemma_fundamental_div_mod_converse(
            key,
            inner,
            block * 16 + slot,
            key - base - slot * inner,
        );
        assert((block * 16 + slot) % 16 == slot);
    }
    if base <= key < base + width(depth) {
        let q = key / inner;
        vstd::arithmetic::div_mod::lemma_fundamental_div_mod(key, inner);
        assert(0 <= key % inner < inner) by (nonlinear_arith)
            requires
                inner >= 1,
        ;
        assert(block * 16 <= q < block * 16 + 16) by (nonlinear_arith)
            requires
                key == inner * q + key % inner,
                0 <= key % inner < inner,
                block * 16 * inner <= key < block * 16 * inner + 16 * inner,
                inner >= 1,
        ;
        let own = q - block * 16;
        assert(q % 16 == own);
        assert(base + own * inner == q * inner) by (nonlinear_arith)
            requires
                base == block * 16 * inner,
                own == q - block * 16,
        ;
        assert(q * inner == inner * q) by (nonlinear_arith);
    }
}

fn slot_of(key: u128, depth: u32) -> (slot: usize)
    requires
        depth < 32,
    ensures
        slot == spec_slot(key as int, depth as int),
        slot < 16,
{
    let shift: u128 = (128 - RADIX_BITS * (depth + 1)) as u128;
    proof {
        vstd::bits::lemma_u128_shr_is_div(key, shift);
        lemma_width(depth + 1);
    }
    let moved: u128 = key >> shift;
    assert(moved & 15 == moved % 16) by (bit_vector);
    (moved & 15) as usize
}

/// Entries hold strictly ascending keys.
spec fn ascending<V>(entries: Seq<(u128, V)>) -> bool {
    forall|i: int, j: int|
        0 <= i < j < entries.len() ==> (#[trigger] entries[i]).0 < (#[trigger] entries[j]).0
}

spec fn holds_key<V>(entries: Seq<(u128, V)>, key: u128) -> bool {
    exists|i: int| 0 <= i < entries.len() && (#[trigger] entries[i]).0 == key
}

spec fn find<V>(entries: Seq<(u128, V)>, key: u128) -> Option<V> {
    if holds_key(entries, key) {
        let i = choose|i: int| 0 <= i < entries.len() && (#[trigger] entries[i]).0 == key;
        Some(entries[i].1)
    } else {
        None
    }
}

proof fn lemma_find<V>(entries: Seq<(u128, V)>, index: int)
    requires
        ascending(entries),
        0 <= index < entries.len(),
    ensures
        find(entries, entries[index].0) == Some(entries[index].1),
{
    let key = entries[index].0;
    assert(holds_key(entries, key));
    let i = choose|i: int| 0 <= i < entries.len() && (#[trigger] entries[i]).0 == key;
    assert(i == index) by {
        if i < index {
            assert(entries[i].0 < entries[index].0);
        }
        if index < i {
            assert(entries[index].0 < entries[i].0);
        }
    }
}

impl<V> RadixNode<V> {
    spec fn lookup(&self, depth: int, key: u128) -> Option<V>
        decreases 33 - depth,
    {
        match self {
            RadixNode::Leaf(entries) => find(entries@, key),
            RadixNode::Branch(children) => if 0 <= depth < 32 {
                match children@[spec_slot(key as int, depth)] {
                    Some(child) => child.lookup(depth + 1, key),
                    None => None,
                }
            } else {
                None
            },
        }
    }

    /// The keys of a node at `depth` lie in the `width(depth)` keys from `base` on.
    spec fn wf(&self, depth: int, base: int) -> bool
        decreases 33 - depth,
    {
        match self {
            RadixNode::Leaf(entries) => {
                &&& ascending(entries@)
                &&& forall|i: int|
                    0 <= i < entries.len() ==> base <= (#[trigger] entries@[i]).0 < base + width(
                        depth,
                    )
            },
            RadixNode::Branch(children) => {
                &&& 0 <= depth < 32
                &&& children.len() == 16
                &&& forall|i: int|
                    0 <= i < 16 ==> match #[trigger] children@[i] {
                        Some(child) => child.wf(depth + 1, base + i * width(depth + 1)),
                        None => true,
                    }
            },
        }
    }

    spec fn entries(&self, depth: int) -> Seq<(u128, V)>
        decreases 33 - depth, 17int,
    {
        match self {
            RadixNode::Leaf(entries) => entries@,
            RadixNode::Branch(children) => if 0 <= depth < 32 {
                child_entries(children@, depth, 16)
            } else {
                Seq::empty()
            },
        }
    }

    pub closed spec fn alike(&self, other: &Self) -> bool {
        match (self, other) {
            (RadixNode::Leaf(first), RadixNode::Leaf(second)) => first@ == second@,
            (RadixNode::Branch(first), RadixNode::Branch(second)) => first@ == second@,
            _ => false,
        }
    }
}

/// Entries below the first `count` children, in slot order.
spec fn child_entries<V>(children: Seq<Child<V>>, depth: int, count: int) -> Seq<(u128, V)>
    decreases 33 - depth, count,
{
    if count <= 0 || !(0 <= depth < 32) {
        Seq::empty()
    } else {
        child_entries(children, depth, count - 1) + slot_entries(children[count - 1], depth + 1)
    }
}

spec fn slot_entries<V>(child: Child<V>, depth: int) -> Seq<(u128, V)>
    decreases 33 - depth, 18int,
{
    match child {
        Some(node) => node.entries(depth),
        None => Seq::empty(),
    }
}

spec fn child_wf<V>(child: Child<V>, depth: int, base: int) -> bool {
    child matches Some(node) ==> node.wf(depth, base)
}

spec fn child_lookup<V>(child: Child<V>, depth: int, key: u128) -> Option<V> {
    match child {
        Some(node) => node.lookup(depth, key),
        None => None,
    }
}

spec fn child_size<V>(child: Child<V>, depth: int) -> int {
    slot_entries(child, depth).len() as int
}

/// Replacing one child changes the number of entries by the difference of the two children.
proof fn lemma_child_replaced<V>(
    before: Seq<Child<V>>,
    after: Seq<Child<V>>,
    depth: int,
    slot: int,
    count: int,
)
    requires
        0 <= depth < 32,
        0 <= slot < 16,
        0 <= count <= 16,
        before.len() == 16,
        after.len() == 16,
        forall|i: int| 0 <= i < 16 && i != slot ==> after[i] == before[i],
    ensures
        child_entries(after, depth, count).len() == child_entries(before, depth, count).len() + if slot
            < count {
            child_size(after[slot], depth + 1) - child_size(before[slot], depth + 1)
        } else {
            0
        },
    decreases count,
{
    if count > 0 {
        lemma_child_replaced(before, after, depth, slot, count - 1);
    }
}

/// The entries of a node are ascending, inside its range, and exactly what lookups find.
proof fn lemma_entries<V>(node: &RadixNode<V>, depth: int, base: int)
    requires
        0 <= depth <= 32,
        base >= 0,
        base % width(depth) == 0,
        node.wf(depth, base),
    ensures
        ascending(node.entries(depth)),
        forall|i: int|
            0 <= i < node.entries(depth).len() ==> base <= (#[trigger] node.entries(depth)[i]).0
                < base + width(depth),
        forall|key: u128|
            base <= key < base + width(depth) ==> #[trigger] node.lookup(depth, key) == find(
                node.entries(depth),
                key,
            ),
    decreases 33 - depth, 17int,
{
    match node {
        RadixNode::Leaf(entries) => {},
        RadixNode::Branch(children) => {
            lemma_child_entries(children@, depth, base, 16);
            lemma_width(depth);
            assert forall|key: u128| base <= key < base + width(depth) implies #[trigger] node.lookup(
                depth,
                key,
            ) == find(node.entries(depth), key) by {
                lemma_slot(key as int, depth, base, 0);
            }
        },
    }
}

proof fn lemma_child_entries<V>(children: Seq<Child<V>>, depth: int, base: int, count: int)
    requires
        0 <= depth < 32,
        base >= 0,
        base % width(depth) == 0,
        children.len() == 16,
        0 <= count <= 16,
        forall|i: int|
            0 <= i < 16 ==> child_wf(#[trigger] children[i], depth + 1, base + i * width(depth + 1)),
    ensures
        ascending(child_entries(children, depth, count)),
        forall|i: int|
            0 <= i < child_entries(children, depth, count).len() ==> base <= (
            #[trigger] child_entries(children, depth, count)[i]).0 < base + count * width(depth + 1),
        forall|key: u128|
            base <= key < base + count * width(depth + 1) ==> #[trigger] find(
                child_entries(children, depth, count),
                key,
            ) == child_lookup(children[spec_slot(key as int, depth)], depth + 1, key),
    decreases 33 - depth, count,
{
    let inner = width(depth + 1);
    lemma_width(depth);
    lemma_width(depth + 1);
    assert(0 * inner == 0) by (nonlinear_arith);
    if count > 0 {
        let last = count - 1;
        lemma_child_entries(children, depth, base, last);
        lemma_slot(base, depth, base, last);
        let low = child_entries(children, depth, last);
        let child = children[last];
        let child_base = base + last * inner;
        let high = slot_entries(child, depth + 1);
        let all = child_entries(children, depth, count);
        assert(all == low + high);
        if let Some(node) = child {
            assert(child_wf(child, depth + 1, child_base));
            lemma_entries(&*node, depth + 1, child_base);
        }
        assert(count * inner == last * inner + inner) by (nonlinear_arith)
            requires
                last == count - 1,
        ;
        assert forall|i: int| 0 <= i < all.len() implies base <= (#[trigger] all[i]).0 < base + count
            * inner by {
            if i < low.len() {
                assert(all[i] == low[i]);
            } else {
                assert(all[i] == high[i - low.len()]);
            }
        }
        assert forall|i: int, j: int| 0 <= i < j < all.len() implies (#[trigger] all[i]).0 < (
        #[trigger] all[j]).0 by {
            if j < low.len() {
                assert(all[i] == low[i] && all[j] == low[j]);
            } else if i >= low.len() {
                assert(all[i] == high[i - low.len()] && all[j] == high[j - low.len()]);
            } else {
                assert(all[i] == low[i] && all[j] == high[j - low.len()]);
            }
        }
        assert forall|key: u128| base <= key < base + count * inner implies #[trigger] find(all, key)
            == child_lookup(children[spec_slot(key as int, depth)], depth + 1, key) by {
            if key < child_base {
                assert(find(low, key) == child_lookup(
                    children[spec_slot(key as int, depth)],
                    depth + 1,
                    key,
                ));
                if holds_key(low, key) {
                    let i = choose|i: int| 0 <= i < low.len() && (#[trigger] low[i]).0 == key;
                    lemma_find(low, i);
                    assert(all[i] == low[i]);
                    lemma_find(all, i);
                } else {
                    if holds_key(all, key) {
                        let i = choose|i: int| 0 <= i < all.len() && (#[trigger] all[i]).0 == key;
                        if i < low.len() {
                            assert(low[i] == all[i]);
                        } else {
                            assert(all[i] == high[i - low.len()]);
                        }
                    }
                }
            } else {
                lemma_slot(key as int, depth, base, last);
                assert(spec_slot(key as int, depth) == last);
                assert(child_lookup(child, depth + 1, key) == find(high, key)) by {
                    if child is None {
                        assert(!holds_key(high, key));
                    }
                }
                if holds_key(high, key) {
                    let i = choose|i: int| 0 <= i < high.len() && (#[trigger] high[i]).0 == key;
                    lemma_find(high, i);
                    assert(all[i + low.len()] == high[i]);
                    lemma_find(all, i + low.len());
                } else {
                    if holds_key(all, key) {
                        let i = choose|i: int| 0 <= i < all.len() && (#[trigger] all[i]).0 == key;
                        if i < low.len() {
                            assert(low[i] == all[i]);
                        } else {
                            assert(all[i] == high[i - low.len()]);
                        }
                    }
                }
            }
        }
    }
}

impl<V: Clone> Clone for RadixNode<V> {
    fn clone(&self) -> (copy: Self)
        ensures
            clone_faithful::<V>() ==> copy.alike(self),
    {
        match self {
            RadixNode::Branch(children) => RadixNode::Branch(share_children(children)),
            RadixNode::Leaf(entries) => RadixNode::Leaf(clone_entries(entries)),
        }
    }
}

fn share_children<V>(children: &Vec<Child<V>>) -> (copy: Vec<Child<V>>)
    ensures
        copy@ == children@,
{
    let mut copy: Vec<Child<V>> = Vec::with_capacity(children.len());
    for index in 0..children.len()
        invariant
            copy@ == children@.subrange(0, index as int),
    {
        copy.push(
            match &children[index] {
                Some(child) => Some(share(child)),
                None => None,
            },
        );
    }
    assert(copy@ =~= children@);
    copy
}

fn clone_entries<V: Clone>(entries: &Vec<(u128, V)>) -> (copy: Vec<(u128, V)>)
    ensures
        clone_faithful::<V>() ==> copy@ == entries@,
{
    let mut copy: Vec<(u128, V)> = Vec::with_capacity(entries.len());
    for index in 0..entries.len()
        invariant
            copy.len() == index,
            clone_faithful::<V>() ==> copy@ == entries@.subrange(0, index as int),
    {
        let value = entries[index].1.clone();
        assert(cloned(entries@[index as int].1, value));
        copy.push((entries[index].0, value));
        assert(clone_faithful::<V>() ==> copy@ =~= entries@.subrange(0, index + 1));
    }
    assert(clone_faithful::<V>() ==> copy@ =~= entries@);
    copy
}

fn empty_children<V>() -> (children: Vec<Child<V>>)
    ensures
        children.len() == 16,
        forall|i: int| 0 <= i < 16 ==> (#[trigger] children@[i]) is None,
{
    let mut children: Vec<Child<V>> = Vec::with_capacity(RADIX_FANOUT);
    for index in 0..RADIX_FANOUT
        invariant
            children.len() == index,
            forall|i: int| 0 <= i < index ==> (#[trigger] children@[i]) is None,
    {
        children.push(None);
    }
    children
}

/// Where a key stands in ascending entries, or where it belongs.
fn position<V>(entries: &Vec<(u128, V)>, key: u128) -> (place: std::result::Result<usize, usize>)
    requires
        ascending(entries@),
    ensures
        match place {
            Ok(index) => index < entries.len() && entries@[index as int].0 == key && find(
                entries@,
                key,
            ) == Some(entries@[index as int].1),
            Err(index) => {
                &&& index <= entries.len()
                &&& !holds_key(entries@, key)
                &&& forall|i: int| 0 <= i < index ==> (#[trigger] entries@[i]).0 < key
                &&& forall|i: int|
                    index <= i < entries.len() ==> key < (#[trigger] entries@[i]).0
            },
        },
{
    let mut low: usize = 0;
    let mut high: usize = entries.len();
    while low < high
        invariant
            low <= high <= entries.len(),
            ascending(entries@),
            forall|i: int| 0 <= i < low ==> (#[trigger] entries@[i]).0 < key,
            forall|i: int| high <= i < entries.len() ==> key < (#[trigger] entries@[i]).0,
        decreases high - low,
    {
        let middle: usize = low + (high - low) / 2;
        let stored: u128 = entries[middle].0;
        if stored == key {
            proof {
                lemma_find(entries@, middle as int);
            }
            return Ok(middle);
        }
        if stored < key {
            low = middle + 1;
        } else {
            high = middle;
        }
    }
    Err(low)
}

/// What one insertion does to lookups and to the number of entries.
spec fn inserted<V>(
    before: Child<V>,
    after: &RadixNode<V>,
    depth: int,
    base: int,
    key: u128,
    value: V,
) -> bool {
    &&& after.wf(depth, base)
    &&& forall|k: u128|
        #[trigger] after.lookup(depth, k) == if k == key {
            Some(value)
        } else {
            child_lookup(before, depth, k)
        }
    &&& after.entries(depth).len() == child_size(before, depth) + if child_lookup(
        before,
        depth,
        key,
    ) is None {
        1int
    } else {
        0
    }
}

/// Stores one entry in ascending entries.
fn put_entry<V>(entries: &mut Vec<(u128, V)>, key: u128, value: V)
    requires
        ascending(old(entries)@),
    ensures
        ascending(final(entries)@),
        forall|k: u128|
            #[trigger] find(final(entries)@, k) == if k == key {
                Some(value)
            } else {
                find(old(entries)@, k)
            },
        final(entries).len() == old(entries).len() + if find(old(entries)@, key) is None {
            1int
        } else {
            0
        },
        forall|i: int|
            0 <= i < final(entries).len() ==> (#[trigger] final(entries)@[i]).0 == key || holds_key(
                old(entries)@,
                final(entries)@[i].0,
            ),
{
    let ghost before = entries@;
    match position(entries, key) {
        Ok(index) => {
            entries[index].1 = value;
            assert(entries@ =~= before.update(index as int, (key, value)));
            proof {
                assert forall|i: int| 0 <= i < before.len() implies (#[trigger] entries@[i]).0
                    == before[i].0 by {}
                lemma_same_keys(before, entries@, index as int);
            }
        },
        Err(index) => {
            entries.insert(index, (key, value));
            proof {
                lemma_entry_added(before, entries@, index as int, key, value);
            }
        },
    }
}

proof fn lemma_same_keys<V>(before: Seq<(u128, V)>, after: Seq<(u128, V)>, index: int)
    requires
        ascending(before),
        0 <= index < before.len(),
        after.len() == before.len(),
        forall|i: int| 0 <= i < before.len() && i != index ==> after[i] == before[i],
        after[index].0 == before[index].0,
    ensures
        ascending(after),
        forall|k: u128|
            #[trigger] find(after, k) == if k == before[index].0 {
                Some(after[index].1)
            } else {
                find(before, k)
            },
        forall|i: int| 0 <= i < after.len() ==> holds_key(before, (#[trigger] after[i]).0),
{
    assert forall|i: int, j: int| 0 <= i < j < after.len() implies (#[trigger] after[i]).0 < (
    #[trigger] after[j]).0 by {
        assert(before[i].0 < before[j].0);
    }
    assert forall|i: int| 0 <= i < after.len() implies holds_key(
        before,
        (#[trigger] after[i]).0,
    ) by {
        assert(before[i].0 == after[i].0);
    }
    assert forall|k: u128| #[trigger] find(after, k) == if k == before[index].0 {
        Some(after[index].1)
    } else {
        find(before, k)
    } by {
        if holds_key(after, k) {
            let i = choose|i: int| 0 <= i < after.len() && (#[trigger] after[i]).0 == k;
            lemma_find(after, i);
            lemma_find(before, i);
            if k == before[index].0 {
                lemma_find(after, index);
            }
        } else {
            if holds_key(before, k) {
                let i = choose|i: int| 0 <= i < before.len() && (#[trigger] before[i]).0 == k;
                assert(after[i].0 == k);
            }
            assert(after[index].0 != k);
        }
    }
}

proof fn lemma_entry_added<V>(
    before: Seq<(u128, V)>,
    after: Seq<(u128, V)>,
    index: int,
    key: u128,
    value: V,
)
    requires
        ascending(before),
        0 <= index <= before.len(),
        after == before.insert(index, (key, value)),
        forall|i: int| 0 <= i < index ==> (#[trigger] before[i]).0 < key,
        forall|i: int| index <= i < before.len() ==> key < (#[trigger] before[i]).0,
    ensures
        ascending(after),
        !holds_key(before, key),
        forall|k: u128|
            #[trigger] find(after, k) == if k == key {
                Some(value)
            } else {
                find(before, k)
            },
        forall|i: int|
            0 <= i < after.len() ==> (#[trigger] after[i]).0 == key || holds_key(
                before,
                after[i].0,
            ),
{
    assert forall|i: int| 0 <= i < after.len() implies #[trigger] after[i] == if i < index {
        before[i]
    } else if i == index {
        (key, value)
    } else {
        before[i - 1]
    } by {}
    assert forall|i: int, j: int| 0 <= i < j < after.len() implies (#[trigger] after[i]).0 < (
    #[trigger] after[j]).0 by {
        if j < index {
            assert(before[i].0 < before[j].0);
        } else if i > index {
            assert(before[i - 1].0 < before[j - 1].0);
        } else if i < index && j > index {
            assert(before[i].0 < before[j - 1].0);
        }
    }
    assert forall|k: u128| #[trigger] find(after, k) == if k == key {
        Some(value)
    } else {
        find(before, k)
    } by {
        if k == key {
            lemma_find(after, index);
        } else if holds_key(before, k) {
            let i = choose|i: int| 0 <= i < before.len() && (#[trigger] before[i]).0 == k;
            lemma_find(before, i);
            let j = if i < index {
                i
            } else {
                i + 1
            };
            assert(after[j] == before[i]);
            lemma_find(after, j);
        } else if holds_key(after, k) {
            let i = choose|i: int| 0 <= i < after.len() && (#[trigger] after[i]).0 == k;
            let j = if i < index {
                i
            } else {
                i - 1
            };
            assert(before[j] == after[i]);
        }
    }
    assert forall|i: int| 0 <= i < after.len() implies (#[trigger] after[i]).0 == key || holds_key(
        before,
        after[i].0,
    ) by {
        if i < index {
            assert(before[i] == after[i]);
        } else if i > index {
            assert(before[i - 1] == after[i]);
        }
    }
}

/// A branch one of whose children took one insertion.
proof fn lemma_branch_inserted<V>(
    before: Seq<Child<V>>,
    after: RadixNode<V>,
    depth: int,
    base: int,
    key: u128,
    value: V,
)
    requires
        0 <= depth < 32,
        base >= 0,
        base % width(depth) == 0,
        base <= key < base + width(depth),
        before.len() == 16,
        forall|i: int|
            0 <= i < 16 ==> child_wf(#[trigger] before[i], depth + 1, base + i * width(depth + 1)),
        after is Branch,
        ({
            let children = after->Branch_0@;
            let slot = spec_slot(key as int, depth);
            &&& children.len() == 16
            &&& forall|i: int| 0 <= i < 16 && i != slot ==> children[i] == before[i]
            &&& children[slot] is Some
            &&& inserted(
                before[slot],
                &*children[slot]->Some_0,
                depth + 1,
                base + slot * width(depth + 1),
                key,
                value,
            )
        }),
    ensures
        after.wf(depth, base),
        forall|k: u128|
            #[trigger] after.lookup(depth, k) == if k == key {
                Some(value)
            } else {
                child_lookup(before[spec_slot(k as int, depth)], depth + 1, k)
            },
        after.entries(depth).len() == child_entries(before, depth, 16).len() + if child_lookup(
            before[spec_slot(key as int, depth)],
            depth + 1,
            key,
        ) is None {
            1int
        } else {
            0
        },
{
    let children = after->Branch_0@;
    let slot = spec_slot(key as int, depth);
    lemma_slot(key as int, depth, base, 0);
    lemma_child_replaced(before, children, depth, slot, 16);
    assert forall|i: int| 0 <= i < 16 implies match #[trigger] children[i] {
        Some(child) => child.wf(depth + 1, base + i * width(depth + 1)),
        None => true,
    } by {
        assert(child_wf(before[i], depth + 1, base + i * width(depth + 1)));
    }
    assert forall|k: u128| #[trigger] after.lookup(depth, k) == if k == key {
        Some(value)
    } else {
        child_lookup(before[spec_slot(k as int, depth)], depth + 1, k)
    } by {
        lemma_width(depth + 1);
        assert(0 <= spec_slot(k as int, depth) < 16);
        if spec_slot(k as int, depth) == slot {
            let inner = children[slot]->Some_0.lookup(depth + 1, k);
        }
    }
}

fn insert_radix<V: Clone>(
    current: Option<&Arc<RadixNode<V>>>,
    depth: u32,
    key: u128,
    value: V,
    Ghost(base): Ghost<int>,
) -> (node: Arc<RadixNode<V>>)
    requires
        clone_faithful::<V>(),
        depth <= 32,
        base >= 0,
        base % width(depth as int) == 0,
        base <= key < base + width(depth as int),
        child_wf(owned(current), depth as int, base),
    ensures
        inserted(owned(current), &*node, depth as int, base, key, value),
    decreases 32 - depth,
{
    match current {
        None => {
            let mut entries: Vec<(u128, V)> = Vec::new();
            entries.push((key, value));
            proof {
                lemma_find(entries@, 0);
            }
            Arc::new(RadixNode::Leaf(entries))
        },
        Some(node) => match &**node {
            RadixNode::Branch(current_children) => {
                let mut children = share_children(current_children);
                let slot: usize = slot_of(key, depth);
                proof {
                    lemma_slot(key as int, depth as int, base, 0);
                    lemma_slot(key as int, depth as int, base, slot as int);
                    assert forall|i: int| 0 <= i < 16 implies child_wf(
                        #[trigger] children@[i],
                        depth + 1,
                        base + i * width(depth + 1),
                    ) by {}
                }
                let child = insert_radix(
                    children[slot].as_ref(),
                    depth + 1,
                    key,
                    value,
                    Ghost(base + slot * width(depth + 1)),
                );
                let ghost before = children@;
                children.set(slot, Some(child));
                let after = RadixNode::Branch(children);
                proof {
                    lemma_branch_inserted(before, after, depth as int, base, key, value);
                }
                Arc::new(after)
            },
            RadixNode::Leaf(current_entries) => {
                let mut entries = clone_entries(current_entries);
                put_entry(&mut entries, key, value);
                proof {
                    lemma_leaf_range(
                        current_entries@,
                        entries@,
                        key,
                        base,
                        base + width(depth as int),
                    );
                }
                if entries.len() <= RADIX_LEAF_CAPACITY || depth == RADIX_LEVELS {
                    return Arc::new(RadixNode::Leaf(entries));
                }
                let mut children: Vec<Child<V>> = empty_children();
                let ghost all = entries@;
                proof {
                    lemma_no_children(children@, depth as int, 16);
                    assert forall|k: u128| #[trigger]
                        child_lookup(children@[spec_slot(k as int, depth as int)], depth + 1, k)
                        == find(all.subrange(0, 0), k) by {
                        lemma_width(depth + 1);
                        assert(!holds_key(all.subrange(0, 0), k));
                    }
                }
                let total: usize = entries.len();
                for index in 0..total
                    invariant
                        clone_faithful::<V>(),
                        depth < 32,
                        base >= 0,
                        base % width(depth as int) == 0,
                        total == entries.len(),
                        entries@ == all,
                        ascending(all),
                        forall|i: int|
                            0 <= i < all.len() ==> base <= (#[trigger] all[i]).0 < base + width(
                                depth as int,
                            ),
                        split_state(children@, all.subrange(0, index as int), depth as int, base),
                {
                    let entry_key: u128 = entries[index].0;
                    let entry_value = entries[index].1.clone();
                    let ghost before = children@;
                    let ghost done = all.subrange(0, index as int);
                    let slot: usize = slot_of(entry_key, depth);
                    proof {
                        assert(cloned(all[index as int].1, entry_value));
                        assert(base <= all[index as int].0);
                        lemma_slot(entry_key as int, depth as int, base, 0);
                        lemma_slot(entry_key as int, depth as int, base, slot as int);
                    }
                    let child = insert_radix(
                        children[slot].as_ref(),
                        depth + 1,
                        entry_key,
                        entry_value,
                        Ghost(base + slot * width(depth + 1)),
                    );
                    children.set(slot, Some(child));
                    proof {
                        lemma_split_step(before, children@, all, index as int, depth as int, base);
                    }
                }
                let after = RadixNode::Branch(children);
                proof {
                    assert(all.subrange(0, total as int) =~= all);
                    lemma_split_done(after, all, depth as int, base);
                }
                Arc::new(after)
            },
        },
    }
}

spec fn owned<V>(current: Option<&Arc<RadixNode<V>>>) -> Child<V> {
    match current {
        Some(node) => Some(*node),
        None => None,
    }
}

/// Children that hold exactly the entries handed out so far.
spec fn split_state<V>(
    children: Seq<Child<V>>,
    done: Seq<(u128, V)>,
    depth: int,
    base: int,
) -> bool {
    &&& children.len() == 16
    &&& forall|i: int|
        0 <= i < 16 ==> child_wf(#[trigger] children[i], depth + 1, base + i * width(depth + 1))
    &&& forall|k: u128| #[trigger]
        child_lookup(children[spec_slot(k as int, depth)], depth + 1, k) == find(done, k)
    &&& child_entries(children, depth, 16).len() == done.len()
}

proof fn lemma_no_children<V>(children: Seq<Child<V>>, depth: int, count: int)
    requires
        0 <= count <= 16,
        children.len() == 16,
        forall|i: int| 0 <= i < 16 ==> (#[trigger] children[i]) is None,
    ensures
        child_entries(children, depth, count).len() == 0,
    decreases count,
{
    if count > 0 {
        lemma_no_children(children, depth, count - 1);
        assert(children[count - 1] is None);
        assert(slot_entries(children[count - 1], depth + 1) =~= Seq::empty());
    }
}

proof fn lemma_leaf_range<V>(
    before: Seq<(u128, V)>,
    after: Seq<(u128, V)>,
    key: u128,
    low: int,
    high: int,
)
    requires
        low <= key < high,
        forall|i: int| 0 <= i < before.len() ==> low <= (#[trigger] before[i]).0 < high,
        forall|i: int|
            0 <= i < after.len() ==> (#[trigger] after[i]).0 == key || holds_key(
                before,
                after[i].0,
            ),
    ensures
        forall|i: int| 0 <= i < after.len() ==> low <= (#[trigger] after[i]).0 < high,
{
}

proof fn lemma_split_step<V>(
    before: Seq<Child<V>>,
    after: Seq<Child<V>>,
    all: Seq<(u128, V)>,
    index: int,
    depth: int,
    base: int,
)
    requires
        0 <= depth < 32,
        base >= 0,
        base % width(depth) == 0,
        0 <= index < all.len(),
        ascending(all),
        base <= all[index].0 < base + width(depth),
        split_state(before, all.subrange(0, index), depth, base),
        ({
            let slot = spec_slot(all[index].0 as int, depth);
            &&& after.len() == 16
            &&& forall|i: int| 0 <= i < 16 && i != slot ==> after[i] == before[i]
            &&& after[slot] is Some
            &&& inserted(
                before[slot],
                &*after[slot]->Some_0,
                depth + 1,
                base + slot * width(depth + 1),
                all[index].0,
                all[index].1,
            )
        }),
    ensures
        split_state(after, all.subrange(0, index + 1), depth, base),
{
    let done = all.subrange(0, index);
    let next = all.subrange(0, index + 1);
    let key = all[index].0;
    let slot = spec_slot(key as int, depth);
    lemma_slot(key as int, depth, base, 0);
    lemma_child_replaced(before, after, depth, slot, 16);
    assert(!holds_key(done, key)) by {
        if holds_key(done, key) {
            let i = choose|i: int| 0 <= i < done.len() && (#[trigger] done[i]).0 == key;
            assert(all[i].0 < all[index].0);
        }
    }
    assert(child_lookup(before[slot], depth + 1, key) == find(done, key));
    assert(next =~= done.insert(index, (key, all[index].1)));
    assert(ascending(done)) by {
        assert forall|i: int, j: int| 0 <= i < j < done.len() implies (#[trigger] done[i]).0 < (
        #[trigger] done[j]).0 by {
            assert(all[i].0 < all[j].0);
        }
    }
    assert forall|i: int| 0 <= i < index implies (#[trigger] done[i]).0 < key by {
        assert(all[i].0 < all[index].0);
    }
    lemma_entry_added(done, next, index, key, all[index].1);
    assert forall|i: int| 0 <= i < 16 implies child_wf(
        #[trigger] after[i],
        depth + 1,
        base + i * width(depth + 1),
    ) by {
        assert(child_wf(before[i], depth + 1, base + i * width(depth + 1)));
    }
    assert forall|k: u128| #[trigger]
        child_lookup(after[spec_slot(k as int, depth)], depth + 1, k) == find(next, k) by {
        lemma_width(depth + 1);
        assert(0 <= spec_slot(k as int, depth) < 16);
        assert(child_lookup(before[spec_slot(k as int, depth)], depth + 1, k) == find(done, k));
        if spec_slot(k as int, depth) == slot {
            let inner = after[slot]->Some_0.lookup(depth + 1, k);
        }
    }
}

proof fn lemma_split_done<V>(after: RadixNode<V>, all: Seq<(u128, V)>, depth: int, base: int)
    requires
        0 <= depth < 32,
        after is Branch,
        split_state(after->Branch_0@, all, depth, base),
    ensures
        after.wf(depth, base),
        forall|k: u128| #[trigger] after.lookup(depth, k) == find(all, k),
        after.entries(depth).len() == all.len(),
{
    let children = after->Branch_0@;
    assert forall|i: int| 0 <= i < 16 implies match #[trigger] children[i] {
        Some(child) => child.wf(depth + 1, base + i * width(depth + 1)),
        None => true,
    } by {
        assert(child_wf(children[i], depth + 1, base + i * width(depth + 1)));
    }
    assert forall|k: u128| #[trigger] after.lookup(depth, k) == find(all, k) by {
        assert(child_lookup(children[spec_slot(k as int, depth)], depth + 1, k) == find(all, k));
    }
}

/// A node and its clone read alike.
proof fn lemma_alike<V>(before: &RadixNode<V>, after: &RadixNode<V>, depth: int, base: int)
    requires
        *after == *before || after.alike(before),
    ensures
        after.wf(depth, base) == before.wf(depth, base),
        forall|k: u128| #[trigger] after.lookup(depth, k) == before.lookup(depth, k),
        after.entries(depth) == before.entries(depth),
        after.alike(before),
{
}

/// Inserts in place: a node that another generation holds is copied first.
fn insert_radix_cow<V: Clone>(
    current: &mut Arc<RadixNode<V>>,
    depth: u32,
    key: u128,
    value: V,
    Ghost(base): Ghost<int>,
)
    requires
        clone_faithful::<V>(),
        depth <= 32,
        base >= 0,
        base % width(depth as int) == 0,
        base <= key < base + width(depth as int),
        old(current).wf(depth as int, base),
    ensures
        inserted(Some(*old(current)), &**final(current), depth as int, base, key, value),
    decreases 32 - depth,
{
    let ghost original = *current;
    let node = make_mut(current);
    proof {
        lemma_alike(&*original, node, depth as int, base);
    }
    match node {
        RadixNode::Branch(children) => {
            let slot: usize = slot_of(key, depth);
            let ghost before = children@;
            proof {
                lemma_slot(key as int, depth as int, base, 0);
                lemma_slot(key as int, depth as int, base, slot as int);
                assert forall|i: int| 0 <= i < 16 implies child_wf(
                    #[trigger] before[i],
                    depth + 1,
                    base + i * width(depth + 1),
                ) by {}
            }
            match &mut children[slot] {
                Some(child) => {
                    insert_radix_cow(
                        child,
                        depth + 1,
                        key,
                        value,
                        Ghost(base + slot * width(depth + 1)),
                    );
                },
                empty => {
                    let child = insert_radix(
                        None,
                        depth + 1,
                        key,
                        value,
                        Ghost(base + slot * width(depth + 1)),
                    );
                    *empty = Some(child);
                },
            }
            proof {
                lemma_branch_inserted(before, *node, depth as int, base, key, value);
            }
        },
        RadixNode::Leaf(entries) => {
            let ghost before = entries@;
            put_entry(entries, key, value);
            proof {
                lemma_leaf_range(before, entries@, key, base, base + width(depth as int));
            }
            if entries.len() <= RADIX_LEAF_CAPACITY || depth == RADIX_LEVELS {
                return ;
            }
            let mut children: Vec<Child<V>> = empty_children();
            let ghost all = entries@;
            proof {
                lemma_no_children(children@, depth as int, 16);
                assert forall|k: u128| #[trigger]
                    child_lookup(children@[spec_slot(k as int, depth as int)], depth + 1, k)
                    == find(all.subrange(0, 0), k) by {
                    lemma_width(depth + 1);
                    assert(!holds_key(all.subrange(0, 0), k));
                }
            }
            let total: usize = entries.len();
            for index in 0..total
                invariant
                    clone_faithful::<V>(),
                    depth < 32,
                    base >= 0,
                    base % width(depth as int) == 0,
                    total == entries.len(),
                    entries@ == all,
                    ascending(all),
                    forall|i: int|
                        0 <= i < all.len() ==> base <= (#[trigger] all[i]).0 < base + width(
                            depth as int,
                        ),
                    split_state(children@, all.subrange(0, index as int), depth as int, base),
            {
                let entry_key: u128 = entries[index].0;
                let entry_value = entries[index].1.clone();
                let ghost before_step = children@;
                let slot: usize = slot_of(entry_key, depth);
                proof {
                    assert(cloned(all[index as int].1, entry_value));
                    assert(base <= all[index as int].0);
                    lemma_slot(entry_key as int, depth as int, base, 0);
                    lemma_slot(entry_key as int, depth as int, base, slot as int);
                }
                match &mut children[slot] {
                    Some(child) => {
                        insert_radix_cow(
                            child,
                            depth + 1,
                            entry_key,
                            entry_value,
                            Ghost(base + slot * width(depth + 1)),
                        );
                    },
                    empty => {
                        let child = insert_radix(
                            None,
                            depth + 1,
                            entry_key,
                            entry_value,
                            Ghost(base + slot * width(depth + 1)),
                        );
                        *empty = Some(child);
                    },
                }
                proof {
                    lemma_split_step(before_step, children@, all, index as int, depth as int, base);
                }
            }
            *node = RadixNode::Branch(children);
            proof {
                assert(all.subrange(0, total as int) =~= all);
                lemma_split_done(*node, all, depth as int, base);
            }
        },
    }
}

fn get_radix_mut<V: Clone>(
    node: &mut RadixNode<V>,
    depth: u32,
    key: u128,
    Ghost(base): Ghost<int>,
) -> (value: Option<&mut V>)
    requires
        clone_faithful::<V>(),
        depth <= 32,
        base >= 0,
        base % width(depth as int) == 0,
        base <= key < base + width(depth as int),
        old(node).wf(depth as int, base),
    ensures
        final(node).wf(depth as int, base),
        final(node).entries(depth as int).len() == old(node).entries(depth as int).len(),
        match value {
            Some(slot) => {
                &&& old(node).lookup(depth as int, key) == Some(*slot)
                &&& forall|k: u128| #[trigger]
                    final(node).lookup(depth as int, k) == if k == key {
                        Some(*final(slot))
                    } else {
                        old(node).lookup(depth as int, k)
                    }
            },
            None => {
                &&& old(node).lookup(depth as int, key) is None
                &&& forall|k: u128| #[trigger]
                    final(node).lookup(depth as int, k) == old(node).lookup(depth as int, k)
            },
        },
    decreases 32 - depth,
{
    let ghost original = *node;
    match node {
        RadixNode::Branch(children) => {
            let slot: usize = slot_of(key, depth);
            let ghost before = children@;
            proof {
                lemma_slot(key as int, depth as int, base, 0);
                lemma_slot(key as int, depth as int, base, slot as int);
            }
            match &mut children[slot] {
                Some(child) => {
                    let ghost shared = *child;
                    let child = make_mut(child);
                    proof {
                        lemma_alike(
                            &*shared,
                            child,
                            depth + 1,
                            base + slot * width(depth + 1),
                        );
                    }
                    let value = get_radix_mut(
                        child,
                        depth + 1,
                        key,
                        Ghost(base + slot * width(depth + 1)),
                    );
                    proof {
                        lemma_child_mutated(original, *after_borrow(node), depth as int, base,
                            slot as int);
                    }
                    value
                },
                None => {
                    proof {
                        let after = *after_borrow(node);
                        assert(after->Branch_0@ =~= before);
                        lemma_alike(&original, &after, depth as int, base);
                    }
                    None
                },
            }
        },
        RadixNode::Leaf(entries) => match position(entries, key) {
            Ok(index) => {
                let ghost before = entries@;
                let value = &mut entries[index].1;
                proof {
                    let after = after_borrow(entries)@;
                    lemma_same_keys(before, after, index as int);
                    assert forall|i: int| 0 <= i < after.len() implies (#[trigger] after[i]).0
                        == before[i].0 by {}
                }
                Some(value)
            },
            Err(_) => None,
        },
    }
}

/// A branch one of whose children was replaced by another well-formed node of the same size.
proof fn lemma_child_mutated<V>(
    before: RadixNode<V>,
    after: RadixNode<V>,
    depth: int,
    base: int,
    slot: int,
)
    requires
        before is Branch,
        before.wf(depth, base),
        0 <= slot < 16,
        after is Branch,
        after->Branch_0@.len() == 16,
        before->Branch_0@[slot] is Some,
        after->Branch_0@[slot] is Some,
        forall|i: int| 0 <= i < 16 && i != slot ==> after->Branch_0@[i] == before->Branch_0@[i],
        after->Branch_0@[slot]->Some_0.wf(depth + 1, base + slot * width(depth + 1)),
        after->Branch_0@[slot]->Some_0.entries(depth + 1).len()
            == before->Branch_0@[slot]->Some_0.entries(depth + 1).len(),
    ensures
        after.wf(depth, base),
        after.entries(depth).len() == before.entries(depth).len(),
        forall|k: u128| #[trigger]
            after.lookup(depth, k) == if spec_slot(k as int, depth) == slot {
                after->Branch_0@[slot]->Some_0.lookup(depth + 1, k)
            } else {
                before.lookup(depth, k)
            },
{
    let old_children = before->Branch_0@;
    let children = after->Branch_0@;
    lemma_child_replaced(old_children, children, depth, slot, 16);
    assert forall|i: int| 0 <= i < 16 implies match #[trigger] children[i] {
        Some(child) => child.wf(depth + 1, base + i * width(depth + 1)),
        None => true,
    } by {
        let child = old_children[i];
    }
    assert forall|k: u128| #[trigger] after.lookup(depth, k) == if spec_slot(k as int, depth)
        == slot {
        after->Branch_0@[slot]->Some_0.lookup(depth + 1, k)
    } else {
        before.lookup(depth, k)
    } by {
        lemma_width(depth + 1);
        assert(0 <= spec_slot(k as int, depth) < 16);
    }
}

/// What one removal does to lookups and to the number of entries.
spec fn removed_key<V>(
    before: Child<V>,
    after: Child<V>,
    depth: int,
    base: int,
    key: u128,
    removed: Option<V>,
) -> bool {
    &&& child_wf(after, depth, base)
    &&& removed == child_lookup(before, depth, key)
    &&& forall|k: u128|
        #[trigger] child_lookup(after, depth, k) == if k == key {
            None
        } else {
            child_lookup(before, depth, k)
        }
    &&& child_size(after, depth) == child_size(before, depth) - if removed is Some {
        1int
    } else {
        0
    }
}

fn remove_radix<V: Clone>(
    current: Option<&Arc<RadixNode<V>>>,
    depth: u32,
    key: u128,
    Ghost(base): Ghost<int>,
) -> (result: (Option<Arc<RadixNode<V>>>, Option<V>))
    requires
        clone_faithful::<V>(),
        depth <= 32,
        base >= 0,
        base % width(depth as int) == 0,
        base <= key < base + width(depth as int),
        child_wf(owned(current), depth as int, base),
    ensures
        removed_key(owned(current), result.0, depth as int, base, key, result.1),
    decreases 32 - depth,
{
    match current {
        None => (None, None),
        Some(node) => match &**node {
            RadixNode::Leaf(current_entries) => {
                let index: usize = match position(current_entries, key) {
                    Ok(index) => index,
                    Err(_) => {
                        return (Some(share(node)), None);
                    },
                };
                let mut entries = clone_entries(current_entries);
                let (_, removed) = entries.remove(index);
                proof {
                    lemma_entry_removed(current_entries@, entries@, index as int);
                }
                if entries.len() == 0 {
                    proof {
                        assert forall|k: u128| k != key implies #[trigger] find(
                            current_entries@,
                            k,
                        ) is None by {
                            assert(find(entries@, k) is None);
                        }
                    }
                    (None, Some(removed))
                } else {
                    (Some(Arc::new(RadixNode::Leaf(entries))), Some(removed))
                }
            },
            RadixNode::Branch(current_children) => {
                let slot: usize = slot_of(key, depth);
                proof {
                    lemma_slot(key as int, depth as int, base, 0);
                    lemma_slot(key as int, depth as int, base, slot as int);
                }
                let (replacement, removed) = remove_radix(
                    current_children[slot].as_ref(),
                    depth + 1,
                    key,
                    Ghost(base + slot * width(depth + 1)),
                );
                if removed.is_none() {
                    return (Some(share(node)), None);
                }
                let mut children = share_children(current_children);
                children.set(slot, replacement);
                proof {
                    lemma_branch_removed(
                        &**node,
                        RadixNode::Branch(children),
                        depth as int,
                        base,
                        key,
                        removed,
                    );
                }
                let mut occupied = false;
                for index in 0..RADIX_FANOUT
                    invariant
                        children.len() == 16,
                        occupied == exists|i: int| 0 <= i < index && (#[trigger] children@[i]) is Some,
                {
                    if children[index].is_some() {
                        occupied = true;
                    }
                }
                if occupied {
                    (Some(Arc::new(RadixNode::Branch(children))), removed)
                } else {
                    proof {
                        assert forall|i: int| 0 <= i < 16 implies (#[trigger] children@[i]) is None by {}
                        lemma_no_children(children@, depth as int, 16);
                        assert forall|k: u128| k != key implies #[trigger] node.lookup(
                            depth as int,
                            k,
                        ) is None by {
                            lemma_width(depth + 1);
                            assert(0 <= spec_slot(k as int, depth as int) < 16);
                            assert(RadixNode::Branch(children).lookup(depth as int, k) is None);
                        }
                    }
                    (None, removed)
                }
            },
        },
    }
}

proof fn lemma_entry_removed<V>(before: Seq<(u128, V)>, after: Seq<(u128, V)>, index: int)
    requires
        ascending(before),
        0 <= index < before.len(),
        after == before.remove(index),
    ensures
        ascending(after),
        forall|k: u128|
            #[trigger] find(after, k) == if k == before[index].0 {
                None
            } else {
                find(before, k)
            },
        forall|i: int| 0 <= i < after.len() ==> holds_key(before, (#[trigger] after[i]).0),
{
    let key = before[index].0;
    assert(forall|i: int|
        0 <= i < after.len() ==> #[trigger] after[i] == if i < index {
            before[i]
        } else {
            before[i + 1]
        });
    assert forall|i: int, j: int| 0 <= i < j < after.len() implies (#[trigger] after[i]).0 < (
    #[trigger] after[j]).0 by {
        let x = if i < index {
            i
        } else {
            i + 1
        };
        let y = if j < index {
            j
        } else {
            j + 1
        };
        assert(before[x].0 < before[y].0);
    }
    assert forall|i: int| 0 <= i < index implies (#[trigger] after[i]).0 < key by {
        assert(before[i].0 < before[index].0);
    }
    assert forall|i: int| index <= i < after.len() implies key < (#[trigger] after[i]).0 by {
        assert(before[index].0 < before[i + 1].0);
    }
    assert(before =~= after.insert(index, before[index]));
    lemma_entry_added(after, before, index, key, before[index].1);
    assert forall|i: int| 0 <= i < after.len() implies holds_key(
        before,
        (#[trigger] after[i]).0,
    ) by {
        let x = if i < index {
            i
        } else {
            i + 1
        };
        assert(before[x] == after[i]);
    }
    assert forall|k: u128| #[trigger] find(after, k) == if k == key {
        None
    } else {
        find(before, k)
    } by {
        let other = find(before, k);
    }
}

/// A branch one of whose children lost one entry.
proof fn lemma_branch_removed<V>(
    before: &RadixNode<V>,
    after: RadixNode<V>,
    depth: int,
    base: int,
    key: u128,
    removed: Option<V>,
)
    requires
        0 <= depth < 32,
        base >= 0,
        base % width(depth) == 0,
        base <= key < base + width(depth),
        before is Branch,
        before.wf(depth, base),
        after is Branch,
        ({
            let old_children = before->Branch_0@;
            let children = after->Branch_0@;
            let slot = spec_slot(key as int, depth);
            &&& children.len() == 16
            &&& forall|i: int| 0 <= i < 16 && i != slot ==> children[i] == old_children[i]
            &&& removed_key(
                old_children[slot],
                children[slot],
                depth + 1,
                base + slot * width(depth + 1),
                key,
                removed,
            )
        }),
    ensures
        after.wf(depth, base),
        removed == before.lookup(depth, key),
        forall|k: u128|
            #[trigger] after.lookup(depth, k) == if k == key {
                None
            } else {
                before.lookup(depth, k)
            },
        after.entries(depth).len() == before.entries(depth).len() - if removed is Some {
            1int
        } else {
            0
        },
{
    let old_children = before->Branch_0@;
    let children = after->Branch_0@;
    let slot = spec_slot(key as int, depth);
    lemma_slot(key as int, depth, base, 0);
    lemma_child_replaced(old_children, children, depth, slot, 16);
    assert forall|i: int| 0 <= i < 16 implies match #[trigger] children[i] {
        Some(child) => child.wf(depth + 1, base + i * width(depth + 1)),
        None => true,
    } by {
        let child = old_children[i];
    }
    assert forall|k: u128| #[trigger] after.lookup(depth, k) == if k == key {
        None
    } else {
        before.lookup(depth, k)
    } by {
        lemma_width(depth + 1);
        assert(0 <= spec_slot(k as int, depth) < 16);
        if spec_slot(k as int, depth) == slot {
            let inner = child_lookup(children[slot], depth + 1, k);
        }
    }
}

/// Persistent fixed-depth radix map. A write copies at most 32 small branch paths regardless of
/// project size; stable numeric keys make traversal deterministic. Cloning shares every node.
pub struct PersistentMap<V> {
    root: Option<Arc<RadixNode<V>>>,
    len: usize,
}

impl<V> View for PersistentMap<V> {
    type V = Map<u128, V>;

    closed spec fn view(&self) -> Map<u128, V> {
        Map::new(
            |key: u128| child_lookup(self.root, 0, key) is Some,
            |key: u128| child_lookup(self.root, 0, key)->Some_0,
        )
    }
}

impl<V> Default for PersistentMap<V> {
    fn default() -> (map: Self)
        ensures
            map.wf(),
            map@ == Map::<u128, V>::empty(),
    {
        let map = PersistentMap { root: None, len: 0 };
        assert(map@ =~= Map::<u128, V>::empty());
        map
    }
}

impl<V> Clone for PersistentMap<V> {
    fn clone(&self) -> (copy: Self)
        ensures
            copy == *self,
    {
        PersistentMap {
            root: match &self.root {
                Some(root) => Some(share(root)),
                None => None,
            },
            len: self.len,
        }
    }
}

/// Places a 64-bit stable graph identity in the high half of the fixed 128-bit radix key. Older
/// snapshots stored the identity in the low half; [`stable_id_row`] retains that fallback while
/// new writes avoid sixteen guaranteed leading-zero branch levels.
pub fn stable_id_key(id: u64) -> (key: u128)
    ensures
        key == spec_stable_id_key(id),
{
    let wide: u128 = id as u128;
    assert(wide << 64 == wide * 0x1_0000_0000_0000_0000) by (bit_vector)
        requires
            wide <= 0xffff_ffff_ffff_ffff,
    ;
    wide << 64
}

/// The identity times 2 to the 64.
pub open spec fn spec_stable_id_key(id: u64) -> u128 {
    (id * 0x1_0000_0000_0000_0000) as u128
}

/// Resolves both the current high-half encoding and the legacy raw encoding.
pub fn stable_id_row(map: &PersistentMap<u32>, id: u64) -> (row: Option<&u32>)
    requires
        map.wf(),
    ensures
        row == if map@.dom().contains(spec_stable_id_key(id)) {
            Some(&map@[spec_stable_id_key(id)])
        } else if map@.dom().contains(id as u128) {
            Some(&map@[id as u128])
        } else {
            None
        },
{
    match map.get(stable_id_key(id)) {
        Some(row) => Some(row),
        None => map.get(id as u128),
    }
}

/// Distinct identities never share a key, and the high-half key of a non-zero identity is never the
/// raw key of any identity.
pub proof fn law_stable_id_keys_are_distinct(first: u64, second: u64)
    ensures
        spec_stable_id_key(first) == spec_stable_id_key(second) ==> first == second,
        spec_stable_id_key(first) == second as u128 ==> first == 0 && second == 0,
{
}

/// Bytes of one node: its allocation with two counters, and its table. A leaf has room for `room`
/// entries.
spec fn node_bytes<V>(node: RadixNode<V>, room: int) -> int {
    size_of::<RadixNode<V>>() + 2 * size_of::<usize>() + match node {
        RadixNode::Branch(children) => children.len() * size_of::<Child<V>>(),
        RadixNode::Leaf(_) => room * size_of::<(u128, V)>(),
    }
}

/// What a node has in a slot.
spec fn child_at<V>(node: Child<V>, slot: int) -> Child<V> {
    match node {
        Some(node) => match *node {
            RadixNode::Branch(children) => if 0 <= slot < children.len() {
                children@[slot]
            } else {
                None
            },
            RadixNode::Leaf(_) => None,
        },
        None => None,
    }
}

spec fn sum(parts: Seq<int>) -> int
    decreases parts.len(),
{
    if parts.len() == 0 {
        0
    } else {
        sum(parts.drop_last()) + parts.last()
    }
}

/// The bytes of the nodes below `current`, without some that are the same in `previous` at their
/// place. Of what is left out everything below is left out too.
spec fn detached_total<V>(current: Child<V>, previous: Child<V>, total: int) -> bool
    decreases current,
{
    &&& 0 <= total
    &&& match current {
        None => total == 0,
        Some(node) => total == 0 && previous == current || match *node {
            RadixNode::Branch(children) => exists|parts: Seq<int>|
                {
                    &&& parts.len() == children.len()
                    &&& total == node_bytes(*node, 0) + #[trigger] sum(parts)
                    &&& forall|slot: int|
                        0 <= slot < children.len() ==> detached_total(
                            children@[slot],
                            child_at(previous, slot),
                            #[trigger] parts[slot],
                        )
                },
            RadixNode::Leaf(entries) => exists|room: int|
                room >= entries.len() && total == #[trigger] node_bytes(*node, room),
        },
    }
}

proof fn lemma_children_decrease<V>(node: Child<V>, slot: int)
    requires
        node is Some,
        *node->Some_0 is Branch,
        0 <= slot < (*node->Some_0)->Branch_0.len(),
    ensures
        decreases_to!(node => (*node->Some_0)->Branch_0@[slot]),
{
    match node {
        Some(held) => match *held {
            RadixNode::Branch(children) => {
                assert(decreases_to!(node => children));
                assert(decreases_to!(children => children@));
                assert(decreases_to!(children@ => children@[slot]));
            },
            RadixNode::Leaf(_) => {},
        },
        None => {},
    }
}

/// Bytes of the nodes below a child that are not in the allocation of the node of `previous` at the
/// same place.
fn detached_bytes<V>(current: &Child<V>, previous: &Child<V>) -> (bytes: usize)
    ensures
        exists|total: int| #[trigger]
            detached_total(*current, *previous, total) && bytes == saturated(total),
    decreases *current,
{
    let node = match current {
        Some(node) => node,
        None => {
            assert(detached_total(*current, *previous, 0));
            return 0;
        },
    };
    if let Some(old) = previous {
        if same_allocation(node, old) {
            assert(detached_total(*current, *previous, 0));
            return 0;
        }
    }
    let counters: usize = saturating_product(2, core::mem::size_of::<usize>());
    let own: usize = core::mem::size_of::<RadixNode<V>>().saturating_add(counters);
    let missing: Child<V> = None;
    match &**node {
        RadixNode::Branch(children) => {
            let table: usize = saturating_product(children.len(), core::mem::size_of::<Child<V>>());
            let mut bytes: usize = own.saturating_add(table);
            let ghost mut parts: Seq<int> = Seq::empty();
            assert(children.len() * size_of::<Child<V>>() >= 0) by (nonlinear_arith);
            for slot in 0..children.len()
                invariant
                    **node == RadixNode::Branch(*children),
                    *current == Some(*node),
                    missing is None,
                    parts.len() == slot,
                    node_bytes(**node, 0) >= 0,
                    sum(parts) >= 0,
                    bytes == saturated(node_bytes(**node, 0) + sum(parts)),
                    forall|i: int|
                        0 <= i < slot ==> detached_total(
                            children@[i],
                            child_at(*previous, i),
                            #[trigger] parts[i],
                        ),
            {
                let other = match previous {
                    Some(old) => match &**old {
                        RadixNode::Branch(olds) => if slot < olds.len() {
                            &olds[slot]
                        } else {
                            &missing
                        },
                        RadixNode::Leaf(_) => &missing,
                    },
                    None => &missing,
                };
                assert(*other == child_at(*previous, slot as int));
                proof {
                    lemma_children_decrease(*current, slot as int);
                }
                let below: usize = detached_bytes(&children[slot], other);
                bytes = bytes.saturating_add(below);
                proof {
                    let total = choose|total: int| #[trigger]
                        detached_total(children@[slot as int], *other, total) && below == saturated(
                            total,
                        );
                    let longer = parts.push(total);
                    assert(longer.drop_last() =~= parts);
                    assert(sum(longer) == sum(parts) + total);
                    parts = longer;
                }
            }
            assert(detached_total(*current, *previous, node_bytes(**node, 0) + sum(parts)));
            bytes
        },
        RadixNode::Leaf(entries) => {
            let held: usize = room(entries);
            let table: usize = saturating_product(held, core::mem::size_of::<(u128, V)>());
            assert(held * size_of::<(u128, V)>() >= 0) by (nonlinear_arith);
            assert(detached_total(*current, *previous, node_bytes(**node, held as int)));
            own.saturating_add(table)
        },
    }
}

proof fn lemma_sum(parts: Seq<int>)
    requires
        forall|i: int| 0 <= i < parts.len() ==> #[trigger] parts[i] >= 0,
    ensures
        sum(parts) >= 0,
    decreases parts.len(),
{
    if parts.len() > 0 {
        let rest = parts.drop_last();
        assert forall|i: int| 0 <= i < rest.len() implies #[trigger] rest[i] >= 0 by {
            assert(rest[i] == parts[i]);
        }
        lemma_sum(rest);
        assert(parts[parts.len() - 1] >= 0);
    }
}

impl<V> PersistentMap<V> {
    /// A number of bytes for the nodes of this map, without some that are the same in `previous` at
    /// their place.
    pub closed spec fn detaches(&self, previous: &Self, total: int) -> bool {
        detached_total(self.root, previous.root, total)
    }

    /// Bytes of nodes and entries in this generation that are not shared with `previous`: every node
    /// that differs from the node there is counted. Which of the equal nodes are shared is a fact
    /// about the process, as is the room that a leaf has for entries.
    pub fn detached_node_bytes_from(&self, previous: &Self) -> (bytes: usize)
        ensures
            exists|total: int| #[trigger]
                self.detaches(previous, total) && bytes == saturated(total),
            self.never_written() ==> bytes == 0,
            !self.never_written() && self@ != previous@ ==> bytes > 0,
    {
        let bytes: usize = detached_bytes(&self.root, &previous.root);
        proof {
            let total = choose|total: int| #[trigger]
                detached_total(self.root, previous.root, total) && bytes == saturated(total);
            assert(self.detaches(previous, total));
            broadcast use vstd::layout::layout_of_primitives;

            if self.root is Some && self@ != previous@ {
                let node = *self.root->Some_0;
                if let RadixNode::Branch(children) = node {
                    let parts = choose|parts: Seq<int>|
                        {
                            &&& parts.len() == children.len()
                            &&& total == node_bytes(node, 0) + #[trigger] sum(parts)
                            &&& forall|slot: int|
                                0 <= slot < children.len() ==> detached_total(
                                    children@[slot],
                                    child_at(previous.root, slot),
                                    #[trigger] parts[slot],
                                )
                        };
                    assert forall|slot: int| 0 <= slot < parts.len() implies #[trigger] parts[slot]
                        >= 0 by {
                        assert(detached_total(
                            children@[slot],
                            child_at(previous.root, slot),
                            parts[slot],
                        ));
                    }
                    lemma_sum(parts);
                    assert(children.len() * size_of::<Child<V>>() >= 0) by (nonlinear_arith);
                } else if let RadixNode::Leaf(entries) = node {
                    let room = choose|room: int|
                        room >= entries.len() && total == #[trigger] node_bytes(node, room);
                    assert(room * size_of::<(u128, V)>() >= 0) by (nonlinear_arith)
                        requires
                            room >= 0,
                    ;
                }
            }
        }
        bytes
    }

    /// The tree is ordered by key and its length is the number of entries.
    pub closed spec fn wf(&self) -> bool {
        &&& child_wf(self.root, 0, 0)
        &&& self.len == slot_entries(self.root, 0).len()
    }

    /// Whether both maps hold one root. A positive answer means equal contents; a negative one says
    /// nothing, except that it is positive on two maps that never held an entry.
    pub fn shared_with(&self, other: &Self) -> (shared: bool)
        ensures
            shared ==> self@ == other@,
            self.never_written() && other.never_written() ==> shared,
            self.never_written() != other.never_written() ==> !shared,
    {
        let same_root = match (&self.root, &other.root) {
            (Some(first), Some(second)) => same_allocation(first, second),
            _ => false,
        };
        self.shares_root(other, same_root)
    }

    /// Whether both maps hold one root, given whether two roots lie in one allocation.
    pub fn shares_root(&self, other: &Self, same_root: bool) -> (shared: bool)
        ensures
            shared == if self.never_written() || other.never_written() {
                self.never_written() && other.never_written()
            } else {
                same_root
            },
    {
        match (&self.root, &other.root) {
            (Some(_), Some(_)) => same_root,
            (None, None) => true,
            _ => false,
        }
    }

    /// The map holds no root.
    pub closed spec fn never_written(&self) -> bool {
        self.root is None
    }

    proof fn lemma_root(&self)
        requires
            self.wf(),
        ensures
            ascending(slot_entries(self.root, 0)),
            forall|key: u128| #[trigger]
                child_lookup(self.root, 0, key) == find(slot_entries(self.root, 0), key),
            width(0) > 0,
            0int % width(0) == 0,
    {
        lemma_width(0);
        vstd::arithmetic::div_mod::lemma_small_mod(0, width(0) as nat);
        match &self.root {
            Some(root) => {
                lemma_entries(&**root, 0, 0);
                assert forall|key: u128| #[trigger] child_lookup(self.root, 0, key) == find(
                    slot_entries(self.root, 0),
                    key,
                ) by {
                    lemma_root_width(key);
                    assert(root.lookup(0, key) == find(root.entries(0), key));
                }
            },
            None => {},
        }
    }

    /// There are finitely many keys.
    pub proof fn lemma_finite(&self)
        requires
            self.wf(),
        ensures
            self@.dom().finite(),
    {
        self.lemma_len();
    }

    proof fn lemma_len(&self)
        requires
            self.wf(),
        ensures
            self@.dom().finite(),
            self@.dom().len() == self.len,
    {
        self.lemma_root();
        let entries = slot_entries(self.root, 0);
        let keys = entries.map(|i: int, entry: (u128, V)| entry.0);
        assert(keys.no_duplicates()) by {
            assert forall|i: int, j: int| 0 <= i < keys.len() && 0 <= j < keys.len() && i
                != j implies keys[i] != keys[j] by {
                if i < j {
                    assert(entries[i].0 < entries[j].0);
                } else {
                    assert(entries[j].0 < entries[i].0);
                }
            }
        }
        keys.unique_seq_to_set();
        assert(keys.to_set() =~= self@.dom()) by {
            assert forall|key: u128| keys.to_set().contains(key) == self@.dom().contains(
                key,
            ) by {
                assert(child_lookup(self.root, 0, key) == find(entries, key));
                if keys.to_set().contains(key) {
                    let i = choose|i: int| 0 <= i < keys.len() && keys[i] == key;
                    assert(entries[i].0 == key);
                }
                if holds_key(entries, key) {
                    let i = choose|i: int|
                        0 <= i < entries.len() && (#[trigger] entries[i]).0 == key;
                    assert(keys[i] == key);
                }
            }
        }
    }

    pub fn len(&self) -> (len: usize)
        requires
            self.wf(),
        ensures
            self@.dom().finite(),
            len == self@.dom().len(),
    {
        proof {
            self.lemma_len();
        }
        self.len
    }

    pub fn get(&self, key: u128) -> (value: Option<&V>)
        requires
            self.wf(),
        ensures
            value == if self@.dom().contains(key) {
                Some(&self@[key])
            } else {
                None
            },
    {
        proof {
            self.lemma_root();
            lemma_root_width(key);
        }
        let mut node: &RadixNode<V> = match &self.root {
            Some(root) => &**root,
            None => {
                return None;
            },
        };
        let mut depth: u32 = 0;
        let ghost mut base: int = 0;
        loop
            invariant
                depth <= 32,
                base >= 0,
                base % width(depth as int) == 0,
                base <= key < base + width(depth as int),
                node.wf(depth as int, base),
                node.lookup(depth as int, key) == child_lookup(self.root, 0, key),
            decreases 33 - depth,
        {
            match node {
                RadixNode::Branch(children) => {
                    let slot: usize = slot_of(key, depth);
                    proof {
                        lemma_slot(key as int, depth as int, base, 0);
                        lemma_slot(key as int, depth as int, base, slot as int);
                    }
                    match &children[slot] {
                        Some(child) => {
                            proof {
                                base = base + slot * width(depth + 1);
                            }
                            node = &**child;
                            depth = depth + 1;
                        },
                        None => {
                            return None;
                        },
                    }
                },
                RadixNode::Leaf(entries) => {
                    return match position(entries, key) {
                        Ok(index) => Some(&entries[index].1),
                        Err(_) => None,
                    };
                },
            }
        }
    }

    pub fn contains_key(&self, key: u128) -> (present: bool)
        requires
            self.wf(),
        ensures
            present == self@.dom().contains(key),
    {
        self.get(key).is_some()
    }

    /// Every entry, by ascending key.
    pub fn iter(&self) -> (entries: Vec<(u128, &V)>)
        requires
            self.wf(),
        ensures
            entries@.len() == self@.dom().len(),
            forall|i: int, j: int|
                0 <= i < j < entries@.len() ==> (#[trigger] entries@[i]).0 < (#[trigger] entries@[j]).0,
            forall|i: int|
                0 <= i < entries@.len() ==> self@.dom().contains((#[trigger] entries@[i]).0)
                    && self@[entries@[i].0] == *entries@[i].1,
            forall|key: u128| #[trigger]
                self@.dom().contains(key) ==> exists|i: int|
                    0 <= i < entries@.len() && (#[trigger] entries@[i]).0 == key,
    {
        let mut entries: Vec<(u128, &V)> = Vec::new();
        proof {
            self.lemma_len();
            self.lemma_root();
        }
        if let Some(root) = &self.root {
            collect(&**root, 0, &mut entries);
        }
        proof {
            let model = slot_entries(self.root, 0);
            assert(entries@.len() == model.len());
            assert forall|i: int| 0 <= i < entries@.len() implies self@.dom().contains(
                (#[trigger] entries@[i]).0,
            ) && self@[entries@[i].0] == *entries@[i].1 by {
                assert(same_entry(entries@[i], model[i]));
                lemma_find(model, i);
                assert(child_lookup(self.root, 0, model[i].0) == find(model, model[i].0));
            }
            assert forall|i: int, j: int| 0 <= i < j < entries@.len() implies (
            #[trigger] entries@[i]).0 < (#[trigger] entries@[j]).0 by {
                assert(same_entry(entries@[i], model[i]));
                assert(same_entry(entries@[j], model[j]));
                assert(model[i].0 < model[j].0);
            }
            assert forall|key: u128| #[trigger] self@.dom().contains(key) implies exists|i: int|
                0 <= i < entries@.len() && (#[trigger] entries@[i]).0 == key by {
                assert(child_lookup(self.root, 0, key) == find(model, key));
                let i = choose|i: int| 0 <= i < model.len() && (#[trigger] model[i]).0 == key;
                assert(same_entry(entries@[i], model[i]));
            }
        }
        entries
    }
}

spec fn same_entry<V>(entry: (u128, &V), model: (u128, V)) -> bool {
    entry.0 == model.0 && *entry.1 == model.1
}

/// Appends the entries below a node in key order.
fn collect<'a, V>(node: &'a RadixNode<V>, depth: u32, entries: &mut Vec<(u128, &'a V)>)
    requires
        depth <= 32,
        node is Branch ==> depth < 32,
        exists|base: int| node.wf(depth as int, base),
    ensures
        final(entries)@.len() == old(entries)@.len() + node.entries(depth as int).len(),
        forall|i: int|
            0 <= i < old(entries)@.len() ==> #[trigger] final(entries)@[i] == old(entries)@[i],
        forall|i: int|
            old(entries)@.len() <= i < final(entries)@.len() ==> same_entry(
                #[trigger] final(entries)@[i],
                node.entries(depth as int)[i - old(entries)@.len()],
            ),
    decreases 32 - depth,
{
    let ghost start = entries@.len();
    let ghost before = entries@;
    let ghost base = choose|base: int| node.wf(depth as int, base);
    match node {
        RadixNode::Leaf(stored) => {
            for index in 0..stored.len()
                invariant
                    start == before.len(),
                    entries@.len() == start + index,
                    forall|i: int| 0 <= i < start ==> #[trigger] entries@[i] == before[i],
                    forall|i: int|
                        start <= i < start + index ==> same_entry(
                            #[trigger] entries@[i],
                            stored@[i - start],
                        ),
            {
                entries.push((stored[index].0, &stored[index].1));
            }
        },
        RadixNode::Branch(children) => {
            for index in 0..RADIX_FANOUT
                invariant
                    depth < 32,
                    children.len() == 16,
                    node == RadixNode::Branch(*children),
                    node.wf(depth as int, base),
                    start == before.len(),
                    entries@.len() == start + child_entries(
                        children@,
                        depth as int,
                        index as int,
                    ).len(),
                    forall|i: int| 0 <= i < start ==> #[trigger] entries@[i] == before[i],
                    forall|i: int|
                        start <= i < entries@.len() ==> same_entry(
                            #[trigger] entries@[i],
                            child_entries(children@, depth as int, index as int)[i - start],
                        ),
            {
                let ghost seen = entries@;
                let ghost low = child_entries(children@, depth as int, index as int);
                let ghost high = slot_entries(children@[index as int], depth + 1);
                if let Some(child) = &children[index] {
                    proof {
                        assert(child.wf(depth + 1, base + index * width(depth + 1)));
                    }
                    collect(&**child, depth + 1, entries);
                }
                proof {
                    let next = child_entries(children@, depth as int, index + 1);
                    assert(next == low + high);
                    assert(entries@.len() == seen.len() + high.len());
                    assert forall|i: int| start <= i < entries@.len() implies same_entry(
                        #[trigger] entries@[i],
                        next[i - start],
                    ) by {
                        if i < seen.len() {
                            assert(entries@[i] == seen[i]);
                        }
                    }
                }
            }
        },
    }
}

impl<V: Clone> PersistentMap<V> {
    fn get_cloned(&self, key: u128) -> (value: Option<V>)
        requires
            self.wf(),
            clone_faithful::<V>(),
        ensures
            value == child_lookup(self.root, 0, key),
    {
        match self.get(key) {
            Some(value) => {
                let copy = value.clone();
                assert(cloned(*value, copy));
                Some(copy)
            },
            None => None,
        }
    }

    /// Stores one entry and returns what the key held. Clones of the map keep what they hold.
    pub fn insert(&mut self, key: u128, value: V) -> (previous: Option<V>)
        requires
            old(self).wf(),
            clone_faithful::<V>(),
            old(self)@.dom().len() < usize::MAX,
        ensures
            final(self).wf(),
            final(self)@ == old(self)@.insert(key, value),
            previous == if old(self)@.dom().contains(key) {
                Some(old(self)@[key])
            } else {
                None
            },
    {
        let ghost before = self@;
        let previous = self.get_cloned(key);
        proof {
            self.lemma_len();
            self.lemma_root();
            lemma_root_width(key);
        }
        let root = insert_radix(self.root.as_ref(), 0, key, value, Ghost(0));
        self.root = Some(root);
        if previous.is_none() {
            self.len = self.len + 1;
        }
        proof {
            assert(self.root == Some(root));
            assert forall|k: u128| #[trigger] child_lookup(self.root, 0, k) == root.lookup(0, k) by {}
            assert(self@ =~= before.insert(key, value)) by {
                assert forall|k: u128| root.lookup(0, k) == #[trigger] child_lookup(self.root, 0,
                    k) by {}
            }
        }
        previous
    }

    /// Inserts into an unpublished generation without allocating an immutable intermediate root
    /// for every row in a batch. The first touched path detaches from any pinned generation; later
    /// inserts mutate only branches already unique to this map.
    pub fn insert_cow(&mut self, key: u128, value: V) -> (previous: Option<V>)
        requires
            old(self).wf(),
            clone_faithful::<V>(),
            old(self)@.dom().len() < usize::MAX,
        ensures
            final(self).wf(),
            final(self)@ == old(self)@.insert(key, value),
            previous == if old(self)@.dom().contains(key) {
                Some(old(self)@[key])
            } else {
                None
            },
    {
        let ghost before = self@;
        let previous = self.get_cloned(key);
        proof {
            self.lemma_len();
            self.lemma_root();
            lemma_root_width(key);
        }
        match &mut self.root {
            Some(root) => {
                insert_radix_cow(root, 0, key, value, Ghost(0));
            },
            empty => {
                let root = insert_radix(None, 0, key, value, Ghost(0));
                *empty = Some(root);
            },
        }
        if previous.is_none() {
            self.len = self.len + 1;
        }
        proof {
            let root = self.root->Some_0;
            assert(self@ =~= before.insert(key, value)) by {
                assert forall|k: u128| root.lookup(0, k) == #[trigger] child_lookup(self.root, 0,
                    k) by {}
            }
        }
        previous
    }

    /// Access to the value of one key. Whatever is written through it, every other entry stays, and
    /// every clone of this map keeps all of its entries.
    pub fn get_mut(&mut self, key: u128) -> (value: Option<&mut V>)
        requires
            old(self).wf(),
            clone_faithful::<V>(),
        ensures
            final(self).wf(),
            match value {
                Some(value) => {
                    &&& old(self)@.dom().contains(key)
                    &&& *value == old(self)@[key]
                    &&& final(self)@ == old(self)@.insert(key, *final(value))
                },
                None => !old(self)@.dom().contains(key) && final(self)@ == old(self)@,
            },
    {
        proof {
            self.lemma_root();
            lemma_root_width(key);
        }
        let ghost before = *self;
        match &mut self.root {
            Some(root) => {
                let ghost shared = *root;
                let node = make_mut(root);
                proof {
                    lemma_alike(&*shared, node, 0, 0);
                }
                let value = get_radix_mut(node, 0, key, Ghost(0));
                proof {
                    let after = *after_borrow(self);
                    let root = after.root->Some_0;
                    assert forall|k: u128| root.lookup(0, k) == #[trigger] child_lookup(
                        after.root,
                        0,
                        k,
                    ) by {}
                    if value is Some {
                        assert(after@ =~= before@.insert(key, *final(value->Some_0)));
                    } else {
                        assert(after@ =~= before@);
                    }
                }
                value
            },
            None => None,
        }
    }

    /// Removes one key and returns what it held. Clones of the map keep what they hold.
    pub fn remove(&mut self, key: u128) -> (removed: Option<V>)
        requires
            old(self).wf(),
            clone_faithful::<V>(),
        ensures
            final(self).wf(),
            final(self)@ == old(self)@.remove(key),
            removed == if old(self)@.dom().contains(key) {
                Some(old(self)@[key])
            } else {
                None
            },
    {
        proof {
            self.lemma_root();
            lemma_root_width(key);
        }
        let ghost before = *self;
        let (root, removed) = remove_radix(self.root.as_ref(), 0, key, Ghost(0));
        if removed.is_some() {
            self.root = root;
            self.len = self.len - 1;
            assert(self@ =~= before@.remove(key)) by {
                assert forall|k: u128| child_lookup(root, 0, k) == #[trigger] child_lookup(self.root,
                    0, k) by {}
            }
        } else {
            assert(self@ =~= before@.remove(key));
        }
        removed
    }
}

} // verus!
