use irongraph::order::{decode_pair, decode_triple, encode_pair, encode_triple};
use irongraph::persistent::arena::PagedArena;
use irongraph::persistent::paged::{page_capacity, PagedVec, PAGES_PER_LEAF, PAGE_BYTES};
use irongraph::persistent::radix::{stable_id_key, stable_id_row, PersistentMap};
use irongraph::shared::SharedFlat;
use std::sync::Arc;

#[test]
fn point_update_detaches_one_value_page() {
    let mut original = PagedVec::default();
    for value in 0_u64..100_000 {
        original.push(value);
    }
    let mut updated = original.clone();
    *updated.get_mut(50_000).expect("value") = 7;
    assert_eq!(original.get(50_000), Some(&50_000));
    assert_eq!(updated.get(50_000), Some(&7));
    assert!(updated.detached_page_bytes_from(&original) <= PAGE_BYTES);
}

#[test]
fn out_of_bounds_point_replacement_is_rejected_without_mutation() {
    let mut values = PagedVec::default();
    values.push(11_u64);
    assert_eq!(
        values.replace(1, 22),
        Err("paged vector index is out of bounds")
    );
    assert_eq!(values.get(0), Some(&11));
    assert_eq!(values.len(), 1);
}

#[test]
fn shared_flat_pages_are_zero_copy_and_point_updates_detach_one_page() {
    let values: Arc<[u64]> = (0_u64..100_000).collect::<Vec<_>>().into();
    let flat = SharedFlat::from_arc_slice(values.clone()).expect("shared view");
    let mut paged = PagedVec::from_shared(flat).expect("shared pages");
    assert_eq!(paged.shared_value_bytes(), values.len() * std::mem::size_of::<u64>());
    assert_eq!(paged.get(50_000), Some(&50_000));
    assert!(std::ptr::eq(
        paged.get(50_000).expect("paged value"),
        &values[50_000]
    ));

    let pinned = paged.clone();
    *paged.get_mut(50_000).expect("paged value") = 7;
    assert_eq!(pinned.get(50_000), Some(&50_000));
    assert_eq!(paged.get(50_000), Some(&7));
    assert_eq!(
        paged.shared_value_bytes(),
        values.len() * std::mem::size_of::<u64>()
            - page_capacity::<u64>() * std::mem::size_of::<u64>()
    );
    assert!(paged.detached_page_bytes_from(&pinned) <= PAGE_BYTES);
}

#[test]
fn append_to_partial_shared_page_detaches_and_preserves_pinned_generation() {
    let values: Arc<[u64]> = vec![11, 22, 33].into();
    let flat = SharedFlat::from_arc_slice(values.clone()).expect("shared view");
    let mut paged = PagedVec::from_shared(flat).expect("shared pages");
    let pinned = paged.clone();

    paged.push(44);

    assert_eq!(pinned.to_vec(), vec![11, 22, 33]);
    assert_eq!(paged.to_vec(), vec![11, 22, 33, 44]);
    assert_eq!(pinned.shared_value_bytes(), 3 * std::mem::size_of::<u64>());
    assert_eq!(paged.shared_value_bytes(), 0);
    assert!(paged.detached_page_bytes_from(&pinned) <= PAGE_BYTES);
}

#[test]
fn complete_prefix_leaves_retire_without_copying_the_remaining_generation() {
    let leaf_elements = page_capacity::<u64>() * PAGES_PER_LEAF;
    let mut current = PagedVec::default();
    for value in 0..leaf_elements + 17 {
        current.push(value as u64);
    }
    let pinned = current.clone();
    assert_eq!(current.discard_prefix_leaves(leaf_elements - 1), 0);
    assert_eq!(current.discard_prefix_leaves(leaf_elements), leaf_elements);
    assert_eq!(current.len(), 17);
    assert_eq!(current.get(0), Some(&(leaf_elements as u64)));
    assert_eq!(current.get(16), Some(&(leaf_elements as u64 + 16)));
    assert_eq!(pinned.len(), leaf_elements + 17);
    assert_eq!(pinned.get(0), Some(&0));
    assert_eq!(pinned.get(leaf_elements), Some(&(leaf_elements as u64)));
    assert_eq!(current.detached_page_bytes_from(&pinned), 0);
}

#[test]
fn radix_map_preserves_old_generation() {
    let mut first = PersistentMap::default();
    first.insert(u128::MAX, 1_u32);
    let mut second = first.clone();
    second.insert(7, 2);
    second.insert(u128::MAX, 3);
    assert_eq!(first.get(u128::MAX), Some(&1));
    assert_eq!(first.get(7), None);
    assert_eq!(second.get(u128::MAX), Some(&3));
    assert_eq!(second.get(7), Some(&2));
}

#[test]
fn radix_cow_batch_preserves_pinned_generation_and_matches_persistent_insert() {
    let mut base = PersistentMap::default();
    for key in 0_u128..10_000 {
        base.insert(key.saturating_mul(97), key as u32);
    }
    let pinned = base.clone();
    let mut cow = base.clone();
    let mut persistent = base;
    for key in 10_000_u128..12_000 {
        let key = key.saturating_mul(97);
        assert_eq!(cow.insert_cow(key, key as u32), None);
        assert_eq!(persistent.insert(key, key as u32), None);
    }
    assert_eq!(cow.len(), persistent.len());
    assert!(cow.iter().into_iter().eq(persistent.iter()));
    assert_eq!(pinned.len(), 10_000);
    assert_eq!(pinned.get(11_000_u128 * 97), None);
}

#[test]
fn stable_id_lookup_reads_legacy_and_high_half_generations() {
    let mut legacy = PersistentMap::default();
    legacy.insert(u128::from(42_u64), 7_u32);
    assert_eq!(stable_id_row(&legacy, 42), Some(&7));

    let mut current = legacy.clone();
    current.insert(stable_id_key(43), 8);
    assert_eq!(stable_id_row(&current, 42), Some(&7));
    assert_eq!(stable_id_row(&current, 43), Some(&8));
    assert_eq!(stable_id_key(43), u128::from(43_u64) << 64);
}

#[test]
fn radix_point_mutation_and_removal_preserve_published_generations() {
    let mut original = PersistentMap::default();
    for key in 1_u128..10_000 {
        original.insert(key, key as u64);
    }
    let mut updated = original.clone();
    *updated.get_mut(5_000).expect("key must exist") = 7;
    assert_eq!(updated.remove(9_000), Some(9_000));
    assert_eq!(original.get(5_000), Some(&5_000));
    assert_eq!(original.get(9_000), Some(&9_000));
    assert_eq!(updated.get(5_000), Some(&7));
    assert_eq!(updated.get(9_000), None);
    assert_eq!(updated.len(), original.len() - 1);
    assert!(updated.detached_node_bytes_from(&original) < 64 * 1024);
}

#[test]
fn radix_keys_come_out_in_ascending_order() {
    let mut map = PersistentMap::default();
    for key in [9_u128, 1 << 127, 0, 16, 15, 1 << 64] {
        map.insert(key, key as u64);
    }
    let keys = map.iter().into_iter().map(|(key, _)| key).collect::<Vec<_>>();
    assert_eq!(keys, vec![0, 9, 15, 16, 1 << 64, 1 << 127]);
    assert!(map.contains_key(16));
    assert!(!map.contains_key(17));
    assert_eq!(map.remove(17), None);
    assert_eq!(map.len(), 6);
}

#[test]
fn never_written_map_has_nothing_detached() {
    let empty = PersistentMap::<u32>::default();
    let mut full = PersistentMap::default();
    full.insert(1, 1_u32);
    assert_eq!(empty.detached_node_bytes_from(&full), 0);
    assert!(full.detached_node_bytes_from(&empty) > 0);
    assert!(full.shared_with(&full.clone()));
    assert!(!full.shared_with(&empty));
}

#[test]
fn arena_spans_read_back_what_was_appended() {
    let mut arena = PagedArena::default();
    let first = arena.append(vec![1_u8, 2, 3]).expect("room");
    let second = arena.append(vec![4_u8; 70_000]).expect("room");
    let none = arena.append(Vec::new()).expect("nothing to store");
    assert_eq!(arena.get(first), Some([1_u8, 2, 3].as_slice()));
    assert_eq!(arena.get(second).map(<[u8]>::len), Some(70_000));
    assert_eq!(arena.get(none).map(<[u8]>::len), Some(0));
    assert_eq!(arena.elements(), 70_003);
}

#[test]
fn shared_windows_know_their_prefixes() {
    let values: Arc<[u32]> = vec![1, 2, 3, 4].into();
    let flat = SharedFlat::from_arc_slice(values).expect("window");
    let prefix = flat.slice(0, 2).expect("prefix");
    let tail = flat.slice(2, 2).expect("tail");
    assert_eq!(tail.as_slice(), &[3, 4]);
    assert!(prefix.is_prefix_of(&flat));
    assert!(!tail.is_prefix_of(&flat));
    assert!(flat.slice(3, 2).is_err());
    let copy: Arc<[u32]> = vec![1, 2, 3, 4].into();
    let other = SharedFlat::from_arc_slice(copy).expect("window");
    assert!(!prefix.is_prefix_of(&other));
    assert!(prefix.is_prefix_within(&flat, true));
    assert!(!prefix.is_prefix_within(&flat, false));
    assert!(!tail.is_prefix_within(&flat, true));
    assert!(!flat.is_prefix_within(&prefix, true));
}

#[test]
fn pages_that_read_otherwise_count_as_detached() {
    let capacity = page_capacity::<u64>();
    let mut first = PagedVec::default();
    let mut second = PagedVec::default();
    for value in 0..capacity + 2 {
        first.push(value as u64);
        second.push(value as u64 + 1);
    }
    assert_eq!(first.detached_page_bytes_from(&first.clone()), 0);
    assert_eq!(first.detached_page_bytes_from(&second), (capacity + 2) * 8);
    let mut changed = first.clone();
    assert_eq!(changed.replace(capacity + 1, 7), Ok(()));
    assert_eq!(changed.detached_page_bytes_from(&first), 16);
    assert_eq!(first.detached_page_bytes_from(&PagedVec::default()), (capacity + 2) * 8);
    assert_eq!(first.shared_value_bytes(), 0);
}

#[test]
fn map_that_differs_has_nodes_of_its_own() {
    let mut first = PersistentMap::default();
    first.insert(1, 1_u32);
    let mut second = first.clone();
    assert_eq!(second.detached_node_bytes_from(&first), 0);
    second.insert(1, 2_u32);
    let bytes = second.detached_node_bytes_from(&first);
    assert!(bytes >= 2 * std::mem::size_of::<usize>() + std::mem::size_of::<(u128, u32)>());
}

#[test]
fn numbers_order_like_the_tuples_they_stand_for() {
    let triples = [(1, 2, 3), (0, u32::MAX, 9), (1, 2, 2), (u32::MAX, 0, 0)];
    let mut keys = triples
        .iter()
        .map(|triple| encode_triple(*triple))
        .collect::<Vec<_>>();
    keys.sort_unstable();
    let mut sorted = triples.to_vec();
    sorted.sort_unstable();
    assert_eq!(
        keys.into_iter().map(decode_triple).collect::<Vec<_>>(),
        sorted
    );
    assert_eq!(decode_pair(encode_pair((7, 9))), (7, 9));
    assert!(encode_pair((7, 9)) < encode_pair((8, 0)));
}
