use std::collections::HashSet;

use state_compressor::codec::{decode_state_diff, encode_state_diff, state_hash_input, CompressorError, StateDiff};
use state_compressor::event::{compress_state_event, parse_compressed_state_event};
use state_compressor::layers::{fold_diff, plan_state_diff, ShortStateInfo};
use state_compressor::service::Service;

fn set(items: &[u128]) -> HashSet<u128> {
    items.iter().copied().collect()
}

fn cse(ssk: u64, sei: u64) -> u128 {
    compress_state_event(ssk, sei)
}

fn same_stack(a: &[ShortStateInfo], b: &[ShortStateInfo]) -> bool {
    a.len() == b.len()
        && a.iter().zip(b.iter()).all(|(x, y)| {
            x.shortstatehash == y.shortstatehash
                && x.full_state == y.full_state
                && x.added == y.added
                && x.removed == y.removed
        })
}

#[test]
fn compress_and_parse_event() {
    let c = compress_state_event(1, 0xA);
    assert_eq!(c, (1u128 << 64) | 0xA);
    assert_eq!(parse_compressed_state_event(c), (1, 0xA));
    assert_eq!(parse_compressed_state_event(cse(0xdead, 0xbeef)), (0xdead, 0xbeef));
}

#[test]
fn record_layout_is_big_endian() {
    let diff = StateDiff { parent: Some(5), added: set(&[cse(1, 2)]), removed: set(&[cse(3, 4)]) };
    let bytes = encode_state_diff(&diff);
    let mut expected = vec![0, 0, 0, 0, 0, 0, 0, 5];
    expected.extend_from_slice(&[0, 0, 0, 0, 0, 0, 0, 1, 0, 0, 0, 0, 0, 0, 0, 2]);
    expected.extend_from_slice(&[0; 8]);
    expected.extend_from_slice(&[0, 0, 0, 0, 0, 0, 0, 3, 0, 0, 0, 0, 0, 0, 0, 4]);
    assert_eq!(bytes, expected);
}

#[test]
fn record_without_removals_has_no_separator() {
    let diff = StateDiff { parent: None, added: set(&[cse(1, 2)]), removed: HashSet::new() };
    let bytes = encode_state_diff(&diff);
    assert_eq!(bytes.len(), 8 + 16);
    assert_eq!(&bytes[0..8], &[0u8; 8]);
}

#[test]
fn record_round_trip() {
    let added = set(&[cse(1, 10), cse(2, 20), cse(3, 30)]);
    let removed = set(&[cse(4, 40), cse(5, 50)]);
    let diff = StateDiff { parent: Some(77), added: added.clone(), removed: removed.clone() };
    let back = decode_state_diff(&encode_state_diff(&diff)).unwrap();
    assert_eq!(back.parent, Some(77));
    assert_eq!(back.added, added);
    assert_eq!(back.removed, removed);

    let base = StateDiff { parent: None, added: added.clone(), removed: HashSet::new() };
    let back = decode_state_diff(&encode_state_diff(&base)).unwrap();
    assert_eq!(back.parent, None);
    assert_eq!(back.added, added);
    assert!(back.removed.is_empty());
}

#[test]
fn first_eight_bytes_of_event_are_never_zero() {
    for ssk in [1u64, 2, 255, 256, u64::MAX] {
        let diff = StateDiff { parent: None, added: set(&[cse(ssk, 0)]), removed: HashSet::new() };
        let bytes = encode_state_diff(&diff);
        assert_ne!(&bytes[8..16], &[0u8; 8]);
    }
}

#[test]
fn truncated_record_is_corrupt() {
    assert!(matches!(decode_state_diff(&[0, 0, 0, 0, 0, 0, 1]), Err(CompressorError::CorruptRecord)));
    let mut bytes = vec![0u8, 0, 0, 0, 0, 0, 0, 1];
    bytes.extend_from_slice(&[0, 0, 0, 0, 0, 0, 0, 1, 0, 0, 0]);
    assert!(matches!(decode_state_diff(&bytes), Err(CompressorError::CorruptRecord)));
}

#[test]
fn separator_switches_to_removed() {
    let mut bytes = vec![0u8; 8];
    bytes.extend_from_slice(&[0, 0, 0, 0, 0, 0, 0, 1, 0, 0, 0, 0, 0, 0, 0, 9]);
    bytes.extend_from_slice(&[0; 8]);
    bytes.extend_from_slice(&[0, 0, 0, 0, 0, 0, 0, 2, 0, 0, 0, 0, 0, 0, 0, 8]);
    let d = decode_state_diff(&bytes).unwrap();
    assert_eq!(d.parent, None);
    assert_eq!(d.added, set(&[cse(1, 9)]));
    assert_eq!(d.removed, set(&[cse(2, 8)]));
}

#[test]
fn fold_cancels_pairs() {
    let a = cse(1, 1);
    let b = cse(2, 2);
    let c = cse(3, 3);
    let d = cse(4, 4);
    // parent added a and removed b; the child removes a, adds b back, adds c, removes d
    let (added, removed) = fold_diff(&set(&[a]), &set(&[b]), &set(&[b, c]), &set(&[a, d]));
    assert_eq!(added, set(&[c]));
    assert_eq!(removed, set(&[d]));
    assert!(added.is_disjoint(&removed));
}

#[test]
fn hash_input_ignores_insertion_order() {
    let mut one = HashSet::new();
    for i in 1..50u64 {
        one.insert(cse(i, i * 3));
    }
    let mut two = HashSet::new();
    for i in (1..50u64).rev() {
        two.insert(cse(i, i * 3));
    }
    two.insert(cse(999, 1));
    two.remove(&cse(999, 1));
    assert_eq!(state_hash_input(&one), state_hash_input(&two));
    let small = state_hash_input(&set(&[cse(2, 1), cse(1, 2)]));
    let mut expected = vec![0, 0, 0, 0, 0, 0, 0, 1, 0, 0, 0, 0, 0, 0, 0, 2];
    expected.extend_from_slice(&[0, 0, 0, 0, 0, 0, 0, 2, 0, 0, 0, 0, 0, 0, 0, 1]);
    assert_eq!(small, expected);
}

#[test]
fn save_empty_to_singleton() {
    let mut service = Service::build(100);
    let s1 = set(&[cse(1, 0xA)]);
    let r = service.save_state(None, 1, false, s1.clone()).unwrap();
    assert_eq!(r.shortstatehash, 1);
    assert_eq!(r.added, s1);
    assert!(r.removed.is_empty());
    let stored = service.get_statediff(1).unwrap();
    assert_eq!(stored.parent, None);
    assert_eq!(stored.added, s1);
    assert!(stored.removed.is_empty());
}

#[test]
fn save_singleton_to_two_then_replace_then_noop() {
    let mut service = Service::build(100);
    let s1 = set(&[cse(1, 0xA)]);
    service.save_state(None, 1, false, s1).unwrap();

    let s2 = set(&[cse(1, 0xA), cse(2, 0xB)]);
    let r = service.save_state(Some(1), 2, false, s2.clone()).unwrap();
    assert_eq!(r.added, set(&[cse(2, 0xB)]));
    assert!(r.removed.is_empty());
    let stored = service.get_statediff(2).unwrap();
    assert_eq!(stored.parent, Some(1));
    assert_eq!(stored.added, set(&[cse(2, 0xB)]));
    assert!(stored.removed.is_empty());
    let stack = service.load_shortstatehash_info(2).unwrap();
    assert_eq!(stack.last().unwrap().full_state, s2);

    let s3 = set(&[cse(1, 0xA), cse(2, 0xC)]);
    let r = service.save_state(Some(2), 3, false, s3.clone()).unwrap();
    assert_eq!(r.added, set(&[cse(2, 0xC)]));
    assert_eq!(r.removed, set(&[cse(2, 0xB)]));
    // the change has size 2 against a parent layer of size 1 with sibling
    // size 2: 2 * 2 >= 2 * 2 * 1, so it is folded into that layer, which
    // then stands on the root with the net change
    let stored = service.get_statediff(3).unwrap();
    assert_eq!(stored.parent, Some(1));
    assert_eq!(stored.added, set(&[cse(2, 0xC)]));
    assert!(stored.removed.is_empty());
    let stack = service.load_shortstatehash_info(3).unwrap();
    assert_eq!(stack.last().unwrap().full_state, s3);

    let r = service.save_state(Some(3), 3, true, s3.clone()).unwrap();
    assert_eq!(r.shortstatehash, 3);
    assert!(r.added.is_empty());
    assert!(r.removed.is_empty());
    assert!(!service.has_statediff(4));
}

#[test]
fn save_keeps_depth_cap() {
    let mut service = Service::build(100);
    let mut state: HashSet<u128> = (1..=40u64).map(|i| cse(i, 1)).collect();
    service.save_state(None, 1, false, state.clone()).unwrap();
    for step in 2..=7u64 {
        state.insert(cse(100 + step, 1));
        service.save_state(Some(step - 1), step, false, state.clone()).unwrap();
        let stack = service.load_shortstatehash_info(step).unwrap();
        assert!(stack.len() <= 4);
        assert_eq!(stack.last().unwrap().full_state, state);
    }
    service.clear_cache();
    let stack = service.load_shortstatehash_info(7).unwrap();
    assert!(stack.len() <= 4);
    assert_eq!(stack.last().unwrap().full_state, state);
}

#[test]
fn save_folds_large_change() {
    let mut service = Service::build(100);
    let base: HashSet<u128> = (1..=10u64).map(|i| cse(i, 1)).collect();
    service.save_state(None, 1, false, base.clone()).unwrap();
    let mut second = base.clone();
    second.remove(&cse(1, 1));
    second.insert(cse(1, 2));
    service.save_state(Some(1), 2, false, second.clone()).unwrap();
    let stored = service.get_statediff(2).unwrap();
    assert_eq!(stored.parent, Some(1));
    assert_eq!(stored.added.len() + stored.removed.len(), 2);

    let mut third = second.clone();
    for i in 0..20u64 {
        third.insert(cse(50 + i, 7));
    }
    service.save_state(Some(2), 3, false, third.clone()).unwrap();
    let stored = service.get_statediff(3).unwrap();
    assert_ne!(stored.parent, Some(2));
    assert_eq!(stored.parent, None);
    assert_eq!(stored.added, third);
    assert!(stored.removed.is_empty());
    let stack = service.load_shortstatehash_info(3).unwrap();
    assert_eq!(stack.len(), 1);
    assert_eq!(stack[0].full_state, third);
}

#[test]
fn cache_gives_same_stack_as_store() {
    let mut service = Service::build(100);
    service.save_state(None, 1, false, set(&[cse(1, 1)])).unwrap();
    service.save_state(Some(1), 2, false, set(&[cse(1, 1), cse(2, 2)])).unwrap();
    service.clear_cache();
    assert_eq!(service.cache_entries(), 0);
    let cold = service.load_shortstatehash_info(2).unwrap();
    assert!(service.cache_entries() > 0);
    let warm = service.load_shortstatehash_info(2).unwrap();
    assert!(same_stack(&cold, &warm));
    assert_eq!(cold.len(), 2);
    assert_eq!(cold[0].shortstatehash, 1);
    assert_eq!(cold[1].shortstatehash, 2);
}

#[test]
fn missing_record_is_not_found() {
    let mut service = Service::build(4);
    assert!(matches!(service.get_statediff(9), Err(CompressorError::NotFound(9))));
    assert!(matches!(service.load_shortstatehash_info(9), Err(CompressorError::NotFound(9))));
    // a save over a previous state that cannot be loaded starts a new base
    let s = set(&[cse(1, 1)]);
    let r = service.save_state(Some(9), 1, false, s.clone()).unwrap();
    assert_eq!(r.added, s);
    assert_eq!(service.get_statediff(1).unwrap().parent, None);
}

#[test]
fn existing_hash_writes_nothing() {
    let mut service = Service::build(4);
    let s = set(&[cse(1, 1)]);
    let r = service.save_state(None, 5, true, s.clone()).unwrap();
    assert_eq!(r.shortstatehash, 5);
    assert_eq!(r.added, s);
    assert!(!service.has_statediff(5));
}

#[test]
fn overflowing_sizes_are_reported() {
    let layer = ShortStateInfo {
        shortstatehash: 1,
        full_state: set(&[cse(1, 1)]),
        added: set(&[cse(1, 1)]),
        removed: HashSet::new(),
    };
    let r = plan_state_diff(set(&[cse(2, 2)]), HashSet::new(), usize::MAX, vec![layer]);
    assert!(matches!(r, Err(CompressorError::ArithmeticOverflow)));
}

#[test]
fn small_change_becomes_new_layer() {
    let layer = ShortStateInfo {
        shortstatehash: 8,
        full_state: (1..=10u64).map(|i| cse(i, 1)).collect(),
        added: (1..=10u64).map(|i| cse(i, 1)).collect(),
        removed: HashSet::new(),
    };
    let d = plan_state_diff(set(&[cse(20, 1)]), HashSet::new(), 2, vec![layer]).unwrap();
    assert_eq!(d.parent, Some(8));
    assert_eq!(d.added, set(&[cse(20, 1)]));
}

#[test]
fn earlier_states_still_load() {
    let mut service = Service::build(2);
    let mut states = Vec::new();
    let mut state: HashSet<u128> = HashSet::new();
    for step in 1..=8u64 {
        state.insert(cse(step, step));
        if step % 3 == 0 {
            state.remove(&cse(step - 1, step - 1));
        }
        let previous = if step == 1 { None } else { Some(step - 1) };
        service.save_state(previous, step, false, state.clone()).unwrap();
        states.push(state.clone());
    }
    for (i, expected) in states.iter().enumerate() {
        let stack = service.load_shortstatehash_info(i as u64 + 1).unwrap();
        assert!(stack.len() <= 4);
        assert_eq!(&stack.last().unwrap().full_state, expected);
    }
}

#[test]
fn base_record_keeps_removals_but_loads_without_them() {
    let mut service = Service::build(10);
    let added = set(&[cse(1, 1), cse(2, 2)]);
    let removed = set(&[cse(3, 3)]);
    service.save_state_from_diff(4, added.clone(), removed.clone(), 2, Vec::new()).unwrap();
    let stored = service.get_statediff(4).unwrap();
    assert_eq!(stored.parent, None);
    assert_eq!(stored.added, added);
    assert_eq!(stored.removed, removed);
    let stack = service.load_shortstatehash_info(4).unwrap();
    assert_eq!(stack.len(), 1);
    assert_eq!(stack[0].full_state, added);
    assert_eq!(stack[0].added, added);
    assert!(stack[0].removed.is_empty());
}

#[test]
fn cache_capacity_bounds_entries() {
    let mut service = Service::build(0);
    service.save_state(None, 1, false, set(&[cse(1, 1)])).unwrap();
    service.load_shortstatehash_info(1).unwrap();
    assert_eq!(service.cache_entries(), 0);

    let mut service = Service::build(1);
    service.save_state(None, 1, false, set(&[cse(1, 1)])).unwrap();
    service.save_state(Some(1), 2, false, set(&[cse(1, 1), cse(2, 2)])).unwrap();
    service.clear_cache();
    service.load_shortstatehash_info(2).unwrap();
    assert_eq!(service.cache_entries(), 1);
    service.clear_cache();
    assert_eq!(service.cache_entries(), 0);
}

#[test]
fn base_record_bytes() {
    let diff = StateDiff { parent: None, added: set(&[cse(1, 0xA)]), removed: HashSet::new() };
    assert_eq!(
        encode_state_diff(&diff),
        vec![0, 0, 0, 0, 0, 0, 0, 0, 0, 0, 0, 0, 0, 0, 0, 1, 0, 0, 0, 0, 0, 0, 0, 0x0A]
    );
}
