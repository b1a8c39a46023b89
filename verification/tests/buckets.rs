use hdrhist::buckets::{slot_index, slot_lower_bound};

#[test]
fn first_bucket_has_one_slot_for_each_value() {
    for v in 0..16u64 {
        assert_eq!(slot_index(v, 4), v as usize);
        assert_eq!(slot_lower_bound(v as usize, 4), v);
    }
}

#[test]
fn slots_of_known_values() {
    assert_eq!(slot_index(16, 4), 16);
    assert_eq!(slot_index(31, 4), 31);
    assert_eq!(slot_index(32, 4), 32);
    assert_eq!(slot_index(33, 4), 32);
    assert_eq!(slot_index(34, 4), 33);
    assert_eq!(slot_index(1_000_000, 4), 16 * 16 + 14);
    assert_eq!(slot_index(u64::MAX, 4), 60 * 16 + 15);
    assert_eq!(slot_index(u64::MAX, 0), 64);
    assert_eq!(slot_index(0, 0), 0);
    assert_eq!(slot_index(1, 0), 1);
    assert_eq!(slot_index(u64::MAX, 16), 48 * 65536 + 65535);
    assert_eq!(slot_index(u64::MAX, 22), 43 * (1 << 22) - 1);
    assert_eq!(slot_index(1 << 22, 22), 1 << 22);
    assert_eq!(slot_index((1 << 22) - 1, 22), (1 << 22) - 1);
}

#[test]
fn lower_bounds_of_known_slots() {
    assert_eq!(slot_lower_bound(16, 4), 16);
    assert_eq!(slot_lower_bound(32, 4), 32);
    assert_eq!(slot_lower_bound(33, 4), 34);
    assert_eq!(slot_lower_bound(270, 4), 983_040);
    assert_eq!(slot_lower_bound(271, 4), 1_015_808);
    assert_eq!(slot_lower_bound(975, 4), 31 << 59);
    assert_eq!(slot_lower_bound(0, 0), 0);
    assert_eq!(slot_lower_bound(1, 0), 1);
    assert_eq!(slot_lower_bound(64, 0), 1 << 63);
}

#[test]
fn past_the_grid_the_bound_stays_at_the_maximum() {
    assert_eq!(slot_lower_bound(976, 4), u64::MAX);
    assert_eq!(slot_lower_bound(977, 4), u64::MAX);
    assert_eq!(slot_lower_bound(usize::MAX, 4), u64::MAX);
    assert_eq!(slot_lower_bound(65, 0), u64::MAX);
    assert_eq!(slot_lower_bound(49 * 65536, 16), u64::MAX);
    assert_eq!(slot_lower_bound(43 * (1 << 22), 22), u64::MAX);
    assert_eq!(slot_lower_bound(43 * (1 << 22) - 1, 22), u64::MAX - (1 << 41) + 1);
}

#[test]
fn each_value_lies_in_its_slot() {
    let values = [0u64, 1, 15, 16, 17, 255, 256, 1000, 65_535, 65_536, 1_000_000,
        (1 << 53) + 1, u64::MAX / 3, u64::MAX - 1];
    for bits in [0usize, 1, 4, 7, 16, 22] {
        for v in values {
            let slot = slot_index(v, bits);
            assert!(slot_lower_bound(slot, bits) <= v);
            assert!(v < slot_lower_bound(slot + 1, bits));
        }
    }
}

#[test]
fn top_value_lies_in_the_last_slot() {
    for bits in [0usize, 4, 16, 22] {
        let slot = slot_index(u64::MAX, bits);
        assert_eq!(slot, (65 - bits) * (1 << bits) - 1);
        assert!(slot_lower_bound(slot, bits) < u64::MAX);
        assert_eq!(slot_lower_bound(slot + 1, bits), u64::MAX);
    }
}

#[test]
fn lower_bounds_increase_with_the_slot() {
    for bits in [0usize, 3, 4] {
        let slots = (65 - bits) * (1 << bits);
        for slot in 0..slots {
            assert!(slot_lower_bound(slot, bits) < slot_lower_bound(slot + 1, bits));
        }
    }
}

#[test]
fn values_in_one_slot_are_close() {
    // Two values of one slot differ by less than 1/16 of the smaller one.
    let pairs = [(983_040u64, 1_015_807u64), (32, 33), (1 << 63, (1 << 63) + (1 << 59) - 1)];
    for (v1, v2) in pairs {
        assert_eq!(slot_index(v1, 4), slot_index(v2, 4));
        assert!(((v2 - v1) as u128) * 16 <= v1 as u128);
    }
    // One more and the slot changes.
    assert_ne!(slot_index(983_040, 4), slot_index(1_015_808, 4));
    assert_ne!(slot_index(32, 4), slot_index(34, 4));
}
