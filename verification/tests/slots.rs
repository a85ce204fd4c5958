use rustfs_erasure_codec::galois_8::{mark_missing_slots, shards_to_slots};
use rustfs_erasure_codec::{Error, ReedSolomon, ShardSlot};

fn qc_mix(seed: &mut u64) -> u64 {
    *seed = seed.wrapping_add(0x9e37_79b9_7f4a_7c15);
    let mut z = *seed;
    z = (z ^ (z >> 30)).wrapping_mul(0xbf58_476d_1ce4_e5b9);
    z = (z ^ (z >> 27)).wrapping_mul(0x94d0_49bb_1331_11eb);
    z ^ (z >> 31)
}

fn deterministic_shards_u8(per_shard: usize, size: usize, seed: u64) -> Vec<Vec<u8>> {
    let mut seed = seed;
    let mut shards = Vec::with_capacity(size);
    for _ in 0..size {
        let mut shard = vec![0; per_shard];
        for byte in &mut shard {
            *byte = qc_mix(&mut seed) as u8;
        }
        shards.push(shard);
    }
    shards
}

#[test]
fn test_reconstruct_marks_shard_slot_present() {
    let r = ReedSolomon::new(4, 2).unwrap();
    let mut shards = deterministic_shards_u8(64 * 1024, 6, 0x61);
    r.encode(&mut shards).unwrap();

    let mut slots: Vec<ShardSlot<Vec<u8>>> = shards.into_iter().map(ShardSlot::new_present).collect();
    slots[0] = ShardSlot::new_missing(vec![0u8; 64 * 1024]);
    slots[5] = ShardSlot::new_missing(vec![0u8; 64 * 1024]);

    assert!(!slots[0].is_present());
    assert!(!slots[5].is_present());

    r.reconstruct_slots(&mut slots).unwrap();

    assert!(slots[0].is_present());
    assert!(slots[5].is_present());
}

// Own tests.

#[test]
fn reconstruct_slots_restores_the_missing_shards() {
    let rs = ReedSolomon::new(4, 2).unwrap();
    let mut shards = vec![
        vec![0, 1, 2, 3],
        vec![4, 5, 6, 7],
        vec![8, 9, 10, 11],
        vec![12, 13, 14, 15],
        vec![0, 0, 0, 0],
        vec![0, 0, 0, 0],
    ];
    rs.encode(&mut shards).unwrap();

    let mut slots = shards_to_slots(&shards);
    mark_missing_slots(&mut slots, &[1, 5]);
    rs.reconstruct_slots(&mut slots).unwrap();

    assert!(slots[1].is_present());
    assert!(slots[5].is_present());
    for (slot, shard) in slots.iter().zip(shards.iter()) {
        assert_eq!(slot.as_inner(), shard);
    }
}

#[test]
fn reconstruct_data_slots_leaves_parity_missing() {
    let rs = ReedSolomon::new(3, 2).unwrap();
    let mut shards = deterministic_shards_u8(32, 5, 0x62);
    rs.encode(&mut shards).unwrap();

    let mut slots = shards_to_slots(&shards);
    mark_missing_slots(&mut slots, &[0, 4]);
    rs.reconstruct_data_slots(&mut slots).unwrap();

    assert!(slots[0].is_present());
    assert_eq!(slots[0].as_inner(), &shards[0]);
    assert!(!slots[4].is_present());
}

#[test]
fn reconstruct_slots_rejects_a_buffer_of_another_length() {
    let rs = ReedSolomon::new(3, 2).unwrap();
    let mut shards = deterministic_shards_u8(32, 5, 0x63);
    rs.encode(&mut shards).unwrap();

    let mut slots = shards_to_slots(&shards);
    slots[2] = ShardSlot::new_missing(vec![0u8; 31]);
    assert_eq!(Error::IncorrectShardSize, rs.reconstruct_slots(&mut slots).unwrap_err());
    assert!(!slots[2].is_present());
}

#[test]
fn reconstruct_slots_needs_enough_present() {
    let rs = ReedSolomon::new(3, 2).unwrap();
    let shards = deterministic_shards_u8(8, 5, 0x64);
    let mut slots = shards_to_slots(&shards);
    mark_missing_slots(&mut slots, &[0, 1, 2]);
    assert_eq!(Error::TooFewShardsPresent, rs.reconstruct_slots(&mut slots).unwrap_err());
}
