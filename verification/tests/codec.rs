use rustfs_erasure_codec::galois_8;
use rustfs_erasure_codec::{CodecFamily, CodecOptions, LeopardMode, MatrixMode, ShardSlot};

#[test]
fn test_codec_options_default_uses_classic_family() {
    assert_eq!(CodecFamily::Classic, CodecOptions::default().codec_family);
}

#[test]
fn codec_options_default_values() {
    let o = CodecOptions::default();
    assert_eq!(o.leopard_mode, LeopardMode::Disabled);
    assert_eq!(o.matrix_mode, MatrixMode::Vandermonde);
    assert!(o.inversion_cache);
    assert_eq!(o.inversion_cache_capacity, 0);
    assert_eq!(o.max_parallel_jobs, 0);
}

#[test]
fn test_shards_to_slots_and_mark_missing_slots_helpers() {
    let shards = vec![vec![1u8, 2], vec![3u8, 4], vec![5u8, 6]];
    let mut slots = galois_8::shards_to_slots(&shards);
    assert!(slots.iter().all(|slot| slot.is_present()));
    galois_8::mark_missing_slots(&mut slots, &[0, 2]);
    assert!(!slots[0].is_present());
    assert!(slots[1].is_present());
    assert!(!slots[2].is_present());
}

#[test]
fn shard_slot_keeps_buffer_when_marked_missing() {
    let mut slot = ShardSlot::new_present(vec![7u8, 8, 9]);
    assert!(slot.is_present());
    slot.mark_missing();
    assert!(!slot.is_present());
    assert_eq!(slot.as_inner(), &vec![7u8, 8, 9]);
    slot.as_inner_mut()[0] = 1;
    slot.mark_present();
    assert!(slot.is_present());
    assert_eq!(slot.into_inner(), vec![1u8, 8, 9]);
    let missing = ShardSlot::new_missing(vec![0u8; 2]);
    assert!(!missing.is_present());
    assert!(ShardSlot::with_present(1u8, true).is_present());
}
