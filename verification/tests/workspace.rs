use rustfs_erasure_codec::galois_8::ReedSolomon;
use rustfs_erasure_codec::Error;

fn qc_mix(seed: &mut u64) -> u64 {
    *seed = seed.wrapping_add(0x9e37_79b9_7f4a_7c15);
    let mut z = *seed;
    z = (z ^ (z >> 30)).wrapping_mul(0xbf58_476d_1ce4_e5b9);
    z = (z ^ (z >> 27)).wrapping_mul(0x94d0_49bb_1331_11eb);
    z ^ (z >> 31)
}

fn deterministic_shards_u8(per_shard: usize, size: usize, seed: u64) -> Vec<Vec<u8>> {
    let mut seed = seed;
    let mut shards = Vec::with_capacity(size);
    for _ in 0..size {
        let mut shard = vec![0; per_shard];
        for byte in &mut shard {
            *byte = qc_mix(&mut seed) as u8;
        }
        shards.push(shard);
    }
    shards
}

fn shards_to_option_shards(shards: &[Vec<u8>]) -> Vec<Option<Vec<u8>>> {
    shards.iter().cloned().map(Some).collect()
}

#[test]
fn test_galois_8_reconstruct_data_opt_matches_reconstruct_data() {
    let r = ReedSolomon::new(10, 4).unwrap();
    let mut shards = deterministic_shards_u8(256 * 1024, 14, 0x300);
    r.encode(&mut shards).unwrap();

    let mut expected = shards_to_option_shards(&shards);
    expected[0] = None;
    expected[1] = None;

    let mut actual = expected.clone();

    r.reconstruct_data(&mut expected).unwrap();
    r.reconstruct_data_opt(&mut actual).unwrap();

    assert_eq!(expected, actual);
}

#[test]
fn test_galois_8_reconstruct_opt_matches_reconstruct() {
    let r = ReedSolomon::new(10, 4).unwrap();
    let mut shards = deterministic_shards_u8(256 * 1024, 14, 0x301);
    r.encode(&mut shards).unwrap();

    let mut expected = shards_to_option_shards(&shards);
    expected[0] = None;
    expected[12] = None;

    let mut actual = expected.clone();

    r.reconstruct(&mut expected).unwrap();
    r.reconstruct_opt(&mut actual).unwrap();

    assert_eq!(expected, actual);
}

#[test]
fn test_galois_8_reconstruct_opt_with_workspace_matches_reconstruct() {
    let r = ReedSolomon::new(10, 4).unwrap();
    let mut shards = deterministic_shards_u8(64 * 1024, 14, 0x302);
    r.encode(&mut shards).unwrap();

    let mut expected = shards_to_option_shards(&shards);
    expected[0] = None;
    expected[12] = None;

    let mut actual = expected.clone();
    let workspace = r.prepare_reconstruct_opt_workspace(&actual).unwrap();

    r.reconstruct(&mut expected).unwrap();
    r.reconstruct_opt_with_workspace(&mut actual, &workspace).unwrap();

    assert_eq!(expected, actual);
}

#[test]
fn test_galois_8_reconstruct_opt_with_workspace_all_present_is_noop() {
    let r = ReedSolomon::new(10, 4).unwrap();
    let mut shards = deterministic_shards_u8(64 * 1024, 14, 0x303);
    r.encode(&mut shards).unwrap();

    let mut actual = shards_to_option_shards(&shards);
    let expected = actual.clone();
    let workspace = r.prepare_reconstruct_opt_workspace(&actual).unwrap();

    r.reconstruct_opt_with_workspace(&mut actual, &workspace).unwrap();

    assert_eq!(expected, actual);
}

#[test]
fn test_galois_8_reconstruct_some_opt_matches_reconstruct_some_for_data_only() {
    let r = ReedSolomon::new(10, 4).unwrap();
    let mut shards = deterministic_shards_u8(256 * 1024, 14, 0x304);
    r.encode(&mut shards).unwrap();

    let mut expected = shards_to_option_shards(&shards);
    expected[0] = None;
    expected[2] = None;

    let mut actual = expected.clone();
    let mut required = vec![false; 14];
    required[2] = true;

    r.reconstruct_some(&mut expected, &required).unwrap();
    r.reconstruct_some_opt(&mut actual, &required).unwrap();

    assert_eq!(expected, actual);
}

#[test]
fn test_galois_8_reconstruct_some_opt_rejects_invalid_flags_length() {
    let r = ReedSolomon::new(10, 4).unwrap();
    let mut shards = deterministic_shards_u8(256 * 1024, 14, 0x305).into_iter().map(Some).collect::<Vec<_>>();

    assert_eq!(Error::InvalidShardFlags, r.reconstruct_some_opt(&mut shards, &[true, false]).unwrap_err());
}

#[test]
fn test_galois_8_reconstruct_some_opt_accepts_data_shard_required_mask() {
    let r = ReedSolomon::new(5, 3).unwrap();
    let mut shards = deterministic_shards_u8(4096, 8, 0x306);
    r.encode(&mut shards).unwrap();
    let expected = shards[2].clone();

    let mut missing = shards_to_option_shards(&shards);
    missing[2] = None;
    missing[7] = None;

    let mut required = vec![false; 5];
    required[2] = true;
    r.reconstruct_some_opt(&mut missing, &required).unwrap();

    assert_eq!(Some(&expected), missing[2].as_ref());
    assert!(missing[7].is_none(), "short required mask must not request parity");
}

#[test]
fn workspace_refuses_shards_with_another_missing_pattern() {
    let r = ReedSolomon::new(4, 2).unwrap();
    let mut shards = deterministic_shards_u8(64, 6, 0x307);
    r.encode(&mut shards).unwrap();

    let mut planned = shards_to_option_shards(&shards);
    planned[1] = None;
    let workspace = r.prepare_reconstruct_opt_workspace(&planned).unwrap();

    let mut other = shards_to_option_shards(&shards);
    other[2] = None;
    assert_eq!(Error::InvalidShardFlags, r.reconstruct_opt_with_workspace(&mut other, &workspace).unwrap_err());
    assert_eq!(other[2], None);

    let mut shorter = shards_to_option_shards(&shards);
    shorter[1] = None;
    for shard in shorter.iter_mut().flatten() {
        shard.pop();
    }
    assert_eq!(Error::IncorrectShardSize, r.reconstruct_opt_with_workspace(&mut shorter, &workspace).unwrap_err());

    r.reconstruct_opt_with_workspace(&mut planned, &workspace).unwrap();
    assert_eq!(planned[1].as_ref(), Some(&shards[1]));
}

#[test]
fn test_galois_8_reconstruct_data_opt_matches_reconstruct_data_for_small_shards() {
    let r = ReedSolomon::new(10, 4).unwrap();
    let mut shards = deterministic_shards_u8(8 * 1024, 14, 0x71);
    r.encode(&mut shards).unwrap();

    let mut expected = shards_to_option_shards(&shards);
    expected[0] = None;
    expected[1] = None;

    let mut actual = expected.clone();

    assert!(!r.parallel_policy(8 * 1024, 2).use_parallel);

    r.reconstruct_data(&mut expected).unwrap();
    r.reconstruct_data_opt(&mut actual).unwrap();

    assert_eq!(expected, actual);
}
