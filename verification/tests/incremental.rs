use rustfs_erasure_codec::{CodecFamily, CodecOptions, Error, ReedSolomon};

fn mix(seed: &mut u64) -> u64 {
    *seed = seed.wrapping_add(0x9e37_79b9_7f4a_7c15);
    let mut z = *seed;
    z = (z ^ (z >> 30)).wrapping_mul(0xbf58_476d_1ce4_e5b9);
    z = (z ^ (z >> 27)).wrapping_mul(0x94d0_49bb_1331_11eb);
    z ^ (z >> 31)
}

fn random_shards(per_shard: usize, count: usize, seed: u64) -> Vec<Vec<u8>> {
    let mut seed = seed;
    let mut shards = Vec::with_capacity(count);
    for _ in 0..count {
        let mut shard = vec![0u8; per_shard];
        for byte in &mut shard {
            *byte = mix(&mut seed) as u8;
        }
        shards.push(shard);
    }
    shards
}

#[test]
fn test_encode_single_sep() {
    let r = ReedSolomon::new(10, 3).unwrap();

    for (len, seed) in [(10usize, 0x31u64), (100, 0x32)] {
        let mut shards = random_shards(len, 13, seed);
        let mut shards_copy = shards.clone();

        r.encode(&mut shards).unwrap();

        {
            let (data, parity) = shards_copy.split_at_mut(10);
            for (i, shard) in data.iter().enumerate().take(10) {
                r.encode_single_sep(i, shard, parity).unwrap();
            }
        }
        assert!(r.verify(&shards).unwrap());
        assert!(r.verify(&shards_copy).unwrap());
        assert_eq!(shards, shards_copy);
    }
}

#[test]
fn test_encode_sep() {
    let r = ReedSolomon::new(10, 3).unwrap();

    for (len, seed) in [(10_000usize, 0x33u64), (100, 0x34)] {
        let mut shards = random_shards(len, 13, seed);
        let mut shards_copy = shards.clone();

        r.encode(&mut shards).unwrap();

        {
            let (data, parity) = shards_copy.split_at_mut(10);
            r.encode_sep(data, parity).unwrap();
        }

        assert_eq!(shards, shards_copy);
    }
}

#[test]
fn test_encode_single_sep_error_handling() {
    let r = ReedSolomon::new(10, 3).unwrap();

    for seed in [0x35u64, 0x36] {
        let mut shards = random_shards(1000, 13, seed);

        {
            let (data, parity) = shards.split_at_mut(10);

            for (i, shard) in data.iter().enumerate().take(10) {
                r.encode_single_sep(i, shard, parity).unwrap();
            }

            for i in 10..15 {
                assert_eq!(Error::InvalidIndex, r.encode_single_sep(i, &data[0], parity).unwrap_err());
            }
        }
        {
            let (data, parity) = shards.split_at_mut(11);
            assert_eq!(Error::TooFewParityShards, r.encode_single_sep(0, &data[0], parity).unwrap_err());
        }
        {
            let (data, parity) = shards.split_at_mut(9);
            assert_eq!(Error::TooManyParityShards, r.encode_single_sep(0, &data[0], parity).unwrap_err());
        }
    }
}

#[test]
fn test_encode_sep_error_handling() {
    let r = ReedSolomon::new(10, 3).unwrap();

    for seed in [0x37u64, 0x38] {
        let mut shards = random_shards(1000, 13, seed);
        let (data, parity) = shards.split_at_mut(10);
        r.encode_sep(data, parity).unwrap();

        {
            let mut shards = random_shards(1000, 12, seed + 1);
            let (data, parity) = shards.split_at_mut(9);
            assert_eq!(Error::TooFewDataShards, r.encode_sep(data, parity).unwrap_err());
        }
        {
            let mut shards = random_shards(1000, 14, seed + 2);
            let (data, parity) = shards.split_at_mut(11);
            assert_eq!(Error::TooManyDataShards, r.encode_sep(data, parity).unwrap_err());
        }
        {
            let mut shards = random_shards(1000, 12, seed + 3);
            let (data, parity) = shards.split_at_mut(10);
            assert_eq!(Error::TooFewParityShards, r.encode_sep(data, parity).unwrap_err());
        }
        {
            let mut shards = random_shards(1000, 14, seed + 4);
            let (data, parity) = shards.split_at_mut(10);
            assert_eq!(Error::TooManyParityShards, r.encode_sep(data, parity).unwrap_err());
        }
    }
}

#[test]
fn test_encode_single_error_handling() {
    let r = ReedSolomon::new(10, 3).unwrap();

    for seed in [0x39u64, 0x3a] {
        let mut shards = random_shards(1000, 13, seed);

        for i in 0..10 {
            r.encode_single(i, &mut shards).unwrap();
        }

        for i in 10..15 {
            assert_eq!(Error::InvalidIndex, r.encode_single(i, &mut shards).unwrap_err());
        }
    }
}

#[test]
fn encode_single_one_shard_at_a_time_matches_encode() {
    let r = ReedSolomon::new(4, 2).unwrap();
    let mut expected = random_shards(32, 6, 0x3b);
    let mut incremental = expected.clone();
    r.encode(&mut expected).unwrap();
    for i in 0..4 {
        r.encode_single(i, &mut incremental).unwrap();
    }
    assert_eq!(expected, incremental);
}

#[test]
fn encode_single_rejects_shards_of_different_lengths() {
    let r = ReedSolomon::new(4, 2).unwrap();
    let mut shards = random_shards(32, 6, 0x3c);
    shards[5] = vec![0u8; 31];
    let before = shards.clone();
    assert_eq!(Error::IncorrectShardSize, r.encode_single(0, &mut shards).unwrap_err());
    assert_eq!(before, shards);
}

#[test]
fn encode_sep_opt_matches_encode_sep() {
    let r = ReedSolomon::new(10, 3).unwrap();
    let mut expected = random_shards(4096, 13, 0x3d);
    let mut actual = expected.clone();
    {
        let (data, parity) = expected.split_at_mut(10);
        r.encode_sep(data, parity).unwrap();
    }
    {
        let (data, parity) = actual.split_at_mut(10);
        r.encode_sep_opt(data, parity).unwrap();
    }
    assert_eq!(expected, actual);
    let mut wrong = random_shards(64, 12, 0x3e);
    let (data, parity) = wrong.split_at_mut(10);
    assert_eq!(Error::TooFewParityShards, r.encode_sep_opt(data, parity).unwrap_err());
}

#[test]
fn test_update_with_no_changes_keeps_existing_parity() {
    let r = ReedSolomon::new(4, 2).unwrap();
    let mut shards = random_shards(1024, 6, 0x41);
    r.encode(&mut shards).unwrap();

    let original_parity = shards[4..].to_vec();
    let changes: Vec<Option<Vec<u8>>> = vec![None, None, None, None];
    let (data, parity) = shards.split_at_mut(4);
    r.update(data, &changes, parity).unwrap();
    assert_eq!(original_parity, shards[4..].to_vec());
}

#[test]
fn test_update_matches_full_encode_for_single_changed_data_shard() {
    let r = ReedSolomon::new(4, 2).unwrap();
    let mut baseline = random_shards(1024, 6, 0x42);
    r.encode(&mut baseline).unwrap();

    let old_data = baseline[..4].to_vec();
    let mut updated = baseline.clone();
    updated[1] = random_shards(1024, 1, 0x43).remove(0);

    let mut parity_only = baseline[4..].to_vec();
    let changes = vec![None, Some(updated[1].clone()), None, None];
    r.update(&old_data, &changes, &mut parity_only).unwrap();

    let mut full = old_data.clone();
    full.push(parity_only[0].clone());
    full.push(parity_only[1].clone());
    full[1] = updated[1].clone();
    r.encode(&mut full).unwrap();

    assert_eq!(full[4], parity_only[0]);
    assert_eq!(full[5], parity_only[1]);
}

#[test]
fn test_update_matches_full_encode_for_multiple_changed_data_shards() {
    let r = ReedSolomon::new(6, 3).unwrap();
    let mut baseline = random_shards(2048, 9, 0x44);
    r.encode(&mut baseline).unwrap();

    let old_data = baseline[..6].to_vec();
    let mut parity_only = baseline[6..].to_vec();
    let mut new_data = old_data.clone();
    new_data[0] = random_shards(2048, 1, 0x45).remove(0);
    new_data[4] = random_shards(2048, 1, 0x46).remove(0);

    let changes = vec![Some(new_data[0].clone()), None, None, None, Some(new_data[4].clone()), None];
    r.update(&old_data, &changes, &mut parity_only).unwrap();

    let mut full = new_data.clone();
    full.extend(parity_only.clone());
    r.encode(&mut full).unwrap();

    assert_eq!(full[6..], parity_only[..]);
}

#[test]
fn test_update_fast_one_parity_matches_full_encode() {
    let r = ReedSolomon::with_options(4, 1, CodecOptions { fast_one_parity: true, ..CodecOptions::default() }).unwrap();

    let mut baseline = random_shards(1024, 5, 0x47);
    r.encode(&mut baseline).unwrap();

    let old_data = baseline[..4].to_vec();
    let mut parity_only = baseline[4..].to_vec();
    let mut new_data = old_data.clone();
    new_data[2] = random_shards(1024, 1, 0x48).remove(0);

    let changes = vec![None, None, Some(new_data[2].clone()), None];
    r.update(&old_data, &changes, &mut parity_only).unwrap();

    let mut full = new_data.clone();
    full.extend(parity_only.clone());
    r.encode(&mut full).unwrap();
    assert_eq!(full[4], parity_only[0]);
}

#[test]
fn test_update_rejects_wrong_changed_shard_count() {
    let r = ReedSolomon::new(4, 2).unwrap();
    let mut baseline = random_shards(256, 6, 0x49);
    r.encode(&mut baseline).unwrap();

    let old_data = baseline[..4].to_vec();
    let changes: Vec<Option<Vec<u8>>> = vec![None, None, None];
    let mut parity_only = baseline[4..].to_vec();

    assert_eq!(Error::TooFewDataShards, r.update(&old_data, &changes, &mut parity_only).unwrap_err());
}

#[test]
fn test_update_rejects_wrong_parity_count() {
    let r = ReedSolomon::new(4, 2).unwrap();
    let mut baseline = random_shards(256, 6, 0x4a);
    r.encode(&mut baseline).unwrap();

    let old_data = baseline[..4].to_vec();
    let changes: Vec<Option<Vec<u8>>> = vec![None, None, None, None];
    let mut parity_only = [baseline[4].clone()];

    assert_eq!(Error::TooFewParityShards, r.update(&old_data, &changes, &mut parity_only).unwrap_err());
}

#[test]
fn test_update_rejects_incorrect_changed_shard_size() {
    let r = ReedSolomon::new(4, 2).unwrap();
    let mut baseline = random_shards(256, 6, 0x4b);
    r.encode(&mut baseline).unwrap();

    let old_data = baseline[..4].to_vec();
    let invalid = vec![1u8; 8];
    let changes = vec![Some(invalid), None, None, None];
    let mut parity_only = baseline[4..].to_vec();

    assert_eq!(Error::IncorrectShardSize, r.update(&old_data, &changes, &mut parity_only).unwrap_err());
}

#[test]
fn test_update_rejects_empty_old_data_shards() {
    let r = ReedSolomon::new(2, 1).unwrap();
    let old_data = vec![Vec::<u8>::new(), Vec::<u8>::new()];
    let changes: Vec<Option<Vec<u8>>> = vec![None, None];
    let mut parity = vec![vec![0u8; 0]];

    assert_eq!(Error::EmptyShard, r.update(&old_data, &changes, &mut parity).unwrap_err());
}

#[test]
fn update_leaves_parity_alone_when_refused() {
    let r = ReedSolomon::new(3, 2).unwrap();
    let mut shards = random_shards(64, 5, 0x4c);
    r.encode(&mut shards).unwrap();
    let old_data = shards[..3].to_vec();
    let mut parity = shards[3..].to_vec();
    parity[1] = vec![0u8; 63];
    let before = parity.clone();
    let changes = vec![Some(vec![7u8; 64]), None, None];
    assert_eq!(Error::IncorrectShardSize, r.update(&old_data, &changes, &mut parity).unwrap_err());
    assert_eq!(before, parity);
    let too_many: Vec<Option<Vec<u8>>> = vec![None, None, None, None];
    assert_eq!(Error::TooManyDataShards, r.update(&old_data, &too_many, &mut parity).unwrap_err());
}
