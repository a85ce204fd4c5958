use rustfs_erasure_codec::{CodecFamily, CodecOptions, Error, MatrixMode, ReconstructShard, ReedSolomon};

fn qc_mix(seed: &mut u64) -> u64 {
    *seed = seed.wrapping_add(0x9e37_79b9_7f4a_7c15);
    let mut z = *seed;
    z = (z ^ (z >> 30)).wrapping_mul(0xbf58_476d_1ce4_e5b9);
    z = (z ^ (z >> 27)).wrapping_mul(0x94d0_49bb_1331_11eb);
    z ^ (z >> 31)
}

fn deterministic_shards_u8(per_shard: usize, size: usize, seed: u64) -> Vec<Vec<u8>> {
    let mut seed = seed;
    let mut shards = Vec::with_capacity(size);
    for _ in 0..size {
        let mut shard = vec![0; per_shard];
        for byte in &mut shard {
            *byte = qc_mix(&mut seed) as u8;
        }
        shards.push(shard);
    }
    shards
}

fn shards_to_option_shards(shards: &[Vec<u8>]) -> Vec<Option<Vec<u8>>> {
    shards.iter().cloned().map(Some).collect()
}

fn option_shards_to_shards(shards: &[Option<Vec<u8>>]) -> Vec<Vec<u8>> {
    shards
        .iter()
        .enumerate()
        .map(|(i, shard)| match shard {
            Some(x) => x.clone(),
            None => panic!("Missing shard, index : {}", i),
        })
        .collect()
}

#[test]
fn test_reed_solomon_clone() {
    let r1 = ReedSolomon::new(10, 3).unwrap();
    let r2 = r1.clone();

    assert_eq!(r1, r2);
}

#[test]
fn test_encoding() {
    let per_shard = 50_000;

    let r = ReedSolomon::new(10, 3).unwrap();

    let mut shards = deterministic_shards_u8(per_shard, 13, 0x10);

    r.encode(&mut shards).unwrap();
    assert!(r.verify(&shards).unwrap());

    assert_eq!(Error::TooFewShards, r.encode(&mut shards[0..1]).unwrap_err());

    let mut bad_shards = deterministic_shards_u8(per_shard, 13, 0x11);
    bad_shards[0] = vec![0u8];
    assert_eq!(Error::IncorrectShardSize, r.encode(&mut bad_shards).unwrap_err());
}

#[test]
fn test_reconstruct_shards() {
    let per_shard = 100_000;

    let r = ReedSolomon::new(8, 5).unwrap();

    let mut shards = deterministic_shards_u8(per_shard, 13, 0x20);

    r.encode(&mut shards).unwrap();

    let master_copy = shards.clone();

    let mut shards = shards_to_option_shards(&shards);

    r.reconstruct(&mut shards).unwrap();
    {
        let shards = option_shards_to_shards(&shards);
        assert!(r.verify(&shards).unwrap());
        assert_eq!(&shards, &master_copy);
    }

    shards[0] = None;
    shards[2] = None;
    r.reconstruct(&mut shards).unwrap();
    {
        let shards = option_shards_to_shards(&shards);
        assert!(r.verify(&shards).unwrap());
        assert_eq!(&shards, &master_copy);
    }

    shards[0] = None;
    shards[2] = None;
    r.reconstruct(&mut shards).unwrap();
    {
        let shards = option_shards_to_shards(&shards);
        assert!(r.verify(&shards).unwrap());
        assert_eq!(&shards, &master_copy);
    }

    shards[0] = None;
    shards[2] = None;
    shards[12] = None;
    r.reconstruct(&mut shards).unwrap();
    {
        let shards = option_shards_to_shards(&shards);
        assert!(r.verify(&shards).unwrap());
        assert_eq!(&shards, &master_copy);
    }

    shards[0] = None;
    shards[1] = None;
    shards[12] = None;
    r.reconstruct_data(&mut shards).unwrap();
    {
        let data_shards = option_shards_to_shards(&shards[0..8]);
        assert_eq!(master_copy[0], data_shards[0]);
        assert_eq!(master_copy[1], data_shards[1]);
        assert_eq!(None, shards[12]);
    }

    shards[0] = None;
    shards[1] = None;
    shards[9] = None;
    shards[10] = None;
    shards[11] = None;
    shards[12] = None;
    assert_eq!(r.reconstruct(&mut shards).unwrap_err(), Error::TooFewShardsPresent);
}

#[test]
fn test_reconstruct() {
    let r = ReedSolomon::new(2, 2).unwrap();

    let mut shards: Vec<Vec<u8>> = vec![vec![0, 1, 2], vec![3, 4, 5], vec![200, 201, 203], vec![100, 101, 102]];
    r.encode(&mut shards).unwrap();
    assert!(r.verify(&shards).unwrap());

    // A shard kept with a presence flag: the missing shard's buffer is
    // overwritten with the recovered bytes.
    shards[0] = vec![101, 102, 103];
    let shards_present = [false, true, true, true];
    let mut flagged: Vec<(Vec<u8>, bool)> = shards.iter().cloned().zip(shards_present.iter().cloned()).collect();
    r.reconstruct_slots(&mut flagged[..]).unwrap();
    let shards: Vec<Vec<u8>> = flagged.into_iter().map(|(s, _)| s).collect();
    assert!(r.verify(&shards).unwrap());

    let expect: Vec<Vec<u8>> = vec![vec![0, 1, 2], vec![3, 4, 5], vec![6, 11, 12], vec![5, 14, 11]];
    assert_eq!(expect, shards);

    let mut shards = shards;
    shards[0] = vec![201, 202, 203];
    shards[2] = vec![101, 102, 103];
    let shards_present = [false, true, false, true];
    let mut flagged: Vec<(Vec<u8>, bool)> = shards.iter().cloned().zip(shards_present.iter().cloned()).collect();
    r.reconstruct_data_slots(&mut flagged[..]).unwrap();
    let shards: Vec<Vec<u8>> = flagged.into_iter().map(|(s, _)| s).collect();
    assert!(!r.verify(&shards).unwrap());

    let expect: Vec<Vec<u8>> = vec![vec![0, 1, 2], vec![3, 4, 5], vec![101, 102, 103], vec![5, 14, 11]];
    assert_eq!(expect, shards);

    // The same with optional shards.
    let full: Vec<Vec<u8>> = vec![vec![0, 1, 2], vec![3, 4, 5], vec![6, 11, 12], vec![5, 14, 11]];
    let mut option_shards = shards_to_option_shards(&full);
    option_shards[0] = None;
    option_shards[2] = None;
    r.reconstruct_data(&mut option_shards).unwrap();
    assert_eq!(Some(vec![0, 1, 2]), option_shards[0]);
    assert_eq!(None, option_shards[2]);
}

#[test]
fn reconstruct_shard_trait_forms_agree() {
    let r = ReedSolomon::new(3, 2).unwrap();
    let mut full = deterministic_shards_u8(16, 5, 0x71);
    r.encode(&mut full).unwrap();

    let mut opts: Vec<Option<Vec<u8>>> = shards_to_option_shards(&full);
    opts[1] = None;
    opts[4] = None;
    r.reconstruct_slots(&mut opts[..]).unwrap();
    assert_eq!(full, option_shards_to_shards(&opts));

    let mut flagged: Vec<(Vec<u8>, bool)> = full.iter().map(|s| (s.clone(), true)).collect();
    flagged[1] = (vec![0u8; 16], false);
    flagged[4] = (vec![0u8; 15], false);
    let before = flagged.clone();
    assert_eq!(Error::IncorrectShardSize, r.reconstruct_slots(&mut flagged[..]).unwrap_err());
    assert_eq!(before, flagged);
    flagged[4] = (vec![9u8; 16], false);
    r.reconstruct_slots(&mut flagged[..]).unwrap();
    assert!(flagged.iter().all(|(_, present)| *present));
    assert_eq!(full, flagged.into_iter().map(|(s, _)| s).collect::<Vec<_>>());

    let mut one: Option<Vec<u8>> = None;
    assert_eq!(None, ReconstructShard::len(&one));
    assert!(ReconstructShard::is_empty(&one));
    match one.get_or_initialize(4) {
        Err(Ok(s)) => s.copy_from_slice(&[1, 2, 3, 4]),
        _ => panic!("a missing optional shard is created"),
    }
    assert_eq!(Some(vec![1u8, 2, 3, 4]), one);
    let mut pair: (Vec<u8>, bool) = (vec![0u8; 3], false);
    assert!(matches!(pair.get_or_initialize(4), Err(Err(Error::IncorrectShardSize))));
    assert!(!pair.1);
    assert!(matches!(pair.get_or_initialize(3), Err(Ok(_))));
    assert!(pair.1);
}

#[test]
fn test_reconstruct_error_handling() {
    let r = ReedSolomon::new(2, 2).unwrap();

    let mut shards: Vec<Vec<u8>> = vec![vec![0, 1, 2], vec![3, 4, 5], vec![200, 201, 203], vec![100, 101, 102]];
    r.encode(&mut shards).unwrap();

    shards[0] = vec![101, 102, 103];
    let mut option_shards: Vec<Option<Vec<u8>>> = vec![Some(shards[0].clone()), None, None, None];
    assert_eq!(Error::TooFewShardsPresent, r.reconstruct(&mut option_shards).unwrap_err());

    option_shards[3] = Some(shards[3].clone());
    r.reconstruct(&mut option_shards).unwrap();
}

#[test]
fn test_one_encode() {
    let r = ReedSolomon::new(5, 5).unwrap();

    let mut shards: Vec<Vec<u8>> = vec![
        vec![0, 1],
        vec![4, 5],
        vec![2, 3],
        vec![6, 7],
        vec![8, 9],
        vec![0, 0],
        vec![0, 0],
        vec![0, 0],
        vec![0, 0],
        vec![0, 0],
    ];

    r.encode(&mut shards).unwrap();
    assert_eq!(shards[5][0], 12);
    assert_eq!(shards[5][1], 13);
    assert_eq!(shards[6][0], 10);
    assert_eq!(shards[6][1], 11);
    assert_eq!(shards[7][0], 14);
    assert_eq!(shards[7][1], 15);
    assert_eq!(shards[8][0], 90);
    assert_eq!(shards[8][1], 91);
    assert_eq!(shards[9][0], 94);
    assert_eq!(shards[9][1], 95);

    assert!(r.verify(&shards).unwrap());

    shards[8][0] += 1;
    assert!(!r.verify(&shards).unwrap());
}

#[test]
fn test_verify_too_few_shards() {
    let r = ReedSolomon::new(3, 2).unwrap();

    let shards = deterministic_shards_u8(10, 4, 0x30);

    assert_eq!(Error::TooFewShards, r.verify(&shards).unwrap_err());
}

#[test]
fn test_slices_or_shards_count_check() {
    let r = ReedSolomon::new(3, 2).unwrap();

    {
        let mut shards = deterministic_shards_u8(10, 4, 0x40);

        assert_eq!(Error::TooFewShards, r.encode(&mut shards).unwrap_err());
        assert_eq!(Error::TooFewShards, r.verify(&shards).unwrap_err());

        let mut option_shards = shards_to_option_shards(&shards);

        assert_eq!(Error::TooFewShards, r.reconstruct(&mut option_shards).unwrap_err());
    }
    {
        let mut shards = deterministic_shards_u8(10, 6, 0x41);

        assert_eq!(Error::TooManyShards, r.encode(&mut shards).unwrap_err());
        assert_eq!(Error::TooManyShards, r.verify(&shards).unwrap_err());

        let mut option_shards = shards_to_option_shards(&shards);

        assert_eq!(Error::TooManyShards, r.reconstruct(&mut option_shards).unwrap_err());
    }
}

#[test]
fn test_check_slices_or_shards_size() {
    let r = ReedSolomon::new(2, 2).unwrap();

    {
        let mut shards: Vec<Vec<u8>> = vec![vec![0, 0, 0], vec![0, 1], vec![1, 2, 3], vec![0, 0, 0]];

        assert_eq!(Error::IncorrectShardSize, r.encode(&mut shards).unwrap_err());
        assert_eq!(Error::IncorrectShardSize, r.verify(&shards).unwrap_err());

        let mut option_shards = shards_to_option_shards(&shards);

        assert_eq!(Error::IncorrectShardSize, r.reconstruct(&mut option_shards).unwrap_err());
    }
    {
        let mut shards: Vec<Vec<u8>> = vec![vec![0, 1], vec![0, 1], vec![1, 2, 3], vec![0, 0, 0]];

        assert_eq!(Error::IncorrectShardSize, r.encode(&mut shards).unwrap_err());
        assert_eq!(Error::IncorrectShardSize, r.verify(&shards).unwrap_err());

        let mut option_shards = shards_to_option_shards(&shards);

        assert_eq!(Error::IncorrectShardSize, r.reconstruct(&mut option_shards).unwrap_err());
    }
    {
        let mut shards: Vec<Vec<u8>> = vec![vec![0, 1], vec![0, 1, 4], vec![1, 2, 3], vec![0, 0, 0]];

        assert_eq!(Error::IncorrectShardSize, r.encode(&mut shards).unwrap_err());
        assert_eq!(Error::IncorrectShardSize, r.verify(&shards).unwrap_err());

        let mut option_shards = shards_to_option_shards(&shards);

        assert_eq!(Error::IncorrectShardSize, r.reconstruct(&mut option_shards).unwrap_err());
    }
    {
        let mut shards: Vec<Vec<u8>> = vec![vec![], vec![0, 1, 3], vec![1, 2, 3], vec![0, 0, 0]];

        assert_eq!(Error::EmptyShard, r.encode(&mut shards).unwrap_err());
        assert_eq!(Error::EmptyShard, r.verify(&shards).unwrap_err());

        let mut option_shards = shards_to_option_shards(&shards);

        assert_eq!(Error::EmptyShard, r.reconstruct(&mut option_shards).unwrap_err());
    }
    {
        let mut option_shards: Vec<Option<Vec<u8>>> = vec![None, None, None, None];

        assert_eq!(Error::TooFewShardsPresent, r.reconstruct(&mut option_shards).unwrap_err());
    }
}

#[test]
fn four_plus_two_recovers_all_supported_missing_combinations() {
    let codec = ReedSolomon::new(4, 2).unwrap();
    let mut encoded = deterministic_shards_u8(65, 4, 0x1452);
    encoded.extend(vec![vec![0; 65]; 2]);
    codec.encode(&mut encoded).unwrap();

    for first_missing in 0..encoded.len() {
        let mut shards = encoded.iter().cloned().map(Some).collect::<Vec<_>>();
        shards[first_missing] = None;
        codec.reconstruct(&mut shards).unwrap();
        assert_eq!(
            shards.iter().map(Option::as_ref).collect::<Vec<_>>(),
            encoded.iter().map(Some).collect::<Vec<_>>(),
            "failed to recover missing shard {first_missing}"
        );

        for second_missing in first_missing + 1..encoded.len() {
            let mut shards = encoded.iter().cloned().map(Some).collect::<Vec<_>>();
            shards[first_missing] = None;
            shards[second_missing] = None;
            codec.reconstruct(&mut shards).unwrap();
            assert_eq!(
                shards.iter().map(Option::as_ref).collect::<Vec<_>>(),
                encoded.iter().map(Some).collect::<Vec<_>>(),
                "failed to recover missing shards {first_missing} and {second_missing}"
            );

            for third_missing in second_missing + 1..encoded.len() {
                let mut shards = encoded.iter().cloned().map(Some).collect::<Vec<_>>();
                shards[first_missing] = None;
                shards[second_missing] = None;
                shards[third_missing] = None;
                assert_eq!(
                    codec.reconstruct(&mut shards).unwrap_err(),
                    Error::TooFewShardsPresent,
                    "unexpected result for missing shards {first_missing}, {second_missing}, {third_missing}"
                );
            }
        }
    }
}

#[test]
fn four_plus_two_verify_detects_present_corruption_without_reconstructing_it() {
    let codec = ReedSolomon::new(4, 2).unwrap();
    let mut encoded = deterministic_shards_u8(65, 4, 0x1452);
    encoded.extend(vec![vec![0; 65]; 2]);
    codec.encode(&mut encoded).unwrap();

    for shard_index in 0..encoded.len() {
        for byte_index in [0, 32, 64] {
            let mut corrupted = encoded.clone();
            corrupted[shard_index][byte_index] ^= 0x80;
            assert!(
                !codec.verify(&corrupted).unwrap(),
                "verify accepted corruption in shard {shard_index} at byte {byte_index}"
            );

            let expected_corrupted = corrupted.clone();
            let mut present_shards = corrupted.into_iter().map(Some).collect::<Vec<_>>();
            codec.reconstruct(&mut present_shards).unwrap();
            assert_eq!(
                present_shards.into_iter().map(Option::unwrap).collect::<Vec<_>>(),
                expected_corrupted,
                "reconstruct unexpectedly changed a present corrupted shard"
            );
        }
    }
}

#[test]
fn test_codec_options_disable_inversion_cache_keeps_reconstruction_correct() {
    let options = CodecOptions { inversion_cache: false, ..CodecOptions::default() };
    let r = ReedSolomon::with_options(4, 2, options).unwrap();

    let mut shards = deterministic_shards_u8(1024, 6, 0x60);
    r.encode(&mut shards).unwrap();

    let original = shards.clone();
    let mut shards = shards_to_option_shards(&shards);
    shards[0] = None;
    shards[4] = None;

    r.reconstruct_data(&mut shards).unwrap();

    let reconstructed = option_shards_to_shards(&shards[0..4]);
    assert_eq!(original[0], reconstructed[0]);
}

#[test]
fn test_cauchy_matrix_mode_roundtrips_and_differs_from_vandermonde() {
    let regular = ReedSolomon::new(4, 2).unwrap();
    let cauchy =
        ReedSolomon::with_options(4, 2, CodecOptions { matrix_mode: MatrixMode::Cauchy, ..CodecOptions::default() })
            .unwrap();

    let mut regular_shards = deterministic_shards_u8(1024, 6, 0x70);
    let mut cauchy_shards = regular_shards.clone();

    regular.encode(&mut regular_shards).unwrap();
    cauchy.encode(&mut cauchy_shards).unwrap();

    assert_ne!(regular_shards[4], cauchy_shards[4]);
    assert!(cauchy.verify(&cauchy_shards).unwrap());

    let original = cauchy_shards.clone();
    let mut option_shards = shards_to_option_shards(&cauchy_shards);
    option_shards[1] = None;
    option_shards[5] = None;
    cauchy.reconstruct(&mut option_shards).unwrap();

    assert_eq!(original, option_shards_to_shards(&option_shards));
}

#[test]
fn test_jerasure_like_matrix_mode_roundtrips_and_differs_from_vandermonde() {
    let regular = ReedSolomon::new(4, 2).unwrap();
    let jerasure = ReedSolomon::with_options(
        4,
        2,
        CodecOptions { matrix_mode: MatrixMode::JerasureLike, ..CodecOptions::default() },
    )
    .unwrap();

    let mut regular_shards = deterministic_shards_u8(1024, 6, 0x80);
    let mut jerasure_shards = regular_shards.clone();

    regular.encode(&mut regular_shards).unwrap();
    jerasure.encode(&mut jerasure_shards).unwrap();

    assert_ne!(regular_shards[4], jerasure_shards[4]);
    assert!(jerasure.verify(&jerasure_shards).unwrap());

    let original = jerasure_shards.clone();
    let mut option_shards = shards_to_option_shards(&jerasure_shards);
    option_shards[0] = None;
    option_shards[4] = None;
    jerasure.reconstruct(&mut option_shards).unwrap();

    assert_eq!(original, option_shards_to_shards(&option_shards));
}

/// The parity rows of the default 3 + 2 codec, read off by encoding unit
/// data shards.
fn classic_parity_rows_3_2() -> Vec<Vec<u8>> {
    let r = ReedSolomon::new(3, 2).unwrap();
    let mut rows = vec![vec![0u8; 3]; 2];
    for c in 0..3 {
        let mut shards = vec![vec![0u8]; 5];
        shards[c][0] = 1;
        r.encode(&mut shards).unwrap();
        rows[0][c] = shards[3][0];
        rows[1][c] = shards[4][0];
    }
    rows
}

#[test]
fn test_with_custom_matrix_roundtrips_and_uses_supplied_rows() {
    let regular = ReedSolomon::new(3, 2).unwrap();
    let custom_rows = classic_parity_rows_3_2();

    let custom = ReedSolomon::with_custom_matrix(3, 2, &custom_rows, CodecOptions::default()).unwrap();

    let mut regular_shards = deterministic_shards_u8(1024, 5, 0x90);
    let mut custom_shards = regular_shards.clone();
    regular.encode(&mut regular_shards).unwrap();
    custom.encode(&mut custom_shards).unwrap();

    assert_eq!(regular_shards, custom_shards);

    let original = custom_shards.clone();
    let mut option_shards = shards_to_option_shards(&custom_shards);
    option_shards[2] = None;
    option_shards[3] = None;
    custom.reconstruct(&mut option_shards).unwrap();
    assert_eq!(original, option_shards_to_shards(&option_shards));
}

#[test]
fn test_with_custom_matrix_rejects_too_few_rows() {
    let rows = vec![vec![1u8, 2, 3]];
    let err = ReedSolomon::with_custom_matrix(3, 2, &rows, CodecOptions::default()).unwrap_err();
    assert_eq!(Error::InvalidCustomMatrix, err);
}

#[test]
fn test_with_custom_matrix_rejects_short_rows() {
    let rows = vec![vec![1u8, 2], vec![3u8, 4]];
    let err = ReedSolomon::with_custom_matrix(3, 2, &rows, CodecOptions::default()).unwrap_err();
    assert_eq!(Error::InvalidCustomMatrix, err);
}

#[test]
fn test_reconstruct_some_recovers_only_required_data_shard() {
    let r = ReedSolomon::new(4, 2).unwrap();
    let mut shards = deterministic_shards_u8(1024, 6, 0xa0);
    r.encode(&mut shards).unwrap();
    let original = shards.clone();

    let mut shards = shards_to_option_shards(&shards);
    shards[1] = None;
    shards[4] = None;

    let mut required = vec![false; 6];
    required[1] = true;

    r.reconstruct_some(&mut shards, &required).unwrap();

    assert_eq!(shards[1].as_ref().unwrap(), &original[1]);
    assert!(shards[4].is_none());
}

#[test]
fn test_reconstruct_some_can_recover_required_parity_shard() {
    let r = ReedSolomon::new(4, 2).unwrap();
    let mut shards = deterministic_shards_u8(1024, 6, 0xa1);
    r.encode(&mut shards).unwrap();
    let original = shards.clone();

    let mut shards = shards_to_option_shards(&shards);
    shards[1] = None;
    shards[4] = None;

    let mut required = vec![false; 6];
    required[1] = true;
    required[4] = true;

    r.reconstruct_some(&mut shards, &required).unwrap();

    assert_eq!(shards[1].as_ref().unwrap(), &original[1]);
    assert_eq!(shards[4].as_ref().unwrap(), &original[4]);
}

#[test]
fn test_reconstruct_some_rejects_invalid_required_flags_length() {
    let r = ReedSolomon::new(4, 2).unwrap();
    let mut shards = deterministic_shards_u8(1024, 6, 0xa2);
    r.encode(&mut shards).unwrap();
    let mut shards = shards_to_option_shards(&shards);

    assert_eq!(Error::InvalidShardFlags, r.reconstruct_some(&mut shards, &[true, false]).unwrap_err());
}

#[test]
fn test_reconstruct_some_recovers_only_requested_among_multiple_missing_data_shards() {
    let r = ReedSolomon::new(4, 2).unwrap();
    let mut shards = deterministic_shards_u8(1024, 6, 0xa3);
    r.encode(&mut shards).unwrap();
    let original = shards.clone();

    let mut shards = shards_to_option_shards(&shards);
    shards[0] = None;
    shards[2] = None;

    let mut required = vec![false; 6];
    required[2] = true;

    r.reconstruct_some(&mut shards, &required).unwrap();

    assert!(shards[0].is_none());
    assert_eq!(shards[2].as_ref().unwrap(), &original[2]);
}

#[test]
fn test_reconstruct_some_allows_required_flag_for_present_shard() {
    let r = ReedSolomon::new(4, 2).unwrap();
    let mut shards = deterministic_shards_u8(1024, 6, 0xa4);
    r.encode(&mut shards).unwrap();
    let original = shards.clone();

    let mut shards = shards_to_option_shards(&shards);
    shards[4] = None;

    let mut required = vec![false; 6];
    required[1] = true;

    r.reconstruct_some(&mut shards, &required).unwrap();

    assert_eq!(shards[1].as_ref().unwrap(), &original[1]);
    assert!(shards[4].is_none());
}

#[test]
fn test_reconstruct_some_accepts_data_shard_required_mask() {
    let r = ReedSolomon::new(5, 3).unwrap();
    let mut shards = deterministic_shards_u8(4096, 8, 0xa5);
    r.encode(&mut shards).unwrap();
    let expected = shards[1].clone();

    let mut missing = shards_to_option_shards(&shards);
    missing[1] = None;
    missing[6] = None;

    let mut required = vec![false; 5];
    required[1] = true;
    r.reconstruct_some(&mut missing, &required).unwrap();

    assert_eq!(Some(&expected), missing[1].as_ref());
    assert!(missing[6].is_none(), "short required mask must not request parity");
}

#[test]
fn reconstruct_some_gives_back_encoded_shards_for_every_mask_of_a_small_code() {
    let r = ReedSolomon::new(3, 2).unwrap();
    let mut encoded = deterministic_shards_u8(17, 5, 0xa6);
    r.encode(&mut encoded).unwrap();
    for missing_a in 0..5 {
        for missing_b in missing_a + 1..5 {
            for mask in 0u32..32 {
                let required: Vec<bool> = (0..5).map(|i| mask & (1 << i) != 0).collect();
                let mut shards = shards_to_option_shards(&encoded);
                shards[missing_a] = None;
                shards[missing_b] = None;
                r.reconstruct_some(&mut shards, &required).unwrap();
                for i in 0..5 {
                    if i == missing_a || i == missing_b {
                        if required[i] {
                            assert_eq!(shards[i].as_ref(), Some(&encoded[i]));
                        } else {
                            assert!(shards[i].is_none());
                        }
                    } else {
                        assert_eq!(shards[i].as_ref(), Some(&encoded[i]));
                    }
                }
            }
        }
    }
}

#[test]
fn test_verify_shards_with_buffer_incorrect_buffer_sizes() {
    let r = ReedSolomon::new(3, 2).unwrap();

    {
        let shards = deterministic_shards_u8(100, 5, 0xb0);
        let mut buffer = vec![vec![0; 100]; 1];
        assert_eq!(Error::TooFewBufferShards, r.verify_with_buffer(&shards, &mut buffer).unwrap_err());
    }
    {
        let shards = deterministic_shards_u8(100, 5, 0xb1);
        let mut buffer = vec![vec![0; 100]; 3];
        assert_eq!(Error::TooManyBufferShards, r.verify_with_buffer(&shards, &mut buffer).unwrap_err());
    }
    {
        let mut shards = deterministic_shards_u8(100, 5, 0xb2);
        r.encode(&mut shards).unwrap();
        let mut buffer = vec![vec![0; 100]; 2];
        assert!(r.verify_with_buffer(&shards, &mut buffer).unwrap());
    }
    {
        let shards = deterministic_shards_u8(100, 5, 0xb3);
        let mut buffer = vec![vec![0; 100]; 2];
        buffer[0] = vec![];
        assert_eq!(Error::EmptyShard, r.verify_with_buffer(&shards, &mut buffer).unwrap_err());
    }
    {
        let shards = deterministic_shards_u8(100, 5, 0xb4);
        let mut buffer = vec![vec![0; 100]; 2];
        buffer[1] = vec![0; 99];
        assert_eq!(Error::IncorrectShardSize, r.verify_with_buffer(&shards, &mut buffer).unwrap_err());
    }
}

#[test]
fn test_verify_shards_with_buffer_gives_correct_parity_shards() {
    let r = ReedSolomon::new(10, 3).unwrap();

    for round in 0..100u64 {
        let mut shards = deterministic_shards_u8(100, 13, 0xc000 + round);
        let shards_copy = shards.clone();

        r.encode(&mut shards).unwrap();

        {
            let mut buffer = deterministic_shards_u8(100, 3, 0xd000 + round);
            assert!(!r.verify_with_buffer(&shards_copy, &mut buffer).unwrap());
            assert_eq!(&shards[10..], &buffer[..]);
        }
        {
            let mut buffer = deterministic_shards_u8(100, 3, 0xe000 + round);
            assert!(r.verify_with_buffer(&shards, &mut buffer).unwrap());
            assert_eq!(&shards[10..], &buffer[..]);
        }
    }
}

#[test]
fn test_verify_with_buffer_gives_correct_parity_shards() {
    let r = ReedSolomon::new(10, 3).unwrap();

    for round in 0..100u64 {
        let mut slices = deterministic_shards_u8(100, 13, 0xf000 + round);
        let slices_copy = slices.clone();

        r.encode(&mut slices).unwrap();

        {
            let mut buffer = deterministic_shards_u8(100, 3, 0x1_0000 + round);
            assert!(!r.verify_with_buffer(&slices_copy, &mut buffer).unwrap());
            for a in 0..3 {
                for b in 0..100 {
                    assert_eq!(slices[10 + a][b], buffer[a][b]);
                }
            }
        }
        {
            let mut buffer = deterministic_shards_u8(100, 3, 0x2_0000 + round);
            assert!(r.verify_with_buffer(&slices, &mut buffer).unwrap());
            for a in 0..3 {
                for b in 0..100 {
                    assert_eq!(slices[10 + a][b], buffer[a][b]);
                }
            }
        }
    }
}

#[test]
fn test_galois_8_encode_opt_matches_encode() {
    let r = ReedSolomon::new(10, 4).unwrap();
    let mut expected = deterministic_shards_u8(256 * 1024, 14, 0x91);
    let mut actual = expected.clone();

    r.encode(&mut expected).unwrap();
    r.encode_opt(&mut actual).unwrap();

    assert_eq!(expected, actual);
}

#[test]
fn test_galois_8_verify_opt_matches_verify() {
    let r = ReedSolomon::new(10, 4).unwrap();
    let mut shards = deterministic_shards_u8(256 * 1024, 14, 0x92);
    r.encode(&mut shards).unwrap();

    let expected = r.verify(&shards).unwrap();
    let actual = r.verify_opt(&shards).unwrap();
    assert_eq!(expected, actual);

    shards[13][31] ^= 0xff;
    let expected = r.verify(&shards).unwrap();
    let actual = r.verify_opt(&shards).unwrap();
    assert_eq!(expected, actual);
}

#[test]
fn test_galois_8_verify_with_buffer_opt_matches_verify_with_buffer() {
    let r = ReedSolomon::new(10, 4).unwrap();
    let mut shards = deterministic_shards_u8(256 * 1024, 14, 0x93);
    r.encode(&mut shards).unwrap();

    let mut expected_buffer = deterministic_shards_u8(256 * 1024, 4, 0x94);
    let mut actual_buffer = expected_buffer.clone();

    let expected = r.verify_with_buffer(&shards, &mut expected_buffer).unwrap();
    let actual = r.verify_with_buffer_opt(&shards, &mut actual_buffer).unwrap();

    assert_eq!(expected, actual);
    assert_eq!(expected_buffer, actual_buffer);
}

#[test]
fn jerasure_like_matrix_is_in_normal_form() {
    // Encoding the unit data shards reads the parity rows off the matrix.
    let r = ReedSolomon::with_options(
        5,
        3,
        CodecOptions { matrix_mode: MatrixMode::JerasureLike, ..CodecOptions::default() },
    )
    .unwrap();
    let mut rows = vec![vec![0u8; 5]; 3];
    for c in 0..5 {
        let mut shards = vec![vec![0u8; 1]; 8];
        shards[c][0] = 1;
        r.encode(&mut shards).unwrap();
        for j in 0..3 {
            rows[j][c] = shards[5 + j][0];
        }
    }
    assert_eq!(rows[0], vec![1u8; 5]);
    assert_eq!(rows[1][0], 1);
    assert_eq!(rows[2][0], 1);
}

fn parity_rows_of(r: &ReedSolomon, data: usize, parity: usize) -> Vec<Vec<u8>> {
    let mut rows = vec![vec![0u8; data]; parity];
    for c in 0..data {
        let mut shards = vec![vec![0u8; 1]; data + parity];
        shards[c][0] = 1;
        r.encode(&mut shards).unwrap();
        for j in 0..parity {
            rows[j][c] = shards[data + j][0];
        }
    }
    rows
}

#[test]
fn jerasure_like_matrix_matches_its_definition() {
    // The start matrix times the inverse of its top square, each lower
    // column divided by its entry in the first parity row, each lower row
    // then divided by its first entry.
    let jerasure = CodecOptions { matrix_mode: MatrixMode::JerasureLike, ..CodecOptions::default() };
    let r = ReedSolomon::with_options(5, 3, jerasure).unwrap();
    assert_eq!(
        parity_rows_of(&r, 5, 3),
        vec![vec![1u8, 1, 1, 1, 1], vec![1u8, 156, 123, 166, 244], vec![1u8, 166, 82, 245, 167]]
    );
    let r = ReedSolomon::with_options(4, 2, jerasure).unwrap();
    assert_eq!(parity_rows_of(&r, 4, 2), vec![vec![1u8, 1, 1, 1], vec![1u8, 70, 143, 200]]);
    let r = ReedSolomon::with_options(2, 2, jerasure).unwrap();
    assert_eq!(parity_rows_of(&r, 2, 2), vec![vec![1u8, 1], vec![1u8, 143]]);
}

#[test]
fn reconstruct_reports_singular_decode_rows() {
    // The parity rows repeat, so the data shards cannot be told apart from
    // the two parity shards alone.
    let rows = vec![vec![1u8, 1], vec![1u8, 1]];
    let r = ReedSolomon::with_custom_matrix(2, 2, &rows, CodecOptions::default()).unwrap();
    let mut shards = deterministic_shards_u8(16, 4, 0x98);
    r.encode(&mut shards).unwrap();
    let mut opt = shards_to_option_shards(&shards);
    opt[0] = None;
    opt[1] = None;
    let before = opt.clone();
    assert_eq!(Error::InvalidCustomMatrix, r.reconstruct(&mut opt).unwrap_err());
    assert_eq!(before, opt);

    // With an invertible pair of rows the same loss is recovered.
    let mut opt = shards_to_option_shards(&shards);
    opt[0] = None;
    opt[2] = None;
    r.reconstruct(&mut opt).unwrap();
    assert_eq!(shards, option_shards_to_shards(&opt));
}

#[test]
fn test_galois_8_encode_opt_matches_encode_for_small_shards() {
    let r = ReedSolomon::new(10, 4).unwrap();
    let mut expected = deterministic_shards_u8(8 * 1024, 14, 0x99);
    let mut actual = expected.clone();

    assert!(!r.parallel_policy(8 * 1024, 4).use_parallel);

    r.encode(&mut expected).unwrap();
    r.encode_opt(&mut actual).unwrap();

    assert_eq!(expected, actual);
}

fn erase_and_reconstruct_every_pattern(r: &ReedSolomon, data: usize, parity: usize, seed: u64) {
    let total = data + parity;
    let mut shards = deterministic_shards_u8(16, total, seed);
    r.encode(&mut shards).unwrap();
    for mask in 0u32..(1u32 << total) {
        if mask.count_ones() as usize > parity {
            continue;
        }
        let mut opt = shards_to_option_shards(&shards);
        for (i, slot) in opt.iter_mut().enumerate() {
            if mask & (1 << i) != 0 {
                *slot = None;
            }
        }
        r.reconstruct(&mut opt).unwrap();
        assert_eq!(shards, option_shards_to_shards(&opt), "erasure mask {:#b}", mask);
    }
}

#[test]
fn vandermonde_code_recovers_every_erasure_it_can() {
    let r = ReedSolomon::new(5, 3).unwrap();
    erase_and_reconstruct_every_pattern(&r, 5, 3, 0xa1);
}

#[test]
fn cauchy_code_recovers_every_erasure_it_can() {
    let r = ReedSolomon::with_options(5, 3, CodecOptions { matrix_mode: MatrixMode::Cauchy, ..CodecOptions::default() })
        .unwrap();
    erase_and_reconstruct_every_pattern(&r, 5, 3, 0xa2);
}

#[test]
fn jerasure_like_code_recovers_every_erasure_it_can() {
    let jerasure = CodecOptions { matrix_mode: MatrixMode::JerasureLike, ..CodecOptions::default() };
    for (data, parity) in [(5usize, 3usize), (1, 4), (4, 1), (3, 5)] {
        let r = ReedSolomon::with_options(data, parity, jerasure).unwrap();
        erase_and_reconstruct_every_pattern(&r, data, parity, 0xa3 + data as u64);
    }
}

#[test]
fn jerasure_like_codec_builds_for_every_shape() {
    let jerasure = CodecOptions { matrix_mode: MatrixMode::JerasureLike, ..CodecOptions::default() };
    for data in 1usize..12 {
        for parity in 1usize..12 {
            assert!(ReedSolomon::with_options(data, parity, jerasure).is_ok());
        }
    }
    assert!(ReedSolomon::with_options(200, 56, jerasure).is_ok());
}

#[test]
fn reconstruct_leaves_shards_alone_on_a_singular_decode_matrix() {
    let rows = vec![vec![0u8], vec![0u8]];
    let r = ReedSolomon::with_custom_matrix(1, 2, &rows, CodecOptions::default()).unwrap();
    let mut opt: Vec<Option<Vec<u8>>> = vec![None, Some(vec![0u8; 4]), Some(vec![0u8; 4])];
    let before = opt.clone();
    assert_eq!(Error::InvalidCustomMatrix, r.reconstruct(&mut opt).unwrap_err());
    assert_eq!(before, opt);
}

#[test]
fn test_fast_one_parity_encode_uses_xor_parity() {
    let fast_rs = ReedSolomon::with_options(4, 1, CodecOptions { fast_one_parity: true, ..CodecOptions::default() }).unwrap();

    let mut shards = deterministic_shards_u8(1024, 5, 0x51);
    let expected_parity = {
        let mut parity = shards[0].clone();
        for shard in &shards[1..4] {
            for (dst, src) in parity.iter_mut().zip(shard.iter()) {
                *dst ^= *src;
            }
        }
        parity
    };

    fast_rs.encode(&mut shards).unwrap();

    assert_eq!(expected_parity, shards[4]);
}

#[test]
fn test_fast_one_parity_verify_matches_default_path() {
    let fast_rs = ReedSolomon::with_options(4, 1, CodecOptions { fast_one_parity: true, ..CodecOptions::default() }).unwrap();

    let mut shards = deterministic_shards_u8(1024, 5, 0x52);
    fast_rs.encode(&mut shards).unwrap();
    assert!(fast_rs.verify(&shards).unwrap());

    shards[4][7] ^= 0xff;
    assert!(!fast_rs.verify(&shards).unwrap());
}

#[test]
fn test_fast_one_parity_flag_does_not_change_multi_parity_behavior() {
    let regular = ReedSolomon::new(4, 2).unwrap();
    let configured = ReedSolomon::with_options(4, 2, CodecOptions { fast_one_parity: true, ..CodecOptions::default() }).unwrap();

    let mut expected = deterministic_shards_u8(512, 6, 0x53);
    let mut actual = expected.clone();

    regular.encode(&mut expected).unwrap();
    configured.encode(&mut actual).unwrap();

    assert_eq!(expected, actual);
}

#[test]
fn fast_one_parity_code_recovers_every_erasure_it_can() {
    let fast = CodecOptions { fast_one_parity: true, ..CodecOptions::default() };
    for data in [1usize, 4, 7] {
        let r = ReedSolomon::with_options(data, 1, fast).unwrap();
        erase_and_reconstruct_every_pattern(&r, data, 1, 0x54 + data as u64);
    }
}

#[test]
fn decode_matrix_is_the_same_with_or_without_the_cache_option() {
    let cached = ReedSolomon::new(6, 3).unwrap();
    let uncached = ReedSolomon::with_options(6, 3, CodecOptions { inversion_cache: false, ..CodecOptions::default() }).unwrap();
    let mut shards = deterministic_shards_u8(64, 9, 0x61);
    cached.encode(&mut shards).unwrap();
    for _ in 0..2 {
        let mut a = shards_to_option_shards(&shards);
        let mut b = shards_to_option_shards(&shards);
        for i in [0usize, 4, 7] {
            a[i] = None;
            b[i] = None;
        }
        cached.reconstruct(&mut a).unwrap();
        uncached.reconstruct(&mut b).unwrap();
        assert_eq!(a, b);
        assert_eq!(shards, option_shards_to_shards(&a));
    }
}
