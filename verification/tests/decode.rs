use rustfs_erasure_codec::{CodecFamily, CodecOptions, Error, LeopardMode, ReedSolomon};

fn qc_mix(seed: &mut u64) -> u64 {
    *seed = seed.wrapping_add(0x9e37_79b9_7f4a_7c15);
    let mut z = *seed;
    z = (z ^ (z >> 30)).wrapping_mul(0xbf58_476d_1ce4_e5b9);
    z = (z ^ (z >> 27)).wrapping_mul(0x94d0_49bb_1331_11eb);
    z ^ (z >> 31)
}

fn deterministic_shards_u8(per_shard: usize, size: usize, seed: u64) -> Vec<Vec<u8>> {
    let mut seed = seed;
    let mut shards = Vec::with_capacity(size);
    for _ in 0..size {
        let mut shard = vec![0; per_shard];
        for byte in &mut shard {
            *byte = qc_mix(&mut seed) as u8;
        }
        shards.push(shard);
    }
    shards
}

fn shards_to_option_shards(shards: &[Vec<u8>]) -> Vec<Option<Vec<u8>>> {
    shards.iter().cloned().map(Some).collect()
}

#[test]
fn test_galois_8_decode_idx_progressive_matches_reconstruct_some() {
    let r = ReedSolomon::new(5, 3).unwrap();
    let mut shards = deterministic_shards_u8(256 * 1024, 8, 0x51);
    r.encode(&mut shards).unwrap();

    let mut expected = shards_to_option_shards(&shards);
    expected[1] = None;
    expected[4] = None;
    let mut required = vec![false; 8];
    required[1] = true;
    required[4] = true;
    r.reconstruct_some(&mut expected, &required).unwrap();

    let mut dst = vec![None; 8];
    dst[1] = Some(vec![0u8; shards[0].len()]);
    dst[4] = Some(vec![0u8; shards[0].len()]);

    let expect_input = vec![true, false, true, true, false, true, true, false];

    let mut first_input = vec![None; 8];
    first_input[0] = Some(shards[0].clone());
    first_input[2] = Some(shards[2].clone());
    r.decode_idx(&mut dst, Some(&expect_input), &first_input).unwrap();

    let mut second_input = vec![None; 8];
    second_input[3] = Some(shards[3].clone());
    second_input[5] = Some(shards[5].clone());
    second_input[6] = Some(shards[6].clone());
    r.decode_idx(&mut dst, Some(&expect_input), &second_input).unwrap();

    assert_eq!(expected[1], dst[1]);
    assert_eq!(expected[4], dst[4]);
}

#[test]
fn test_galois_8_decode_idx_merge_mode_accumulates_partial_results() {
    let r = ReedSolomon::new(5, 3).unwrap();
    let mut shards = deterministic_shards_u8(128 * 1024, 8, 0x52);
    r.encode(&mut shards).unwrap();

    let expect_input = vec![true, false, true, true, false, true, true, false];

    let mut partial_a = vec![None; 8];
    partial_a[1] = Some(vec![0u8; shards[0].len()]);
    partial_a[4] = Some(vec![0u8; shards[0].len()]);
    let mut input_a = vec![None; 8];
    input_a[0] = Some(shards[0].clone());
    input_a[2] = Some(shards[2].clone());
    r.decode_idx(&mut partial_a, Some(&expect_input), &input_a).unwrap();

    let mut partial_b = vec![None; 8];
    partial_b[1] = Some(vec![0u8; shards[0].len()]);
    partial_b[4] = Some(vec![0u8; shards[0].len()]);
    let mut input_b = vec![None; 8];
    input_b[3] = Some(shards[3].clone());
    input_b[5] = Some(shards[5].clone());
    input_b[6] = Some(shards[6].clone());
    r.decode_idx(&mut partial_b, Some(&expect_input), &input_b).unwrap();

    r.decode_idx(&mut partial_a, None, &partial_b).unwrap();

    let mut expected = shards_to_option_shards(&shards);
    expected[1] = None;
    expected[4] = None;
    let mut required = vec![false; 8];
    required[1] = true;
    required[4] = true;
    r.reconstruct_some(&mut expected, &required).unwrap();

    assert_eq!(expected[1], partial_a[1]);
    assert_eq!(expected[4], partial_a[4]);
}

#[test]
fn test_galois_8_decode_idx_rejects_invalid_expect_input_length() {
    let r = ReedSolomon::new(5, 3).unwrap();
    let mut dst = vec![None; 8];
    let input = vec![None; 8];

    assert_eq!(
        Error::InvalidShardFlags,
        r.decode_idx(&mut dst, Some(&[true, false]), &input).unwrap_err()
    );
}

#[test]
fn test_galois_8_decode_idx_rejects_incorrect_dst_len() {
    let r = ReedSolomon::new(5, 3).unwrap();
    let mut dst = vec![None; 7];
    let input = vec![None; 8];
    let expect_input = vec![true; 8];

    assert_eq!(
        Error::TooFewShards,
        r.decode_idx(&mut dst, Some(&expect_input), &input).unwrap_err()
    );
}

#[test]
fn test_galois_8_decode_idx_rejects_incorrect_input_len() {
    let r = ReedSolomon::new(5, 3).unwrap();
    let mut dst = vec![None; 8];
    let input = vec![None; 7];
    let expect_input = vec![true; 8];

    assert_eq!(
        Error::TooFewShards,
        r.decode_idx(&mut dst, Some(&expect_input), &input).unwrap_err()
    );
}

#[test]
fn test_galois_8_decode_idx_rejects_leopard_families() {
    // No codec of a Leopard family is built, so decode_idx never sees one.
    let gf8 = ReedSolomon::with_options(
        32,
        16,
        CodecOptions { codec_family: CodecFamily::LeopardGF8, ..CodecOptions::default() },
    );
    assert_eq!(Error::UnsupportedCodecFamily, gf8.unwrap_err());
    let gf16 = ReedSolomon::with_options(
        254,
        3,
        CodecOptions { leopard_mode: LeopardMode::AsNeeded, ..CodecOptions::default() },
    );
    assert_eq!(Error::UnsupportedCodecFamily, gf16.unwrap_err());
}

#[test]
fn test_galois_8_decode_idx_rejects_shard_size_mismatch() {
    let r = ReedSolomon::new(5, 3).unwrap();
    let mut dst = vec![None; 8];
    dst[1] = Some(vec![0u8; 16]);
    let mut input = vec![None; 8];
    input[0] = Some(vec![1u8; 8]);
    let expect_input = vec![true, false, true, true, false, true, true, false];

    assert_eq!(
        Error::IncorrectShardSize,
        r.decode_idx(&mut dst, Some(&expect_input), &input).unwrap_err()
    );
}

#[test]
fn test_galois_8_decode_idx_merge_mode_rejects_missing_dst_target() {
    let r = ReedSolomon::new(5, 3).unwrap();
    let mut dst = vec![None; 8];
    let mut input = vec![None; 8];
    input[1] = Some(vec![1u8; 8]);

    assert_eq!(Error::TooFewShards, r.decode_idx(&mut dst, None, &input).unwrap_err());
}

#[test]
fn test_galois_8_decode_idx_rejects_too_few_expected_inputs() {
    let r = ReedSolomon::new(5, 3).unwrap();
    let mut dst = vec![None; 8];
    dst[1] = Some(vec![0u8; 8]);
    let input = vec![None; 8];
    let expect_input = vec![true, false, true, false, false, false, false, false];

    assert_eq!(
        Error::TooFewShardsPresent,
        r.decode_idx(&mut dst, Some(&expect_input), &input).unwrap_err()
    );
}

// Own tests.

#[test]
fn decode_idx_single_call_with_all_expected_inputs_restores_parity() {
    let r = ReedSolomon::new(3, 2).unwrap();
    let mut shards = deterministic_shards_u8(64, 5, 0x77);
    r.encode(&mut shards).unwrap();
    let expect_input = vec![true, true, false, false, true];
    let mut dst = vec![None; 5];
    dst[3] = Some(vec![0u8; 64]);
    dst[2] = Some(vec![0u8; 64]);
    let mut input = vec![None; 5];
    input[0] = Some(shards[0].clone());
    input[1] = Some(shards[1].clone());
    input[4] = Some(shards[4].clone());
    r.decode_idx(&mut dst, Some(&expect_input), &input).unwrap();
    assert_eq!(dst[2], Some(shards[2].clone()));
    assert_eq!(dst[3], Some(shards[3].clone()));
    assert_eq!(dst[0], None);
}

#[test]
fn decode_idx_without_destinations_leaves_them_untouched() {
    let r = ReedSolomon::new(3, 2).unwrap();
    let mut dst: Vec<Option<Vec<u8>>> = vec![None; 5];
    let mut input = vec![None; 5];
    input[0] = Some(vec![7u8; 4]);
    let expect_input = vec![true, true, true, false, false];
    assert_eq!(Ok(()), r.decode_idx(&mut dst, Some(&expect_input), &input));
    assert!(dst.iter().all(|d| d.is_none()));
}

#[test]
fn decode_idx_rejects_more_expected_inputs_than_data_shards() {
    let r = ReedSolomon::new(3, 2).unwrap();
    let mut dst = vec![None; 5];
    dst[4] = Some(vec![0u8; 4]);
    let mut input = vec![None; 5];
    input[0] = Some(vec![1u8; 4]);
    let expect_input = vec![true; 5];
    assert_eq!(
        Error::TooFewShardsPresent,
        r.decode_idx(&mut dst, Some(&expect_input), &input).unwrap_err()
    );
    assert_eq!(dst[4], Some(vec![0u8; 4]));
}

#[test]
fn decode_idx_merge_mode_xors_inputs_into_destinations() {
    let r = ReedSolomon::new(3, 2).unwrap();
    let mut dst = vec![None; 5];
    dst[0] = Some(vec![0x0f, 0xf0]);
    dst[2] = Some(vec![1, 2]);
    let mut input = vec![None; 5];
    input[0] = Some(vec![0xff, 0xff]);
    r.decode_idx(&mut dst, None, &input).unwrap();
    assert_eq!(dst[0], Some(vec![0xf0, 0x0f]));
    assert_eq!(dst[2], Some(vec![1, 2]));
}

#[test]
fn decode_idx_merge_mode_rejects_length_mismatch() {
    let r = ReedSolomon::new(3, 2).unwrap();
    let mut dst = vec![None; 5];
    dst[1] = Some(vec![0u8; 3]);
    let mut input = vec![None; 5];
    input[1] = Some(vec![1u8; 2]);
    assert_eq!(Error::IncorrectShardSize, r.decode_idx(&mut dst, None, &input).unwrap_err());
}
