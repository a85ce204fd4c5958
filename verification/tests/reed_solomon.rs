use rustfs_erasure_codec::codec::parallel::PolicyOverrides;
use rustfs_erasure_codec::galois_8::policy::ReconstructOverrides;
use rustfs_erasure_codec::{CodecFamily, CodecOptions, Error, LeopardMode, MatrixMode, ParallelPolicy, ReedSolomon};

#[test]
fn test_no_data_shards() {
    assert_eq!(Error::TooFewDataShards, ReedSolomon::new(0, 1).unwrap_err());
}

#[test]
fn test_no_parity_shards() {
    assert_eq!(Error::TooFewParityShards, ReedSolomon::new(1, 0).unwrap_err());
}

#[test]
fn test_too_many_shards() {
    assert_eq!(Error::TooManyShards, ReedSolomon::new(129, 128).unwrap_err());
}

#[test]
fn test_shard_count_addition_overflow() {
    assert_eq!(Error::TooManyShards, ReedSolomon::new(usize::MAX, 2).unwrap_err());
    assert_eq!(Error::TooManyShards, ReedSolomon::new(2, usize::MAX).unwrap_err());
}

#[test]
fn test_shard_count() {
    for &(data_shard_count, parity_shard_count) in &[(1usize, 1usize), (3, 2), (10, 4), (17, 100), (127, 127), (64, 1)] {
        let total_shard_count = data_shard_count + parity_shard_count;
        let r = ReedSolomon::new(data_shard_count, parity_shard_count).unwrap();
        assert_eq!(data_shard_count, r.data_shard_count());
        assert_eq!(parity_shard_count, r.parity_shard_count());
        assert_eq!(total_shard_count, r.total_shard_count());
    }
}

#[test]
fn test_codec_options_default_matches_new() {
    let r1 = ReedSolomon::new(10, 3).unwrap();
    let r2 = ReedSolomon::with_options(10, 3, CodecOptions::default()).unwrap();
    assert_eq!(r1, r2);
    assert_eq!(r1.data_shard_count(), r2.data_shard_count());
    assert_eq!(r1.parity_shard_count(), r2.parity_shard_count());
    assert_eq!(r1.total_shard_count(), r2.total_shard_count());
    assert_eq!(CodecFamily::Classic, r1.codec_family());
    assert_eq!(CodecFamily::Classic, r2.codec_family());
}

#[test]
fn test_codec_options_accepts_explicit_classic_family() {
    let r = ReedSolomon::with_options(10, 3, CodecOptions { codec_family: CodecFamily::Classic, ..CodecOptions::default() })
        .unwrap();
    assert_eq!(CodecFamily::Classic, r.codec_family());
}

#[test]
fn test_leopard_gf16_codec_creation() {
    // The configuration passes every Leopard check, and is refused because
    // this library has no Leopard engine.
    let codec = ReedSolomon::with_options(
        32,
        16,
        CodecOptions { codec_family: CodecFamily::LeopardGF16, ..CodecOptions::default() },
    );
    assert_eq!(Error::UnsupportedCodecFamily, codec.unwrap_err());
}

#[test]
fn test_leopard_gf8_shard_combo_matches_leopard_bounds() {
    for (data, parity, should_construct) in
        [(200, 32, true), (200, 33, false), (100, 156, false), (128, 128, true), (127, 129, false)]
    {
        let result = ReedSolomon::with_options(
            data,
            parity,
            CodecOptions { codec_family: CodecFamily::LeopardGF8, ..CodecOptions::default() },
        );
        if should_construct {
            assert_eq!(Error::UnsupportedCodecFamily, result.unwrap_err(), "LeopardGF8 {data},{parity} passes the bounds");
        } else {
            assert_eq!(Error::TooManyShards, result.unwrap_err(), "LeopardGF8 {data},{parity} should be rejected");
        }
    }
}

#[test]
fn test_leopard_gf16_shard_combo_matches_leopard_bounds() {
    for (data, parity, should_construct) in
        [(65024, 300, true), (65100, 300, false), (32768, 32768, true), (32767, 32769, false), (300, 33, true)]
    {
        let result = ReedSolomon::with_options(
            data,
            parity,
            CodecOptions { codec_family: CodecFamily::LeopardGF16, ..CodecOptions::default() },
        );
        if should_construct {
            assert_eq!(Error::UnsupportedCodecFamily, result.unwrap_err(), "LeopardGF16 {data},{parity} passes the bounds");
        } else {
            assert_eq!(Error::TooManyShards, result.unwrap_err(), "LeopardGF16 {data},{parity} should be rejected");
        }
    }
}

#[test]
fn test_codec_options_zero_cache_capacity_falls_back_to_default() {
    let options = CodecOptions { inversion_cache_capacity: 0, ..CodecOptions::default() };
    let r = ReedSolomon::with_options(10, 3, options).unwrap();
    assert_eq!(10, r.data_shard_count());
    assert_eq!(3, r.parity_shard_count());
    assert_eq!(ReedSolomon::recommended_inversion_cache_capacity(10, 3), r.inversion_cache_capacity());
}

#[test]
fn test_recommended_inversion_cache_capacity_scales_with_workload() {
    let small = ReedSolomon::recommended_inversion_cache_capacity(4, 2);
    let medium = ReedSolomon::recommended_inversion_cache_capacity(10, 4);
    let large = ReedSolomon::recommended_inversion_cache_capacity(32, 16);
    assert_eq!(128, small);
    assert_eq!(128, medium);
    assert_eq!(2048, large);
    assert!(small <= medium);
    assert!(medium < large);
}

#[test]
fn test_codec_options_explicit_cache_capacity_is_preserved() {
    let options = CodecOptions { inversion_cache_capacity: 7, ..CodecOptions::default() };
    let r = ReedSolomon::with_options(10, 3, options).unwrap();
    assert_eq!(7, r.inversion_cache_capacity());
}

#[test]
fn test_codec_options_custom_matrix_without_payload_errors() {
    let options = CodecOptions { matrix_mode: MatrixMode::Custom, ..CodecOptions::default() };
    assert_eq!(Error::InvalidCustomMatrix, ReedSolomon::with_options(3, 2, options).unwrap_err());
}

#[test]
fn test_codec_options_accepts_cauchy_matrix_mode() {
    let options = CodecOptions { matrix_mode: MatrixMode::Cauchy, ..CodecOptions::default() };
    let r = ReedSolomon::with_options(3, 2, options).unwrap();
    assert_eq!(3, r.data_shard_count());
    assert_eq!(2, r.parity_shard_count());
}

#[test]
fn auto_as_needed_resolves_family_by_total() {
    let small = ReedSolomon::with_options(4, 2, CodecOptions { leopard_mode: LeopardMode::AsNeeded, ..CodecOptions::default() })
        .unwrap();
    assert_eq!(small.codec_family(), CodecFamily::Classic);
    let big = ReedSolomon::with_options(254, 3, CodecOptions { leopard_mode: LeopardMode::AsNeeded, ..CodecOptions::default() });
    assert_eq!(Error::UnsupportedCodecFamily, big.unwrap_err());
}

#[test]
fn test_auto_prefer_gf16_and_prefer_leopard() {
    // The modes resolve to a Leopard family (see the resolution tests), which
    // is refused.
    for (data, parity, mode) in [(4usize, 2usize, LeopardMode::PreferGF16), (6, 2, LeopardMode::PreferLeopard), (300, 4, LeopardMode::PreferLeopard)] {
        let r = ReedSolomon::with_options(data, parity, CodecOptions { leopard_mode: mode, ..CodecOptions::default() });
        assert_eq!(Error::UnsupportedCodecFamily, r.unwrap_err());
    }
}

#[test]
fn test_auto_above_gf16_cap_is_too_many_shards() {
    let err = ReedSolomon::with_options(65533, 4, CodecOptions { leopard_mode: LeopardMode::AsNeeded, ..CodecOptions::default() })
        .unwrap_err();
    assert_eq!(Error::TooManyShards, err);
}

#[test]
fn explicit_leopard_gf16_above_256_total_passes_the_checks() {
    for (data, parity) in [(254usize, 4usize), (2, 257)] {
        let r = ReedSolomon::with_options(data, parity, CodecOptions { codec_family: CodecFamily::LeopardGF16, ..CodecOptions::default() });
        assert_eq!(Error::UnsupportedCodecFamily, r.unwrap_err());
    }
}

#[test]
fn leopard_setup_matrix_shape_only_for_gf8() {
    assert_eq!(None, ReedSolomon::new(4, 2).unwrap().leopard_setup_matrix_shape());
}

#[test]
fn split_pads_the_last_shard_and_join_restores_the_buffer() {
    let r = ReedSolomon::new(4, 2).unwrap();
    let data: Vec<u8> = (1..=10).collect();
    let shards = r.split(&data).unwrap();
    assert_eq!(shards, vec![vec![1, 2, 3], vec![4, 5, 6], vec![7, 8, 9], vec![10, 0, 0]]);
    assert_eq!(r.join(&shards, 10).unwrap(), data);
    assert_eq!(r.join(&shards, 100).unwrap().len(), 12);
    assert_eq!(r.join(&shards, 4).unwrap(), vec![1, 2, 3, 4]);
    let empty = r.split(&[]).unwrap();
    assert_eq!(empty, vec![Vec::<u8>::new(); 4]);
}

#[test]
fn join_rejects_wrong_shard_sets() {
    let r = ReedSolomon::new(3, 2).unwrap();
    assert_eq!(r.join(&[vec![1u8], vec![2]], 2), Err(Error::TooFewDataShards));
    assert_eq!(r.join(&[vec![1u8], vec![2], vec![3], vec![4]], 2), Err(Error::TooManyDataShards));
    assert_eq!(r.join(&[vec![], vec![2u8], vec![3]], 2), Err(Error::EmptyShard));
    assert_eq!(r.join(&[vec![1u8], vec![2, 2], vec![3]], 2), Err(Error::IncorrectShardSize));
}

#[test]
fn policy_cache_applies_overrides_and_job_cap() {
    let env = PolicyOverrides { min_parallel_shard_bytes: Some(0), min_bytes_per_job: Some(4096), max_jobs: Some(3), l2_cache_bytes: None };
    let options = CodecOptions { max_parallel_jobs: 5, ..CodecOptions::default() };
    let cache = ReedSolomon::resolve_policy_cache_with_options(options, env, ReconstructOverrides { data_min_parallel_shard_bytes: None, full_min_parallel_shard_bytes: None, min_bytes_per_job: None }, 8);
    let default = ParallelPolicy::default();
    assert_eq!(cache.available_parallelism, 8);
    assert_eq!(cache.data.min_parallel_shard_bytes, default.min_parallel_shard_bytes);
    assert_eq!(cache.data.min_bytes_per_job, 4096);
    assert_eq!(cache.data.max_jobs, 5);
    assert_eq!(cache.data.l2_cache_bytes, default.l2_cache_bytes);
}

#[test]
fn test_split_evenly_distributes_and_zero_pads() {
    let r = ReedSolomon::new(3, 2).unwrap();
    let shards = r.split(&[1u8, 2, 3, 4, 5]).unwrap();

    assert_eq!(shards.len(), 3);
    assert_eq!(shards[0], vec![1, 2]);
    assert_eq!(shards[1], vec![3, 4]);
    assert_eq!(shards[2], vec![5, 0]);
}

#[test]
fn test_split_empty_input_returns_empty_data_shards() {
    let r = ReedSolomon::new(3, 2).unwrap();
    let shards = r.split(&[] as &[u8]).unwrap();

    assert_eq!(shards.len(), 3);
    assert!(shards.iter().all(|shard| shard.is_empty()));
}

#[test]
fn test_join_truncates_padding_to_original_length() {
    let r = ReedSolomon::new(3, 2).unwrap();
    let shards = vec![vec![1u8, 2], vec![3u8, 4], vec![5u8, 0]];

    let joined = r.join(&shards, 5).unwrap();

    assert_eq!(joined, vec![1, 2, 3, 4, 5]);
}

#[test]
fn test_join_uses_only_data_shards() {
    let r = ReedSolomon::new(2, 1).unwrap();
    let joined = r.join(&[vec![1u8, 2], vec![3u8, 4]], 4).unwrap();

    assert_eq!(joined, vec![1, 2, 3, 4]);
}

#[test]
fn test_code_chunk_len_small_shards_use_single_chunk() {
    let r = ReedSolomon::new(4, 2).unwrap();

    assert_eq!(8 * 1024, r.code_chunk_len(8 * 1024));
    assert_eq!(16 * 1024, r.code_chunk_len(16 * 1024));
}

#[test]
fn test_code_chunk_len_medium_shards_use_min_chunk() {
    let r = ReedSolomon::new(4, 2).unwrap();

    assert_eq!(16 * 1024, r.code_chunk_len(32 * 1024));
    assert_eq!(16 * 1024, r.code_chunk_len(64 * 1024));
}

#[test]
fn test_code_chunk_len_large_shards_use_default_chunk() {
    let r = ReedSolomon::new(4, 2).unwrap();

    assert_eq!(64 * 1024, r.code_chunk_len(512 * 1024));
    assert_eq!(64 * 1024, r.code_chunk_len(4 * 1024 * 1024));
}

#[test]
fn test_code_chunk_len_very_large_shards_use_large_chunk() {
    let r = ReedSolomon::new(4, 2).unwrap();

    assert_eq!(256 * 1024, r.code_chunk_len(8 * 1024 * 1024));
}

#[test]
fn test_code_chunk_len_parameterized_boundaries() {
    let r = ReedSolomon::new(4, 2).unwrap();
    let cases = [
        (1usize, 1usize),
        (16 * 1024, 16 * 1024),
        (16 * 1024 + 1, 16 * 1024),
        (64 * 1024, 16 * 1024),
        (64 * 1024 + 1, 64 * 1024),
        (4 * 1024 * 1024, 64 * 1024),
        (4 * 1024 * 1024 + 1, 256 * 1024),
        (8 * 1024 * 1024, 256 * 1024),
        (64 * 1024 * 1024, 256 * 1024),
    ];

    for (shard_len, expected_chunk) in cases {
        assert_eq!(expected_chunk, r.code_chunk_len(shard_len));
    }
}

#[test]
fn test_leopard_custom_matrix_path_is_rejected_for_now() {
    let rows = vec![vec![1u8, 1, 1], vec![1u8, 2, 4]];
    let err = ReedSolomon::with_custom_matrix(
        3,
        2,
        &rows,
        CodecOptions { codec_family: CodecFamily::LeopardGF8, ..CodecOptions::default() },
    )
    .unwrap_err();

    assert_eq!(Error::UnsupportedCodecFamily, err);
}

#[test]
fn test_reed_solomon_parallel_policy_uses_available_parallelism() {
    let r = ReedSolomon::new(10, 4).unwrap();
    let serial = r.parallel_policy_with(1024 * 1024, 4, 1);
    let parallel = r.parallel_policy_with(1024 * 1024, 4, 8);

    assert!(!serial.use_parallel);
    assert!(parallel.use_parallel);
    assert!(parallel.jobs > serial.jobs);
}

#[test]
fn test_reconstruct_parallel_policy_has_data_only_and_full_tiers() {
    let r = ReedSolomon::new(10, 4).unwrap();
    let shard_len = 300 * 1024;
    let data_only = r.reconstruct_parallel_decision_with(shard_len, 2, 2, true, 8);
    let full = r.reconstruct_parallel_decision_with(shard_len, 2, 4, false, 8);

    let _ = data_only;
    assert!(full.use_parallel);
}

#[test]
fn test_parallel_policy_creates_multiple_chunks_for_small_output_reconstruct_case() {
    let r = ReedSolomon::new(10, 4).unwrap();
    let decision = r.parallel_policy_with(1024 * 1024, 2, 8);

    assert!(decision.use_parallel);
    assert!(decision.jobs >= 2, "expected multiple jobs, got {}", decision.jobs);
    assert!(decision.jobs <= 8, "jobs should not exceed available_parallelism, got {}", decision.jobs);
    assert!(decision.chunk_len >= 16384, "chunk_len too small: {}", decision.chunk_len);
    assert!(decision.chunk_len <= 1024 * 1024, "chunk_len too large: {}", decision.chunk_len);
}

#[test]
fn parallel_policy_accessors_follow_the_installed_policies() {
    let base = ReedSolomon::new(10, 4).unwrap();
    assert_eq!(rustfs_erasure_codec::PARALLEL_POLICY_VERSION, base.parallel_policy_version());
    let data = ParallelPolicy { min_parallel_shard_bytes: 1024, min_bytes_per_job: 1024, max_jobs: 4, l2_cache_bytes: 0 };
    let cache = rustfs_erasure_codec::RuntimeParallelPolicyCache::new(data, 4);
    let r = base.with_runtime_policy(cache);
    assert_eq!(data, r.effective_parallel_policy());
    assert_eq!(r.parallel_policy(64 * 1024, 4), r.parallel_policy_with(64 * 1024, 4, 4));
    assert_eq!(r.parallel_policy(64 * 1024, 4), data.decide(64 * 1024, 10, 4, 4));
    let (d, p) = r.reconstruct_stage_policies_for_bench(false);
    assert_eq!((d, p), (data, data));
    let (decision, d2, p2) = r.reconstruct_execution_context_for_bench(64 * 1024, 2, 3, false, 4);
    assert_eq!(decision, data.decide(64 * 1024, 10, 3, 4));
    assert_eq!((d2, p2), (data, data));
}
