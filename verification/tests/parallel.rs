use rustfs_erasure_codec::codec::cache_size::parse_cache_size;
use rustfs_erasure_codec::{ParallelDecision, ParallelPolicy};

#[test]
fn test_default_policy_has_l2_cache() {
    let policy = ParallelPolicy::default();
    assert!(policy.l2_cache_bytes > 0, "L2 cache should be detected or defaulted");
}

#[test]
fn test_cache_aware_increases_chunk_count() {
    let policy = ParallelPolicy { l2_cache_bytes: 64 * 1024, ..Default::default() };
    let decision = policy.decide(1024 * 1024, 10, 4, 8);
    assert!(decision.jobs > 1, "should parallelize with small cache");
}

#[test]
fn test_l2_cache_zero_disables_cache_aware() {
    let policy = ParallelPolicy { l2_cache_bytes: 0, ..Default::default() };
    let decision = policy.decide(1024 * 1024, 10, 4, 8);
    assert!(decision.jobs >= 1);
}

#[test]
fn test_with_l2_cache_bytes_builder() {
    let policy = ParallelPolicy::default().with_l2_cache_bytes(512 * 1024);
    assert_eq!(policy.l2_cache_bytes, 512 * 1024);
}

#[test]
fn test_cache_aware_small_shard_no_effect() {
    let policy = ParallelPolicy { l2_cache_bytes: 256 * 1024, ..Default::default() };
    let decision = policy.decide(1024, 10, 4, 8);
    assert!(!decision.use_parallel);
}

#[test]
fn test_parallel_policy_keeps_small_shards_serial() {
    let policy = ParallelPolicy::default();
    assert_eq!(
        ParallelDecision { use_parallel: false, jobs: 1, chunk_len: 16 * 1024 },
        policy.decide(16 * 1024, 10, 4, 8)
    );
}

#[test]
fn test_parallel_policy_enables_large_shards_with_multiple_jobs() {
    let policy = ParallelPolicy::default();
    let decision = policy.decide(1024 * 1024, 10, 4, 8);
    assert!(decision.use_parallel);
    assert!(decision.jobs > 1);
    assert!(decision.chunk_len >= 16 * 1024);
    assert!(decision.chunk_len <= 256 * 1024);
}

#[test]
fn cache_size_text_is_parsed_with_its_suffix() {
    assert_eq!(Some(1024 * 1024), parse_cache_size("1024K"));
    assert_eq!(Some(2 * 1024 * 1024), parse_cache_size("2M"));
    assert_eq!(Some(512), parse_cache_size("512"));
    assert_eq!(Some(8 * 1024), parse_cache_size("+8K"));
    assert_eq!(None, parse_cache_size("0K"));
    assert_eq!(None, parse_cache_size(""));
    assert_eq!(None, parse_cache_size("K"));
    assert_eq!(None, parse_cache_size("+"));
    assert_eq!(None, parse_cache_size("12KB"));
    assert_eq!(None, parse_cache_size("-1"));
    assert_eq!(None, parse_cache_size("1 K"));
    assert_eq!(None, parse_cache_size("99999999999999999999999"));
    assert_eq!(None, parse_cache_size(&format!("{}M", usize::MAX / 1024)));
}

#[test]
fn cache_aware_chunks_fit_the_working_set_in_l2() {
    let policy = ParallelPolicy { min_parallel_shard_bytes: 1024, min_bytes_per_job: 65536, max_jobs: 0, l2_cache_bytes: 65536 };
    let d = policy.decide(65536, 6, 2, 2);
    assert_eq!(ParallelDecision { use_parallel: true, jobs: 2, chunk_len: 8192 }, d);
    assert!(d.chunk_len * (6 + 2) <= policy.l2_cache_bytes);
    let no_cache = ParallelPolicy { l2_cache_bytes: 0, ..policy };
    assert!(!no_cache.decide(65536, 6, 2, 2).use_parallel);
}
