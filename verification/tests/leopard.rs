use rustfs_erasure_codec::codec::leopard::{
    LEOPARD_SHARD_MULTIPLE, leopard_aligned_shard_len, max_total_shards_for_family,
    resolve_codec_family, validate_leopard_shard_len,
};
use rustfs_erasure_codec::galois_16::GF16_ORDER;
use rustfs_erasure_codec::galois_8::GF8_ORDER;
use rustfs_erasure_codec::{CodecFamily, LeopardMode};

#[test]
fn zero_data_len_clamps_to_multiple() {
    let len = leopard_aligned_shard_len(0, 4);
    assert_eq!(len, LEOPARD_SHARD_MULTIPLE);
    assert!(validate_leopard_shard_len(len).is_ok());
}

#[test]
fn non_multiple_payload_rounds_up() {
    let len = leopard_aligned_shard_len(100, 4);
    assert_eq!(len, 64);
    let len2 = leopard_aligned_shard_len(65 * 4, 4);
    assert_eq!(len2, 128);
    assert!(len % LEOPARD_SHARD_MULTIPLE == 0);
    assert!(validate_leopard_shard_len(len).is_ok());
    assert!(validate_leopard_shard_len(len2).is_ok());
}

#[test]
fn zero_shards_treated_as_one() {
    let len = leopard_aligned_shard_len(200, 0);
    assert_eq!(len, 256);
    assert!(validate_leopard_shard_len(len).is_ok());
}

#[test]
fn near_usize_max_saturates_to_valid_multiple() {
    let len = leopard_aligned_shard_len(usize::MAX, 1);
    assert_ne!(len, 0);
    assert!(len % LEOPARD_SHARD_MULTIPLE == 0);
    assert!(validate_leopard_shard_len(len).is_ok());
    assert_eq!(len, usize::MAX - (usize::MAX % LEOPARD_SHARD_MULTIPLE));
}

fn resolve(mode: LeopardMode, total: usize, parity: usize) -> CodecFamily {
    resolve_codec_family(CodecFamily::Classic, mode, true, total, parity)
}

#[test]
fn disabled_is_always_classic() {
    for &(total, parity) in &[(2usize, 1usize), (256, 1), (257, 1), (65536, 4)] {
        assert_eq!(resolve(LeopardMode::Disabled, total, parity), CodecFamily::Classic);
    }
}

#[test]
fn as_needed_switches_to_gf16_past_256() {
    assert_eq!(resolve(LeopardMode::AsNeeded, 2, 1), CodecFamily::Classic);
    assert_eq!(resolve(LeopardMode::AsNeeded, 256, 1), CodecFamily::Classic);
    assert_eq!(resolve(LeopardMode::AsNeeded, 257, 1), CodecFamily::LeopardGF16);
    assert_eq!(resolve(LeopardMode::AsNeeded, 65536, 4), CodecFamily::LeopardGF16);
}

#[test]
fn prefer_gf16_is_always_gf16() {
    assert_eq!(resolve(LeopardMode::PreferGF16, 2, 1), CodecFamily::LeopardGF16);
    assert_eq!(resolve(LeopardMode::PreferGF16, 256, 1), CodecFamily::LeopardGF16);
    assert_eq!(resolve(LeopardMode::PreferGF16, 65536, 4), CodecFamily::LeopardGF16);
}

#[test]
fn prefer_leopard_uses_gf8_only_when_small_and_low_parity() {
    assert_eq!(resolve(LeopardMode::PreferLeopard, 256, 128), CodecFamily::LeopardGF8);
    assert_eq!(resolve(LeopardMode::PreferLeopard, 6, 2), CodecFamily::LeopardGF8);
    assert_eq!(resolve(LeopardMode::PreferLeopard, 256, 129), CodecFamily::LeopardGF16);
    assert_eq!(resolve(LeopardMode::PreferLeopard, 257, 1), CodecFamily::LeopardGF16);
}

#[test]
fn explicit_family_is_never_rewritten() {
    for mode in [LeopardMode::AsNeeded, LeopardMode::PreferGF16, LeopardMode::PreferLeopard] {
        assert_eq!(
            resolve_codec_family(CodecFamily::LeopardGF8, mode, true, 10, 2),
            CodecFamily::LeopardGF8
        );
        assert_eq!(
            resolve_codec_family(CodecFamily::LeopardGF16, mode, true, 10, 2),
            CodecFamily::LeopardGF16
        );
    }
}

#[test]
fn non_byte_field_ignores_mode() {
    assert_eq!(
        resolve_codec_family(CodecFamily::Classic, LeopardMode::PreferGF16, false, 300, 4),
        CodecFamily::Classic
    );
}

#[test]
fn family_aware_caps() {
    assert_eq!(max_total_shards_for_family(CodecFamily::Classic, GF8_ORDER), 256);
    assert_eq!(max_total_shards_for_family(CodecFamily::Classic, GF16_ORDER), 65536);
    assert_eq!(max_total_shards_for_family(CodecFamily::LeopardGF8, GF8_ORDER), 256);
    assert_eq!(max_total_shards_for_family(CodecFamily::LeopardGF16, GF8_ORDER), 65536);
}
