use rustfs_erasure_codec::galois_8::backend::{
    Aarch64FeatureSet, BackendOverride, X86FeatureSet, generated_encode_allowed,
    generated_encode_allowed_for_override, parse_backend_override,
    runtime_override_backend_id_for_test, runtime_override_backend_name_for_test,
    scalar_backend, select_aarch64_backend, select_x86_backend, select_x86_override_backend,
};
use rustfs_erasure_codec::galois_8::BackendId;

#[test]
fn test_backend_ids_are_stable() {
    assert_eq!(BackendId::ScalarRust, scalar_backend().id);
}

#[test]
fn test_parse_backend_override() {
    assert!(matches!(parse_backend_override("auto"), Some(BackendOverride::Auto)));
    assert!(matches!(parse_backend_override("scalar"), Some(BackendOverride::Scalar)));
    assert!(matches!(parse_backend_override("scalar-rust"), Some(BackendOverride::Scalar)));
    assert!(parse_backend_override("simd-c").is_none());
    assert!(matches!(parse_backend_override("rust-neon"), Some(BackendOverride::RustNeon)));
    assert!(matches!(parse_backend_override("rust-ssse3"), Some(BackendOverride::RustSsse3)));
    assert!(matches!(parse_backend_override("rust-avx2"), Some(BackendOverride::RustAvx2)));
    assert!(matches!(parse_backend_override("rust-avx512"), Some(BackendOverride::RustAvx512)));
    assert!(matches!(parse_backend_override("rust-gfni-avx2"), Some(BackendOverride::RustGfniAvx2)));
    assert!(matches!(
        parse_backend_override("rust-gfni-avx512"),
        Some(BackendOverride::RustGfniAvx512)
    ));
    assert!(matches!(parse_backend_override("rust-vsx"), Some(BackendOverride::RustVsx)));
    assert!(parse_backend_override("bogus").is_none());
}

#[test]
fn test_explicit_backend_overrides_disable_generated_encode() {
    assert!(generated_encode_allowed_for_override(None));
    assert!(generated_encode_allowed_for_override(Some(BackendOverride::Auto)));
    for backend_override in [
        BackendOverride::Scalar,
        BackendOverride::RustNeon,
        BackendOverride::RustSsse3,
        BackendOverride::RustAvx2,
        BackendOverride::RustAvx512,
        BackendOverride::RustGfniAvx2,
        BackendOverride::RustGfniAvx512,
        BackendOverride::RustVsx,
    ] {
        assert!(!generated_encode_allowed_for_override(Some(backend_override)));
    }
}

#[test]
fn test_select_x86_backend_priority() {
    assert_eq!(
        BackendId::RustGfniAvx512,
        select_x86_backend(X86FeatureSet {
            gfni: true,
            avx512f: true,
            avx512bw: true,
            avx2: true,
            ..X86FeatureSet::default()
        })
        .id
    );
    assert_eq!(
        BackendId::RustGfniAvx2,
        select_x86_backend(X86FeatureSet { gfni: true, avx2: true, ..X86FeatureSet::default() }).id
    );
    assert_eq!(
        BackendId::RustAvx2,
        select_x86_backend(X86FeatureSet { avx2: true, ..X86FeatureSet::default() }).id
    );
    assert_eq!(
        BackendId::RustAvx512,
        select_x86_backend(X86FeatureSet { avx512f: true, avx512bw: true, ..X86FeatureSet::default() })
            .id
    );
    assert_eq!(
        BackendId::RustSsse3,
        select_x86_backend(X86FeatureSet { ssse3: true, ..X86FeatureSet::default() }).id
    );
    assert_eq!(BackendId::ScalarRust, select_x86_backend(X86FeatureSet::default()).id);
    assert_eq!(BackendId::ScalarRust, select_x86_backend(X86FeatureSet::default()).id);
}

#[test]
fn test_select_x86_override_backend_allows_experimental_gfni() {
    assert_eq!(
        Some(BackendId::RustGfniAvx512),
        select_x86_override_backend(
            BackendOverride::RustGfniAvx512,
            X86FeatureSet { gfni: true, avx512f: true, avx512bw: true, ..X86FeatureSet::default() },
        )
        .map(|backend| backend.id)
    );
    assert_eq!(
        Some(BackendId::RustGfniAvx2),
        select_x86_override_backend(
            BackendOverride::RustGfniAvx2,
            X86FeatureSet { gfni: true, avx2: true, ..X86FeatureSet::default() },
        )
        .map(|backend| backend.id)
    );
    assert_eq!(
        None,
        select_x86_override_backend(
            BackendOverride::RustGfniAvx512,
            X86FeatureSet { gfni: true, avx2: true, ..X86FeatureSet::default() },
        )
        .map(|backend| backend.id)
    );
}

#[test]
fn test_select_aarch64_backend_priority() {
    assert_eq!(
        BackendId::RustNeon,
        select_aarch64_backend(Aarch64FeatureSet { neon: true, sve: false }).id
    );
    assert_eq!(
        BackendId::ScalarRust,
        select_aarch64_backend(Aarch64FeatureSet { neon: false, sve: false }).id
    );
}

#[test]
fn test_select_aarch64_backend_sve_placeholder_does_not_change_current_priority() {
    assert_eq!(
        BackendId::RustNeon,
        select_aarch64_backend(Aarch64FeatureSet { neon: true, sve: true }).id
    );
    assert_eq!(
        BackendId::ScalarRust,
        select_aarch64_backend(Aarch64FeatureSet { neon: false, sve: true }).id
    );
}

#[test]
fn override_setting_selects_only_available_backends() {
    assert_eq!(runtime_override_backend_name_for_test(Some("scalar")), Some("scalar-rust"));
    assert_eq!(runtime_override_backend_id_for_test(Some("scalar")), Some(BackendId::ScalarRust));
    assert_eq!(runtime_override_backend_name_for_test(Some("rust-avx2")), None);
    assert_eq!(runtime_override_backend_id_for_test(Some("bogus")), None);
    assert_eq!(runtime_override_backend_id_for_test(None), None);
    assert!(generated_encode_allowed(None));
    assert!(generated_encode_allowed(Some("auto")));
    assert!(generated_encode_allowed(Some("bogus")));
    assert!(!generated_encode_allowed(Some("scalar")));
}

#[test]
fn x86_override_requires_every_needed_feature() {
    let all = X86FeatureSet { ssse3: true, avx2: true, avx512f: true, avx512bw: true, gfni: true };
    assert_eq!(select_x86_override_backend(BackendOverride::Auto, all).map(|b| b.id), None);
    assert_eq!(
        select_x86_override_backend(BackendOverride::Scalar, X86FeatureSet::default()).map(|b| b.id),
        Some(BackendId::ScalarRust)
    );
    assert_eq!(
        select_x86_override_backend(BackendOverride::RustAvx512, X86FeatureSet { avx512f: true, ..X86FeatureSet::default() })
            .map(|b| b.id),
        None
    );
    assert_eq!(select_x86_override_backend(BackendOverride::RustNeon, all).map(|b| b.id), None);
}
