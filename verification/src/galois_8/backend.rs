//! Selection of the GF(2^8) slice-multiplication backend.
//!
//! Every backend computes the same products; the selection only decides which
//! instruction-set path is reported and used. This library carries the portable
//! scalar kernels, so the active backend is always the scalar one; the selection
//! rules below describe which SIMD path a build with those kernels would take for
//! a given set of CPU features and override request.
use vstd::prelude::*;
use vstd::string::StringSliceAdditionalSpecFns;

verus! {

/// Whether a backend is the portable scalar path or a SIMD path.
#[derive(Debug, Copy, Clone, PartialEq, Eq, Structural)]
pub enum BackendKind {
    Scalar,
    RustSimd,
}

/// Stable identifier of a backend.
#[derive(Debug, Copy, Clone, PartialEq, Eq, Structural)]
pub enum BackendId {
    ScalarRust,
    RustNeon,
    RustSsse3,
    RustAvx2,
    RustAvx512,
    RustGfniAvx2,
    RustGfniAvx512,
    RustVsx,
}

/// Description of a backend: its identifier, display name and kind.
#[derive(Debug, Copy, Clone)]
pub struct GaloisBackend {
    pub id: BackendId,
    pub name: &'static str,
    pub kind: BackendKind,
}

/// A backend requested through the override setting.
#[derive(Debug, Copy, Clone, PartialEq, Eq, Structural)]
pub enum BackendOverride {
    Auto,
    Scalar,
    RustNeon,
    RustSsse3,
    RustAvx2,
    RustAvx512,
    RustGfniAvx2,
    RustGfniAvx512,
    RustVsx,
}

/// CPU features relevant to the x86_64 backends.
#[derive(Debug, Copy, Clone, PartialEq, Eq, Structural)]
pub struct X86FeatureSet {
    pub ssse3: bool,
    pub avx2: bool,
    pub avx512f: bool,
    pub avx512bw: bool,
    pub gfni: bool,
}

/// CPU features relevant to the aarch64 backends.
#[derive(Debug, Copy, Clone, PartialEq, Eq, Structural)]
pub struct Aarch64FeatureSet {
    pub neon: bool,
    pub sve: bool,
}

/// CPU features relevant to the powerpc64 backends.
#[derive(Debug, Copy, Clone, PartialEq, Eq, Structural)]
pub struct PowerpcFeatureSet {
    pub vsx: bool,
}

impl Default for X86FeatureSet {
    fn default() -> (r: Self)
        ensures
            !r.ssse3 && !r.avx2 && !r.avx512f && !r.avx512bw && !r.gfni,
    {
        X86FeatureSet { ssse3: false, avx2: false, avx512f: false, avx512bw: false, gfni: false }
    }
}

impl Default for Aarch64FeatureSet {
    fn default() -> (r: Self)
        ensures
            !r.neon && !r.sve,
    {
        Aarch64FeatureSet { neon: false, sve: false }
    }
}

impl Default for PowerpcFeatureSet {
    fn default() -> (r: Self)
        ensures
            !r.vsx,
    {
        PowerpcFeatureSet { vsx: false }
    }
}

/// The display name of each backend.
pub open spec fn backend_name(id: BackendId) -> &'static str {
    match id {
        BackendId::ScalarRust => "scalar-rust",
        BackendId::RustNeon => "rust-neon",
        BackendId::RustSsse3 => "rust-ssse3",
        BackendId::RustAvx2 => "rust-avx2",
        BackendId::RustAvx512 => "rust-avx512",
        BackendId::RustGfniAvx2 => "rust-gfni-avx2",
        BackendId::RustGfniAvx512 => "rust-gfni-avx512",
        BackendId::RustVsx => "rust-vsx",
    }
}

/// Only the scalar backend is of the scalar kind.
pub open spec fn backend_kind(id: BackendId) -> BackendKind {
    if id == BackendId::ScalarRust {
        BackendKind::Scalar
    } else {
        BackendKind::RustSimd
    }
}

/// The description of the backend `id`.
pub open spec fn backend_spec(id: BackendId) -> GaloisBackend {
    GaloisBackend { id, name: backend_name(id), kind: backend_kind(id) }
}

/// Builds the description of the backend `id`.
pub fn backend(id: BackendId) -> (r: GaloisBackend)
    ensures
        r == backend_spec(id),
{
    match id {
        BackendId::ScalarRust => GaloisBackend {
            id,
            name: "scalar-rust",
            kind: BackendKind::Scalar,
        },
        BackendId::RustNeon => GaloisBackend { id, name: "rust-neon", kind: BackendKind::RustSimd },
        BackendId::RustSsse3 => GaloisBackend {
            id,
            name: "rust-ssse3",
            kind: BackendKind::RustSimd,
        },
        BackendId::RustAvx2 => GaloisBackend { id, name: "rust-avx2", kind: BackendKind::RustSimd },
        BackendId::RustAvx512 => GaloisBackend {
            id,
            name: "rust-avx512",
            kind: BackendKind::RustSimd,
        },
        BackendId::RustGfniAvx2 => GaloisBackend {
            id,
            name: "rust-gfni-avx2",
            kind: BackendKind::RustSimd,
        },
        BackendId::RustGfniAvx512 => GaloisBackend {
            id,
            name: "rust-gfni-avx512",
            kind: BackendKind::RustSimd,
        },
        BackendId::RustVsx => GaloisBackend { id, name: "rust-vsx", kind: BackendKind::RustSimd },
    }
}

/// The portable scalar backend.
pub fn scalar_backend() -> (r: GaloisBackend)
    ensures
        r == backend_spec(BackendId::ScalarRust),
{
    backend(BackendId::ScalarRust)
}

/// Byte-wise equality of two strings.
pub fn str_equal(a: &str, b: &str) -> (r: bool)
    ensures
        r == (a.spec_bytes() == b.spec_bytes()),
{
    let x = a.as_bytes();
    let y = b.as_bytes();
    if x.len() != y.len() {
        return false;
    }
    let mut i: usize = 0;
    while i < x.len()
        invariant
            x@.len() == y@.len(),
            i <= x@.len(),
            x@ == a.spec_bytes(),
            y@ == b.spec_bytes(),
            forall|j: int| 0 <= j < i ==> x@[j] == y@[j],
        decreases x@.len() - i,
    {
        if x[i] != y[i] {
            return false;
        }
        i = i + 1;
    }
    assert(x@ =~= y@);
    true
}

/// The override that a setting names, if it names one.
pub open spec fn parse_backend_override_spec(value: &str) -> Option<BackendOverride> {
    let v = value.spec_bytes();
    if v == "auto".spec_bytes() {
        Some(BackendOverride::Auto)
    } else if v == "scalar".spec_bytes() || v == "scalar-rust".spec_bytes() {
        Some(BackendOverride::Scalar)
    } else if v == "rust-neon".spec_bytes() {
        Some(BackendOverride::RustNeon)
    } else if v == "rust-ssse3".spec_bytes() {
        Some(BackendOverride::RustSsse3)
    } else if v == "rust-avx2".spec_bytes() {
        Some(BackendOverride::RustAvx2)
    } else if v == "rust-avx512".spec_bytes() {
        Some(BackendOverride::RustAvx512)
    } else if v == "rust-gfni-avx2".spec_bytes() {
        Some(BackendOverride::RustGfniAvx2)
    } else if v == "rust-gfni-avx512".spec_bytes() {
        Some(BackendOverride::RustGfniAvx512)
    } else if v == "rust-vsx".spec_bytes() {
        Some(BackendOverride::RustVsx)
    } else {
        None
    }
}

/// Parses the value of the backend override setting.
pub fn parse_backend_override(value: &str) -> (r: Option<BackendOverride>)
    ensures
        r == parse_backend_override_spec(value),
{
    if str_equal(value, "auto") {
        Some(BackendOverride::Auto)
    } else if str_equal(value, "scalar") || str_equal(value, "scalar-rust") {
        Some(BackendOverride::Scalar)
    } else if str_equal(value, "rust-neon") {
        Some(BackendOverride::RustNeon)
    } else if str_equal(value, "rust-ssse3") {
        Some(BackendOverride::RustSsse3)
    } else if str_equal(value, "rust-avx2") {
        Some(BackendOverride::RustAvx2)
    } else if str_equal(value, "rust-avx512") {
        Some(BackendOverride::RustAvx512)
    } else if str_equal(value, "rust-gfni-avx2") {
        Some(BackendOverride::RustGfniAvx2)
    } else if str_equal(value, "rust-gfni-avx512") {
        Some(BackendOverride::RustGfniAvx512)
    } else if str_equal(value, "rust-vsx") {
        Some(BackendOverride::RustVsx)
    } else {
        None
    }
}

/// Generated SIMD encode code may only bypass the backend when no explicit
/// backend was requested.
pub fn generated_encode_allowed_for_override(backend_override: Option<BackendOverride>) -> (r: bool)
    ensures
        r == (backend_override is None || backend_override == Some(BackendOverride::Auto)),
{
    match backend_override {
        None => true,
        Some(BackendOverride::Auto) => true,
        Some(_) => false,
    }
}

/// Whether generated encode code is allowed for the given raw override setting.
pub fn generated_encode_allowed(override_setting: Option<&str>) -> (r: bool)
    ensures
        r == match override_setting {
            None => true,
            Some(v) => match parse_backend_override_spec(v) {
                None => true,
                Some(o) => o == BackendOverride::Auto,
            },
        },
{
    let parsed = match override_setting {
        None => None,
        Some(v) => parse_backend_override(v),
    };
    generated_encode_allowed_for_override(parsed)
}

pub fn supports_rust_avx2(features: X86FeatureSet) -> (r: bool)
    ensures
        r == features.avx2,
{
    features.avx2
}

pub fn supports_rust_avx512(features: X86FeatureSet) -> (r: bool)
    ensures
        r == (features.avx512f && features.avx512bw),
{
    features.avx512f && features.avx512bw
}

pub fn supports_rust_gfni_avx2(features: X86FeatureSet) -> (r: bool)
    ensures
        r == (features.gfni && features.avx2),
{
    features.gfni && features.avx2
}

pub fn supports_rust_gfni_avx512(features: X86FeatureSet) -> (r: bool)
    ensures
        r == (features.gfni && features.avx512f && features.avx512bw),
{
    features.gfni && features.avx512f && features.avx512bw
}

pub fn supports_rust_ssse3(features: X86FeatureSet) -> (r: bool)
    ensures
        r == features.ssse3,
{
    features.ssse3
}

/// The backend `id` when `supported`, else nothing.
pub open spec fn backend_if(supported: bool, id: BackendId) -> Option<GaloisBackend> {
    if supported {
        Some(backend_spec(id))
    } else {
        None
    }
}

pub fn rust_ssse3_backend(features: X86FeatureSet) -> (r: Option<GaloisBackend>)
    ensures
        r == backend_if(features.ssse3, BackendId::RustSsse3),
{
    if supports_rust_ssse3(features) {
        Some(backend(BackendId::RustSsse3))
    } else {
        None
    }
}

pub fn rust_avx2_backend(features: X86FeatureSet) -> (r: Option<GaloisBackend>)
    ensures
        r == backend_if(features.avx2, BackendId::RustAvx2),
{
    if supports_rust_avx2(features) {
        Some(backend(BackendId::RustAvx2))
    } else {
        None
    }
}

pub fn rust_avx512_backend(features: X86FeatureSet) -> (r: Option<GaloisBackend>)
    ensures
        r == backend_if(features.avx512f && features.avx512bw, BackendId::RustAvx512),
{
    if supports_rust_avx512(features) {
        Some(backend(BackendId::RustAvx512))
    } else {
        None
    }
}

pub fn rust_gfni_avx2_backend(features: X86FeatureSet) -> (r: Option<GaloisBackend>)
    ensures
        r == backend_if(features.gfni && features.avx2, BackendId::RustGfniAvx2),
{
    if supports_rust_gfni_avx2(features) {
        Some(backend(BackendId::RustGfniAvx2))
    } else {
        None
    }
}

pub fn rust_gfni_avx512_backend(features: X86FeatureSet) -> (r: Option<GaloisBackend>)
    ensures
        r == backend_if(
            features.gfni && features.avx512f && features.avx512bw,
            BackendId::RustGfniAvx512,
        ),
{
    if supports_rust_gfni_avx512(features) {
        Some(backend(BackendId::RustGfniAvx512))
    } else {
        None
    }
}

/// The x86_64 backend that an explicit override selects, if the CPU supports it.
pub fn select_x86_override_backend(backend_override: BackendOverride, features: X86FeatureSet) -> (r:
    Option<GaloisBackend>)
    ensures
        r == match backend_override {
            BackendOverride::Auto => None,
            BackendOverride::Scalar => Some(backend_spec(BackendId::ScalarRust)),
            BackendOverride::RustSsse3 => backend_if(features.ssse3, BackendId::RustSsse3),
            BackendOverride::RustAvx2 => backend_if(features.avx2, BackendId::RustAvx2),
            BackendOverride::RustAvx512 => backend_if(
                features.avx512f && features.avx512bw,
                BackendId::RustAvx512,
            ),
            BackendOverride::RustGfniAvx2 => backend_if(
                features.gfni && features.avx2,
                BackendId::RustGfniAvx2,
            ),
            BackendOverride::RustGfniAvx512 => backend_if(
                features.gfni && features.avx512f && features.avx512bw,
                BackendId::RustGfniAvx512,
            ),
            BackendOverride::RustNeon => None,
            BackendOverride::RustVsx => None,
        },
{
    match backend_override {
        BackendOverride::Auto => None,
        BackendOverride::Scalar => Some(scalar_backend()),
        BackendOverride::RustSsse3 => rust_ssse3_backend(features),
        BackendOverride::RustAvx2 => rust_avx2_backend(features),
        BackendOverride::RustAvx512 => rust_avx512_backend(features),
        BackendOverride::RustGfniAvx2 => rust_gfni_avx2_backend(features),
        BackendOverride::RustGfniAvx512 => rust_gfni_avx512_backend(features),
        BackendOverride::RustNeon => None,
        BackendOverride::RustVsx => None,
    }
}

/// The priority order of the x86_64 backends:
/// GFNI+AVX-512, GFNI+AVX2, AVX2, AVX-512, SSSE3, then scalar.
pub open spec fn x86_backend_choice(features: X86FeatureSet) -> BackendId {
    if features.gfni && features.avx512f && features.avx512bw {
        BackendId::RustGfniAvx512
    } else if features.gfni && features.avx2 {
        BackendId::RustGfniAvx2
    } else if features.avx2 {
        BackendId::RustAvx2
    } else if features.avx512f && features.avx512bw {
        BackendId::RustAvx512
    } else if features.ssse3 {
        BackendId::RustSsse3
    } else {
        BackendId::ScalarRust
    }
}

/// Selects the best x86_64 backend that the CPU supports.
pub fn select_x86_backend(features: X86FeatureSet) -> (r: GaloisBackend)
    ensures
        r == backend_spec(x86_backend_choice(features)),
{
    if let Some(b) = rust_gfni_avx512_backend(features) {
        return b;
    }
    if let Some(b) = rust_gfni_avx2_backend(features) {
        return b;
    }
    if let Some(b) = rust_avx2_backend(features) {
        return b;
    }
    if let Some(b) = rust_avx512_backend(features) {
        return b;
    }
    if let Some(b) = rust_ssse3_backend(features) {
        return b;
    }
    scalar_backend()
}

pub fn supports_rust_neon(features: Aarch64FeatureSet) -> (r: bool)
    ensures
        r == features.neon,
{
    features.neon
}

/// The aarch64 backend that an explicit override selects, if the CPU supports it.
pub fn select_aarch64_override_backend(
    backend_override: BackendOverride,
    features: Aarch64FeatureSet,
) -> (r: Option<GaloisBackend>)
    ensures
        r == match backend_override {
            BackendOverride::Auto => None,
            BackendOverride::Scalar => Some(backend_spec(BackendId::ScalarRust)),
            BackendOverride::RustNeon => backend_if(features.neon, BackendId::RustNeon),
            _ => None,
        },
{
    match backend_override {
        BackendOverride::Auto => None,
        BackendOverride::Scalar => Some(scalar_backend()),
        BackendOverride::RustNeon => if supports_rust_neon(features) {
            Some(backend(BackendId::RustNeon))
        } else {
            None
        },
        _ => None,
    }
}

/// NEON when available, else scalar; SVE does not change the choice.
pub fn select_aarch64_backend(features: Aarch64FeatureSet) -> (r: GaloisBackend)
    ensures
        r == backend_spec(if features.neon { BackendId::RustNeon } else { BackendId::ScalarRust }),
{
    if supports_rust_neon(features) {
        return backend(BackendId::RustNeon);
    }
    scalar_backend()
}

pub fn supports_rust_vsx(features: PowerpcFeatureSet) -> (r: bool)
    ensures
        r == features.vsx,
{
    features.vsx
}

/// VSX when available, else scalar.
pub fn select_powerpc_backend(features: PowerpcFeatureSet) -> (r: GaloisBackend)
    ensures
        r == backend_spec(if features.vsx { BackendId::RustVsx } else { BackendId::ScalarRust }),
{
    if supports_rust_vsx(features) {
        return backend(BackendId::RustVsx);
    }
    scalar_backend()
}

/// The powerpc64 backend that an explicit override selects, if the CPU supports it.
pub fn select_powerpc_override_backend(
    backend_override: BackendOverride,
    features: PowerpcFeatureSet,
) -> (r: Option<GaloisBackend>)
    ensures
        r == match backend_override {
            BackendOverride::Auto => None,
            BackendOverride::Scalar => Some(backend_spec(BackendId::ScalarRust)),
            BackendOverride::RustVsx => backend_if(features.vsx, BackendId::RustVsx),
            _ => None,
        },
{
    match backend_override {
        BackendOverride::Auto => None,
        BackendOverride::Scalar => Some(scalar_backend()),
        BackendOverride::RustVsx => if supports_rust_vsx(features) {
            Some(backend(BackendId::RustVsx))
        } else {
            None
        },
        _ => None,
    }
}

/// The override selection of a build that carries only the scalar kernels:
/// an explicit scalar request is honoured, every SIMD request is not.
pub fn select_override_backend(backend_override: BackendOverride) -> (r: Option<GaloisBackend>)
    ensures
        r == if backend_override == BackendOverride::Scalar {
            Some(backend_spec(BackendId::ScalarRust))
        } else {
            None
        },
{
    match backend_override {
        BackendOverride::Scalar => Some(scalar_backend()),
        _ => None,
    }
}

/// The backend that the override setting selects, if it names one that is available.
pub fn runtime_override_backend(override_setting: Option<&str>) -> (r: Option<GaloisBackend>)
    ensures
        r == match override_setting {
            None => None,
            Some(v) => if parse_backend_override_spec(v) == Some(BackendOverride::Scalar) {
                Some(backend_spec(BackendId::ScalarRust))
            } else {
                None
            },
        },
{
    match override_setting {
        None => None,
        Some(v) => match parse_backend_override(v) {
            None => None,
            Some(o) => select_override_backend(o),
        },
    }
}

/// The name of the backend that the override setting selects.
pub fn runtime_override_backend_name_for_test(override_setting: Option<&str>) -> (r: Option<&'static str>)
    ensures
        r == match override_setting {
            None => None,
            Some(v) => if parse_backend_override_spec(v) == Some(BackendOverride::Scalar) {
                Some(backend_name(BackendId::ScalarRust))
            } else {
                None
            },
        },
{
    match runtime_override_backend(override_setting) {
        Some(b) => Some(b.name),
        None => None,
    }
}

/// The identifier of the backend that the override setting selects.
pub fn runtime_override_backend_id_for_test(override_setting: Option<&str>) -> (r: Option<BackendId>)
    ensures
        r == match override_setting {
            None => None,
            Some(v) => if parse_backend_override_spec(v) == Some(BackendOverride::Scalar) {
                Some(BackendId::ScalarRust)
            } else {
                None
            },
        },
{
    match runtime_override_backend(override_setting) {
        Some(b) => Some(b.id),
        None => None,
    }
}

/// The backend that performs slice multiplication: the portable scalar kernels.
pub fn active_backend() -> (r: GaloisBackend)
    ensures
        r == backend_spec(BackendId::ScalarRust),
{
    scalar_backend()
}

} // verus!
