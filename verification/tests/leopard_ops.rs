use rustfs_erasure_codec::codec::leopard_gf16::{build_fft_decode_dit16_plan, build_ifft_dit16_plan};
use rustfs_erasure_codec::codec::leopard_gf8::ops::{
    add_mod8, fft_dit2, fft_dit4_full_lut_scratch, fwht2_alt8, fwht8, fwht8_mtrunc, fwht_variable,
    get_pair_mut, ifft_dit2, ifft_dit4_full_lut_scratch, lut_xor_prebuilt, mul_log8, mulgf8,
    slice_xor, sub_mod8,
};
use rustfs_erasure_codec::codec::leopard_gf8::{
    IfftProfilePhase, LeopardGf8ProfileMetrics, LeopardGf8Tables, Mul8Lut, build_fft_dit8_plan,
    build_ifft_decode_dit8_plan, build_ifft_dit8_plan, ceil_pow2,
};
use rustfs_erasure_codec::galois_8;
use rustfs_erasure_codec::galois_8::gfni::{
    coeff_table_avx2, coeff_table_avx512, gfni_avx2_constant_bytes, gfni_avx512_constant_bytes,
    gfni_isomorphism_bytes,
};
use rustfs_erasure_codec::{leopard_gf8_profile_stats, reset_leopard_gf8_profile_stats};

fn lut_for(m: u8) -> Mul8Lut {
    let mut value = [0u8; 256];
    for x in 0..256usize {
        value[x] = galois_8::mul(x as u8, m);
    }
    let mut low = [0u8; 16];
    let mut high = [0u8; 16];
    for i in 0..16 {
        low[i] = value[i];
        high[i] = value[16 * i];
    }
    Mul8Lut { value, low, high }
}

fn tables() -> LeopardGf8Tables {
    let mut mul_luts = Vec::new();
    for k in 0..256usize {
        mul_luts.push(lut_for(galois_8::exp(2, k)));
    }
    LeopardGf8Tables { fft_skew: [0u8; 255], log_walsh: [0u8; 256], log_lut: galois_8::LOG_TABLE, exp_lut: [0u8; 256], mul_luts }
}

#[test]
fn log_arithmetic_folds_modulo_255() {
    assert_eq!(add_mod8(200, 100), 45);
    assert_eq!(add_mod8(100, 100), 200);
    assert_eq!(add_mod8(255, 1), 1);
    assert_eq!(add_mod8(128, 127), 255);
    assert_eq!(sub_mod8(10, 3), 7);
    assert_eq!(sub_mod8(3, 10), 248);
    assert_eq!(sub_mod8(0, 255), 0);
    assert_eq!(sub_mod8(5, 5), 0);
    assert_eq!(fwht2_alt8(200, 100), (45, 100));
}

#[test]
fn mul_log8_adds_logarithms() {
    let mut exp_lut = [0u8; 256];
    for i in 0..256usize {
        exp_lut[i] = (i as u8).wrapping_mul(3);
    }
    let log_lut = galois_8::LOG_TABLE;
    assert_eq!(mul_log8(0, 7, &log_lut, &exp_lut), 0);
    // log(2) = 1, so the index is 1 + 7
    assert_eq!(mul_log8(2, 7, &log_lut, &exp_lut), 24);
}

#[test]
fn slice_xor_and_table_xor() {
    let input = [1u8, 2, 3, 4];
    let mut out = [0xffu8, 0, 0x0f, 4];
    slice_xor(&input, &mut out);
    assert_eq!(out, [0xfe, 2, 0x0c, 0]);
    let lut = lut_for(3);
    let mut dst = [0u8; 4];
    lut_xor_prebuilt(&mut dst, &input, &lut.low, &lut.high, &lut.value);
    assert_eq!(dst, [3, 6, 5, 12]);
}

#[test]
fn butterflies_are_undone_by_their_inverses() {
    let t = tables();
    let x0: Vec<u8> = (0..64u32).map(|i| (i * 7 + 1) as u8).collect();
    let y0: Vec<u8> = (0..64u32).map(|i| (i * 13 + 5) as u8).collect();
    for &log_m in &[0u8, 1, 77, 254, 255] {
        let (mut x, mut y) = (x0.clone(), y0.clone());
        fft_dit2(&mut x, &mut y, log_m, &t);
        if log_m != 255 {
            assert_ne!((x.clone(), y.clone()), (x0.clone(), y0.clone()));
        }
        ifft_dit2(&mut x, &mut y, log_m, &t);
        assert_eq!((x, y), (x0.clone(), y0.clone()));
    }
    let mut out = vec![0u8; 64];
    mulgf8(&mut out, &x0, 1, &t);
    assert_eq!(out[1], galois_8::mul(x0[1], 2));
}

#[test]
fn radix4_butterfly_is_undone_by_its_inverse() {
    let (l1, l2, l3) = (lut_for(5), lut_for(9), lut_for(200));
    let a0: Vec<u8> = (0..32u32).map(|i| (i * 3) as u8).collect();
    let b0: Vec<u8> = (0..32u32).map(|i| (i * 5 + 1) as u8).collect();
    let c0: Vec<u8> = (0..32u32).map(|i| (i * 11 + 2) as u8).collect();
    let d0: Vec<u8> = (0..32u32).map(|i| (i * 17 + 3) as u8).collect();
    let (mut a, mut b, mut c, mut d) = (a0.clone(), b0.clone(), c0.clone(), d0.clone());
    let mut scratch = vec![0u8; 32];
    fft_dit4_full_lut_scratch(
        &mut a, &mut b, &mut c, &mut d, 1, 2, 3, &l1.value, &l1.low, &l1.high, &l2.value, &l2.low, &l2.high,
        &l3.value, &l3.low, &l3.high, &mut scratch,
    );
    assert_ne!(a, a0);
    ifft_dit4_full_lut_scratch(
        &mut a, &mut b, &mut c, &mut d, 1, 2, 3, &l1.value, &l1.low, &l1.high, &l2.value, &l2.low, &l2.high,
        &l3.value, &l3.low, &l3.high, &mut scratch,
    );
    assert_eq!((a, b, c, d), (a0, b0, c0, d0));
}

#[test]
fn walsh_hadamard_small_sizes() {
    let mut two = [200u8, 100];
    fwht_variable(&mut two);
    assert_eq!(two, [45, 100]);
    let mut four = [1u8, 2, 3, 4];
    fwht_variable(&mut four);
    // butterflies (0,1), (2,3), then (0,2), (1,3)
    let (a, b) = (add_mod8(1, 2), sub_mod8(1, 2));
    let (c, d) = (add_mod8(3, 4), sub_mod8(3, 4));
    assert_eq!(four, [add_mod8(a, c), add_mod8(b, d), sub_mod8(a, c), sub_mod8(b, d)]);
    let mut one = [9u8];
    fwht_variable(&mut one);
    assert_eq!(one, [9]);
}

#[test]
fn walsh_hadamard_full_table_matches_truncated_run_at_full_width() {
    let mut a = [0u8; 256];
    for i in 0..256 {
        a[i] = (i * 31 % 251) as u8;
    }
    let mut b = a;
    fwht8(&mut a);
    fwht8_mtrunc(&mut b, 256);
    assert_eq!(a, b);
    let mut c = [0u8; 256];
    c[0] = 1;
    fwht8(&mut c);
    assert!(c.iter().all(|&v| v == 1));
}

#[test]
fn get_pair_mut_hands_out_two_distinct_elements() {
    let mut v = [1, 2, 3, 4];
    assert!(get_pair_mut(&mut v, 1, 1).is_none());
    assert!(get_pair_mut(&mut v, 1, 4).is_none());
    if let Some((x, y)) = get_pair_mut(&mut v, 3, 0) {
        assert_eq!((*x, *y), (4, 1));
        *x = 40;
        *y = 10;
    }
    assert_eq!(v, [10, 2, 3, 40]);
}

#[test]
fn forward_plan_blocks() {
    let mut skew = [0u8; 255];
    for i in 0..255 {
        skew[i] = i as u8;
    }
    let plan = build_fft_dit8_plan(8, 8, &skew);
    assert_eq!(plan.mtrunc, 8);
    assert_eq!(plan.stage4_blocks.len(), 1);
    let b = plan.stage4_blocks[0];
    assert_eq!((b.r, b.dist, b.log_m01, b.log_m02, b.log_m23), (0, 2, 1, 3, 5));
    assert_eq!(plan.final_stage.len(), 4);
    assert_eq!((plan.final_stage[3].r, plan.final_stage[3].log_m), (6, 6));
    let plan16 = build_fft_dit8_plan(16, 16, &skew);
    assert_eq!(plan16.stage4_blocks.len(), 1 + 4);
    assert!(plan16.final_stage.is_empty());
}

#[test]
fn inverse_plan_blocks() {
    let skew: Vec<u8> = (0..255u32).map(|i| i as u8).collect();
    let plan = build_ifft_dit8_plan(6, 16, &skew);
    assert_eq!(plan.initial_blocks.len(), 2);
    let b = plan.initial_blocks[1];
    assert_eq!((b.r, b.dist, b.log_m01, b.log_m02, b.log_m23), (4, 1, 5, 6, 7));
    assert_eq!(plan.later_blocks.len(), 1);
    assert_eq!(plan.later_blocks[0].dist, 4);
    assert_eq!(plan.clear_start, 8);
    assert!(plan.final_stage.is_none());
    let mut skew_arr = [0u8; 255];
    for i in 0..255 {
        skew_arr[i] = i as u8;
    }
    let dec = build_ifft_decode_dit8_plan(6, 8, &skew_arr);
    assert_eq!(dec.initial_blocks[0].log_m01, 0);
    let fs = dec.final_stage.unwrap();
    assert_eq!((fs.r, fs.dist, fs.log_m), (0, 4, 3));
    let skew16: Vec<u16> = (0..300u32).map(|i| i as u16).collect();
    let p16 = build_ifft_dit16_plan(5, 64, &skew16);
    assert_eq!(p16.initial_blocks.len(), 2);
    assert_eq!(p16.later_blocks.len(), 1 + 1);
    assert!(p16.final_stage.is_none());
}

#[test]
fn decoder_forward_plan_has_a_block_per_element() {
    let skew: Vec<u16> = (0..65535u32).map(|i| i as u16).collect();
    let mut arr = [0u16; 65535];
    arr.copy_from_slice(&skew);
    let plan = build_fft_decode_dit16_plan(16, 16, &arr);
    // stride 4: group 0 has four elements; stride 1: four groups of one
    assert_eq!(plan.stage4_blocks.len(), 4 + 4);
    let b = plan.stage4_blocks[2];
    assert_eq!((b.r, b.dist, b.log_m01, b.log_m02, b.log_m23), (2, 4, 3, 7, 11));
    assert!(plan.final_stage.is_empty());
    assert_eq!(ceil_pow2(5), 8);
    assert_eq!(ceil_pow2(0), 1);
    assert_eq!(rustfs_erasure_codec::codec::leopard_gf16::ceil_pow2(1024), 1024);
}

#[test]
fn profile_counters_track_phases_and_reset() {
    let mut m = LeopardGf8ProfileMetrics::new();
    m.add_ifft_calls(IfftProfilePhase::FirstGroup);
    m.add_ifft_calls(IfftProfilePhase::LaterGroup);
    m.add_input_copy_bytes(IfftProfilePhase::RemainderGroup, 64);
    m.add_zero_fill_bytes(IfftProfilePhase::FirstGroup, 32);
    m.add_xor_bytes(IfftProfilePhase::FirstGroup, 16);
    m.add_xor_bytes(IfftProfilePhase::LaterGroup, 8);
    m.add_output_writeback(128);
    let s = leopard_gf8_profile_stats(&m);
    assert_eq!(s.ifft_stage_calls, 2);
    assert_eq!(s.first_group_ifft_calls, 1);
    assert_eq!(s.later_group_ifft_calls, 1);
    assert_eq!(s.remainder_group_input_copy_bytes, 64);
    assert_eq!(s.input_copy_bytes, 64);
    assert_eq!(s.first_group_zero_fill_bytes, 32);
    assert_eq!(s.xor_bytes, 24);
    assert_eq!(s.later_group_xor_bytes, 8);
    assert_eq!(s.output_writeback_calls, 1);
    assert_eq!(s.output_writeback_bytes, 128);
    m.output_writeback_bytes = usize::MAX;
    m.add_output_writeback(2);
    assert_eq!(m.output_writeback_bytes, 1);
    reset_leopard_gf8_profile_stats(&mut m);
    assert_eq!(leopard_gf8_profile_stats(&m).ifft_stage_calls, 0);
    assert_eq!(leopard_gf8_profile_stats(&m).output_writeback_bytes, 0);
}

#[test]
fn gfni_constants() {
    let iso = gfni_isomorphism_bytes();
    assert_eq!(iso, [0x80, 0xc0, 0xa0, 0xf0, 0x88, 0xcc, 0xaa, 0xff, 0x80, 0xc0, 0xa0, 0xf0, 0x88, 0xcc, 0xaa, 0xff]);
    assert_eq!(coeff_table_avx2(7), [7u8; 32]);
    assert_eq!(coeff_table_avx512(9), [9u8; 64]);
    assert_eq!(gfni_avx2_constant_bytes(3), (iso, [3u8; 32]));
    assert_eq!(gfni_avx512_constant_bytes(3), (iso, [3u8; 64]));
}
