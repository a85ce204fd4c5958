use rustfs_erasure_codec::galois_16::{Element, Field, deinterleave_scalar, interleave_scalar};

#[test]
fn galois_16_test_div_b_is_0() {
    assert_eq!(Element::zero(), Element([1, 0]).div(Element::zero()));
}

#[test]
fn zero_to_zero_is_one() {
    assert_eq!(Element::zero().exp(0), Element::constant(1))
}

#[test]
fn mul_slice_matches_scalar_reference() {
    const N: usize = 2100;
    let mut input = [[0u8; 2]; N];
    for (i, e) in input.iter_mut().enumerate() {
        *e = [(i.wrapping_mul(31).wrapping_add(7)) as u8, (i.wrapping_mul(17).wrapping_add(3)) as u8];
    }
    let coeffs = [[0u8, 0], [0, 1], [0, 0x8e], [0x9a, 0], [0x9a, 0x3f], [0xff, 0xff], [0x01, 0x80]];
    let lens = [0usize, 1, 2, 7, 16, 17, 63, 1023, 1024, 1025, N];
    for &c in &coeffs {
        for &len in &lens {
            let inp = &input[..len];
            let mut out = [[0u8; 2]; N];
            Field::mul_slice(c, inp, &mut out[..len]);
            for (i, &e) in inp.iter().enumerate() {
                assert_eq!(out[i], Field::mul(c, e), "mul_slice c={c:?} len={len} i={i}");
            }
            let mut acc = [[0u8; 2]; N];
            for (i, e) in acc.iter_mut().enumerate() {
                *e = [(i.wrapping_mul(13).wrapping_add(5)) as u8, (i.wrapping_mul(19).wrapping_add(11)) as u8];
            }
            let seed = acc;
            Field::mul_slice_add(c, inp, &mut acc[..len]);
            for (i, &e) in inp.iter().enumerate() {
                let expected = Field::add(seed[i], Field::mul(c, e));
                assert_eq!(acc[i], expected, "mul_slice_add c={c:?} len={len} i={i}");
            }
        }
    }
}

#[test]
fn deinterleave_interleave_match_scalar_and_round_trip() {
    let lens = [0usize, 1, 2, 3, 7, 15, 16, 17, 31, 32, 33, 47, 63, 64, 65, 96, 127, 128, 1000, 1024];
    for &n in &lens {
        let src: Vec<u8> = (0..2 * n).map(|i: usize| (i.wrapping_mul(37).wrapping_add(i / 2).wrapping_add(1)) as u8).collect();
        let mut even = vec![0u8; n];
        let mut odd = vec![0u8; n];
        deinterleave_scalar(&src, &mut even, &mut odd);
        for i in 0..n {
            assert_eq!(even[i], src[2 * i], "even[{i}] != src[2i], n={n}");
            assert_eq!(odd[i], src[2 * i + 1], "odd[{i}] != src[2i+1], n={n}");
        }
        let mut dst = vec![0u8; 2 * n];
        interleave_scalar(&even, &odd, &mut dst);
        assert_eq!(dst, src, "interleave(deinterleave(src)) != src, n={n}");
    }
}

#[test]
fn gf16_element_laws_on_sample_values() {
    let samples = [[0u8, 0], [0, 1], [0, 2], [1, 0], [0x12, 0x34], [0xff, 0xff], [0x80, 0x01], [0x9a, 0x3f]];
    for &a in &samples {
        for &b in &samples {
            let (x, y) = (Element(a), Element(b));
            assert_eq!(x.add(y), y.add(x));
            assert_eq!(x.mul(y), y.mul(x));
            for &c in &samples {
                let z = Element(c);
                assert_eq!(x.mul(y.mul(z)), x.mul(y).mul(z));
                assert_eq!(x.mul(y.add(z)), x.mul(y).add(x.mul(z)));
            }
        }
        let x = Element(a);
        if a != [0, 0] {
            assert_eq!(x.mul(x.inverse()), Element::constant(1));
            assert_eq!(Element::constant(1).div(x).mul(x), Element::constant(1));
        } else {
            assert_eq!(x.inverse(), Element::zero());
        }
    }
}

#[test]
fn gf16_exp_matches_repeated_multiplication() {
    let a = Element([0x12, 0x34]);
    let mut b = Element::constant(1);
    for i in 0..40usize {
        assert_eq!(a.exp(i), b);
        b = b.mul(a);
    }
}

#[test]
fn gf16_field_exact_values() {
    // X * X = 2X + 128
    assert_eq!(Field::mul([1, 0], [1, 0]), [2, 128]);
    assert_eq!(Field::mul([0, 3], [0, 4]), [0, 12]);
    assert_eq!(Field::div([0, 12], [0, 4]), [0, 3]);
    assert_eq!(Field::div([5, 6], [0, 0]), [0, 0]);
    assert_eq!(Field::nth_internal(0x1234), [0x12, 0x34]);
    assert_eq!(Field::nth_checked(65536), None);
    assert_eq!(Field::nth_checked(65535), Some([0xff, 0xff]));
    assert_eq!(Field::nth(65537), [0, 1]);
    assert_eq!(Field::zero(), [0, 0]);
    assert_eq!(Field::one(), [0, 1]);
    assert_eq!(Field::exp([1, 0], 2), [2, 128]);
}
