use delp::config::Field as Kind;
use delp::gf::kernel::{gf_inv, gf_mul, mul_acc, mul_scale};
use delp::gf::simd::ops::{mul_acc_gf2_4, mul_acc_gf2_8, mul_scale_gf2_4, mul_scale_gf2_8};
use delp::gf::simd::{
    mul_acc_gf2_4_reference, mul_acc_gf2_8_reference, mul_scale_gf2_8_reference,
};
use delp::gf::tables::{GF2_4_EXP, GF2_4_LOG, GF2_8_EXP, GF2_8_LOG};
use delp::gf::{Field, Gf2_4, Gf2_8};
use delp::DelpError;

#[test]
fn mul_table_spot_checks() {
    // alpha = 2;  alpha^2 = 4;  alpha^2 * alpha^3 = alpha^5
    let a = Gf2_4::alpha_pow(2);
    let b = Gf2_4::alpha_pow(3);
    let c = Gf2_4::alpha_pow(5);
    assert_eq!(a.mul(b), c);
}

#[test]
fn packed_byte_roundtrip() {
    // Multiplying by one is the identity.
    for byte in 0u8..=255 {
        assert_eq!(Gf2_4::mul_packed_byte(byte, 0x11), byte);
    }
}

#[test]
fn packed_by_zero_is_zero() {
    for byte in 0u8..=255 {
        assert_eq!(Gf2_4::mul_packed_byte(byte, 0x00), 0);
    }
}

#[test]
fn mul_spot() {
    let a = Gf2_8::alpha_pow(3);
    let b = Gf2_8::alpha_pow(7);
    assert_eq!(a.mul(b), Gf2_8::alpha_pow(10));
}

#[test]
fn inv_all_nonzero() {
    for v in 1..=255u8 {
        let a = Gf2_8::new(v);
        assert_eq!(a.mul(a.inv()), Gf2_8::one());
    }
}

#[test]
fn add_is_xor() {
    for a in 0..=255u8 {
        for b in 0..=255u8 {
            assert_eq!(Gf2_8::new(a).add(Gf2_8::new(b)), Gf2_8::new(a ^ b));
        }
    }
}

fn axioms<F: Field>() {
    let one = F::one();
    let zero = F::zero();
    for raw in 0..(F::ORDER as u8) {
        let a = F::from_u8(raw);
        assert_eq!(a.add(zero), a, "a + 0 == a failed for {raw}");
        assert_eq!(a.sub(a), zero, "a - a == 0 failed for {raw}");
    }
    for raw in 0..(F::ORDER as u8) {
        let a = F::from_u8(raw);
        assert_eq!(a.mul(one), a, "a * 1 == a failed for {raw}");
    }
    for raw in 1..(F::ORDER as u8) {
        let a = F::from_u8(raw);
        assert_eq!(a.mul(a.inv()), one, "a * 1/a == 1 failed for {raw}");
    }
    for a in 0..(F::ORDER as u8) {
        for b in 0..(F::ORDER as u8) {
            for c in 0..(F::ORDER as u8) {
                let fa = F::from_u8(a);
                let fb = F::from_u8(b);
                let fc = F::from_u8(c);
                assert_eq!(
                    fa.mul(fb.add(fc)),
                    fa.mul(fb).add(fa.mul(fc)),
                    "distributivity failed for ({a},{b},{c})"
                );
            }
        }
    }
}

#[test]
fn gf2_4_axioms() {
    axioms::<Gf2_4>();
}

#[test]
fn gf2_8_axioms() {
    axioms::<Gf2_8>();
}

fn vandermonde_check<F: Field>() {
    for src in 0..8u32 {
        let coef = F::vandermonde(src, 1);
        assert_eq!(coef, F::alpha_pow(src % (F::ORDER as u32 - 1)));
    }
}

#[test]
fn vandermonde_gf2_4() {
    vandermonde_check::<Gf2_4>();
}

#[test]
fn vandermonde_gf2_8() {
    vandermonde_check::<Gf2_8>();
}

#[test]
fn gf2_8_inv_exhaustive() {
    for v in 1u8..=255 {
        let a = Gf2_8::from_u8(v);
        let inv = a.inv();
        assert_eq!(a.mul(inv), Gf2_8::one(), "GF(2^8): {v} * inv({v}) != 1  [inv={:?}]", inv);
        assert_eq!(inv.mul(a), Gf2_8::one(), "GF(2^8): inv({v}) * {v} != 1");
    }
}

#[test]
fn gf2_8_mul_exhaustive() {
    for a in 0u16..256 {
        for b in 0u16..256 {
            let fa = Gf2_8::from_u8(a as u8);
            let fb = Gf2_8::from_u8(b as u8);
            let got = fa.mul(fb).to_u8();
            let expected: u8 = if a == 0 || b == 0 {
                0
            } else {
                GF2_8_EXP[GF2_8_LOG[a as usize] as usize + GF2_8_LOG[b as usize] as usize]
            };
            assert_eq!(got, expected, "GF(2^8) mul({a},{b}) mismatch");
            assert_eq!(fa.mul(fb), fb.mul(fa), "GF(2^8) mul not commutative at ({a},{b})");
        }
    }
}

#[test]
fn gf2_8_log_sentinel() {
    assert_eq!(
        GF2_8_LOG[0], 0xFF,
        "GF(2^8) LOG[0] must be 0xFF sentinel, got {}",
        GF2_8_LOG[0]
    );
}

#[test]
fn gf2_8_exp_log_inverse() {
    for x in 1u8..=255 {
        let log_x = GF2_8_LOG[x as usize] as usize;
        assert_eq!(GF2_8_EXP[log_x], x, "EXP[LOG[{x}]] != {x}  (got {})", GF2_8_EXP[log_x]);
    }
    for i in 0usize..255 {
        let exp_i = GF2_8_EXP[i] as usize;
        assert_eq!(GF2_8_LOG[exp_i], i as u8, "LOG[EXP[{i}]] != {i}  (got {})", GF2_8_LOG[exp_i]);
    }
}

#[test]
fn gf2_4_inv_exhaustive() {
    for v in 1u8..16 {
        let a = Gf2_4::from_u8(v);
        let inv = a.inv();
        assert_eq!(
            a.mul(inv),
            Gf2_4::one(),
            "GF(2^4): {v} * inv({v}) != 1  [inv={}]",
            inv.to_u8()
        );
    }
}

#[test]
fn gf2_4_exp_log_inverse() {
    for x in 1u8..16 {
        let log_x = GF2_4_LOG[x as usize] as usize;
        assert!(log_x < 15, "LOG[{x}] out of range: {log_x}");
        assert_eq!(GF2_4_EXP[log_x], x, "EXP[LOG[{x}]] != {x}");
    }
}

#[test]
fn vandermonde_mds_2_erasure_gf2_8() {
    for s0 in 0u32..8 {
        for s1 in (s0 + 1)..8 {
            for c1 in 1u32..8 {
                for c2 in (c1 + 1)..8 {
                    let a00 = Gf2_8::vandermonde(s0, c1);
                    let a01 = Gf2_8::vandermonde(s1, c1);
                    let a10 = Gf2_8::vandermonde(s0, c2);
                    let a11 = Gf2_8::vandermonde(s1, c2);
                    let det = a00.mul(a11).add(a01.mul(a10));
                    assert_ne!(
                        det,
                        Gf2_8::zero(),
                        "Vandermonde 2×2 singular at s=({s0},{s1}) c=({c1},{c2})"
                    );
                }
            }
        }
    }
}

fn payload(len: usize) -> Vec<u8> {
    (0..len).map(|i| ((i * 7 + 13) & 0xFF) as u8).collect()
}

#[test]
fn gf2_8_acc_all_coefficients() {
    for coef in 0u8..=255 {
        let src = payload(256);
        let mut s = vec![0u8; 256];
        let mut r = vec![0u8; 256];
        mul_acc_gf2_8(&mut s, &src, coef);
        mul_acc_gf2_8_reference(&mut r, &src, coef);
        assert_eq!(s, r, "coef={coef}");
    }
}

#[test]
fn gf2_8_scale_all_coefficients() {
    for coef in 0u8..=255 {
        let data = payload(256);
        let mut s = data.clone();
        let mut r = data.clone();
        mul_scale_gf2_8(&mut s, coef);
        mul_scale_gf2_8_reference(&mut r, coef);
        assert_eq!(s, r, "coef={coef}");
    }
}

#[test]
fn gf2_4_acc_all_coefficients() {
    for coef in 0u8..=255 {
        let src = payload(256);
        let mut s = vec![0u8; 256];
        let mut r = vec![0u8; 256];
        mul_acc_gf2_4(&mut s, &src, coef);
        mul_acc_gf2_4_reference(&mut r, &src, coef);
        assert_eq!(s, r, "coef={coef}");
    }
}

#[test]
fn tail_bytes_all_lengths_1_to_63() {
    let src: Vec<u8> = (0..64).collect();
    for len in 1..=63 {
        let mut a = vec![0u8; len];
        let mut b = vec![0u8; len];
        mul_acc_gf2_8(&mut a, &src[..len], 0xAB);
        mul_acc_gf2_8_reference(&mut b, &src[..len], 0xAB);
        assert_eq!(a, b, "len={len}");
    }
}

#[test]
fn avx2_chunks_and_tail() {
    let src = payload(33);
    let mut a = vec![0u8; 33];
    let mut b = vec![0u8; 33];
    mul_acc_gf2_8(&mut a, &src, 0x7F);
    mul_acc_gf2_8_reference(&mut b, &src, 0x7F);
    assert_eq!(a, b);
}

#[test]
fn coef_zero_noop() {
    let src = payload(64);
    let mut dst = vec![0xABu8; 64];
    let orig = dst.clone();
    mul_acc_gf2_8(&mut dst, &src, 0);
    assert_eq!(dst, orig);
}

#[test]
fn coef_zero_scale_zeros() {
    let mut buf = payload(64);
    mul_scale_gf2_8(&mut buf, 0);
    assert!(buf.iter().all(|&b| b == 0));
}

#[test]
fn products_have_exact_values() {
    // x * x^7 = x^8 = x^4 + x^3 + x^2 + 1 in GF(2^8)
    assert_eq!(Gf2_8::new(0x02).mul(Gf2_8::new(0x80)).to_u8(), 0x1D);
    // x * x^3 = x^4 = x + 1 in GF(2^4)
    assert_eq!(Gf2_4::from_u8(0x2).mul(Gf2_4::from_u8(0x8)).to_u8(), 0x3);
    assert_eq!(gf_mul(0x02, 0x80, Kind::Gf2_8), 0x1D);
    assert_eq!(gf_mul(0x2, 0x8, Kind::Gf2_4), 0x3);
    assert_eq!(Gf2_8::new(6).div(Gf2_8::new(3)).to_u8(), 2);
}

#[test]
fn zero_has_no_inverse() {
    assert!(matches!(gf_inv(0, Kind::Gf2_8), Err(DelpError::DivisionByZero)));
    assert!(matches!(gf_inv(0, Kind::Gf2_4), Err(DelpError::DivisionByZero)));
    assert_eq!(gf_inv(2, Kind::Gf2_8).unwrap(), 0x8E);
    assert_eq!(gf_inv(2, Kind::Gf2_4).unwrap(), 9);
}

#[test]
fn multiplication_is_associative() {
    for a in (0u8..=255).step_by(7) {
        for b in (0u8..=255).step_by(5) {
            for c in (0u8..=255).step_by(11) {
                let fa = Gf2_8::from_u8(a);
                let fb = Gf2_8::from_u8(b);
                let fc = Gf2_8::from_u8(c);
                assert_eq!(fa.mul(fb).mul(fc), fa.mul(fb.mul(fc)));
            }
        }
    }
}

#[test]
fn scaling_matches_accumulation() {
    for coef in 0u8..16 {
        for len in [0usize, 1, 2, 15, 16, 17, 63, 200] {
            let data = payload(len);
            let mut scaled = data.clone();
            mul_scale_gf2_4(&mut scaled, coef);
            let mut acc = vec![0u8; len];
            mul_acc_gf2_4(&mut acc, &data, coef);
            assert_eq!(scaled, acc, "coef={coef} len={len}");
        }
    }
}

#[test]
fn kernels_scale_both_nibbles() {
    let mut dst = vec![0u8; 2];
    mul_acc(Kind::Gf2_4, &mut dst, &[0x12, 0x84], 2);
    assert_eq!(dst, vec![0x24, 0x38]);
    mul_scale(Kind::Gf2_4, &mut dst, 0);
    assert_eq!(dst, vec![0, 0]);
    let mut one = vec![5u8, 6, 7];
    mul_acc(Kind::Gf2_8, &mut one, &[1, 1, 1], 1);
    assert_eq!(one, vec![4, 7, 6]);
}
