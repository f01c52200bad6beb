use cdm_oprf::f3::F3;
use cdm_oprf::f64t::F64t;

fn thread_rng() -> rand::rngs::StdRng {
    <rand::rngs::StdRng as rand::SeedableRng>::from_entropy()
}

fn mul(a: F64t, b: F64t) -> F64t {
    a.mul(&b)
}

#[test]
fn test_mul_small() {
    let a = F64t { msb: 0b0, lsb: 0b10 };
    let b = F64t { msb: 0b0, lsb: 0b10 };
    let c = mul(a, b);
    assert_eq!(c, F64t { msb: 0b0, lsb: 0b100 })
}

#[test]
fn f64t_test_mul() {
    // 2x^3+ 2x^2 +x
    let a = F64t { msb: 0b0010, lsb: 0b1100 };
    // 2x^3 + x^2 + 2x
    let b = F64t { msb: 0b100, lsb: 0b10000 };
    let c = mul(a, b);
    assert_eq!(c, F64t { msb: 0b10000, lsb: 0b11101000 })
}

#[test]
fn f64t_test_mul_reduce_1() {
    let a = F64t { msb: 0, lsb: 1 << 63 };
    let b = F64t { msb: 0, lsb: 0b10 };
    assert_eq!(mul(a, b), F64t { msb: 0b1000, lsb: 1 });
}

#[test]
fn f64t_test_mul_reduce_multiple() {
    let a = F64t { msb: 0, lsb: 1 << 63 };
    let b = F64t { msb: 0, lsb: 0b110 };
    assert_eq!(mul(a, b), F64t { msb: 0b11000, lsb: 0b11 });
}

#[test]
fn f64t_test_mul_reduce_1_msb() {
    let a = F64t { msb: 1 << 63, lsb: 0 };
    let b = F64t { msb: 0b10, lsb: 0 };
    assert_eq!(mul(a, b), F64t { msb: 0b1000, lsb: 1 });
}

#[test]
fn test_mul_reduce_1_mix() {
    let a = F64t { msb: 1 << 63, lsb: 0 };
    let b = F64t { msb: 0, lsb: 0b10 };
    assert_eq!(mul(a, b), F64t { msb: 1, lsb: 0b1000 });
}

#[test]
fn test_mul_reduce_degree_124() {
    let a = F64t { msb: 1 << 63, lsb: 0 };
    let b = F64t { msb: 0, lsb: 1 << 61 };
    assert_eq!(mul(a, b), F64t { msb: 1 << 60, lsb: 1 << 63 });
}

#[test]
fn test_mul_reduce_degree_125_2() {
    let a = F64t { msb: 1 << 63, lsb: 0 };
    let b = F64t { msb: 0, lsb: 1 << 62 };
    assert_eq!(mul(a, b), F64t { msb: (1 << 61) + 0b1000, lsb: 1 });
}

#[test]
fn test_mul_reduce_degree_125_1() {
    let a = F64t { msb: 0, lsb: 1 << 63 };
    let b = F64t { msb: 0, lsb: 1 << 62 };
    assert_eq!(mul(a, b), F64t { msb: 1, lsb: (1 << 61) + 0b1000 });
}

#[test]
fn test_mul_reduce_degree_126_1() {
    let a = F64t { msb: 0, lsb: 1 << 63 };
    let b = F64t { msb: 0, lsb: 1 << 63 };
    assert_eq!(mul(a, b), F64t { msb: 0b10, lsb: (1 << 62) + 0b10000 });
}

#[test]
fn test_mul_reduce_degree_126_2() {
    let a = F64t { msb: 0, lsb: 1 << 63 };
    let b = F64t { msb: 1 << 63, lsb: 0 };
    assert_eq!(mul(a, b), F64t { msb: (1 << 62) + 0b10000, lsb: 0b10 });
}

#[test]
fn f64t_test_mul_inverse() {
    let a = F64t { msb: 0, lsb: 0b10 };
    let b = a.inverse();
    assert_eq!(mul(a, b), F64t::one());
}

#[test]
fn test_decompose_compose() {
    let a = F64t { msb: 0, lsb: 0b10 };
    let b = F64t::decompose_superfield(&a);
    let c = F64t::form_superfield(&b);
    assert_eq!(a, c);
}

#[test]
fn f64t_test_generator() {
    let a = F64t::generator();
    let prime_factors: Vec<u128> = vec![274177, 6700417, 641, 65537, 257, 17, 5, 3];
    for p in prime_factors.iter() {
        let p = *p;
        assert_ne!(F64t::one(), a.pow(p));
    }
    let base: u128 = 3;
    let order = base.pow(64) - 1;
    assert_eq!(F64t::one(), a.pow(order));
}

#[test]
fn test_generator_unique() {
    for _ in 0..100 {
        let x = F64t::random(&mut thread_rng());
        let subfield = F64t::decompose_superfield(&x);
        let mut y = F64t::zero();
        for i in 0..64 {
            let term = F64t::scale(subfield[i], &F64t::generator().pow(i as u128));
            y.add_assign(&term);
        }
        assert_eq!(x, y);
    }
}

#[test]
fn f64t_add_sub_neg() {
    // (2x + 1) + (x + 2) = 0
    let a = F64t { msb: 0b10, lsb: 0b01 };
    let b = F64t { msb: 0b01, lsb: 0b10 };
    assert_eq!(a.add(&b), F64t::zero());
    assert_eq!(a.neg(), b);
    assert_eq!(a.sub(&a), F64t::zero());
    assert_eq!(a.sub(&b), F64t { msb: 0b01, lsb: 0b10 });
}

#[test]
fn f64t_scale_and_embed() {
    let two = F3 { msb: 1, lsb: 0 };
    let a = F64t { msb: 0b10, lsb: 0b01 };
    assert_eq!(F64t::scale(two, &a), F64t { msb: 0b01, lsb: 0b10 });
    assert_eq!(F64t::scale(F3::zero(), &a), F64t::zero());
    assert_eq!(F64t::from_f3(two), F64t { msb: 1, lsb: 0 });
}

#[test]
fn f64t_bytes_roundtrip() {
    let a = F64t { msb: 0x0102030405060708, lsb: 0x1000000000000000 };
    let bytes = a.to_bytes();
    assert_eq!(bytes[0], 0x08);
    assert_eq!(bytes[15], 0x10);
    assert_eq!(F64t::from_bytes(&bytes), a);
}

#[test]
fn f64t_bit_decomposition() {
    let a = F64t { msb: 0b10, lsb: 0b01 };
    let bits = a.bit_decomposition();
    assert_eq!(bits.len(), 128);
    assert!(bits[0]);
    assert!(!bits[1]);
    assert!(!bits[2]);
    assert!(bits[3]);
}

#[test]
fn f64t_from_uniform_bytes() {
    // first byte: groups (low bits first) 3, 2, 1, 0 -> coefficients of x^63..x^60: 0, 2, 1, 0
    let mut x = [0u8; 16];
    x[0] = 0b00_01_10_11;
    let a = F64t::from_uniform_bytes(&x);
    assert_eq!(a, F64t { msb: 1 << 62, lsb: 1 << 61 });
}

#[test]
fn f64t_compute_vector() {
    let arr = [F3::one(), F3::generator(), F3::zero(), F3::one(), F3::one()];
    let v = vec![
        F64t { msb: 0, lsb: 1 },
        F64t { msb: 0, lsb: 1 },
        F64t { msb: 0, lsb: 2 },
        F64t { msb: 4, lsb: 0 },
        F64t { msb: 8, lsb: 0 },
    ];
    // 1 + 2 + 0 + 2x^2 = 2x^2 (the fifth term is past 4 * (5 / 4))
    assert_eq!(F64t::compute_vector(arr, &v), F64t { msb: 4, lsb: 0 });
}

#[test]
fn f64t_ct_eq_and_select() {
    let a = F64t::one();
    let b = F64t::generator();
    assert_eq!(a.ct_eq(&a), 1);
    assert_eq!(a.ct_eq(&b), 0);
    assert_eq!(F64t::conditional_select(&a, &b, 0), a);
    assert_eq!(F64t::conditional_select(&a, &b, 1), b);
}

#[test]
fn f64t_from_f3_embeds_constants() {
    for v in 0..3u8 {
        let x = F3::try_from(v).unwrap();
        let e: F64t = x.into();
        assert_eq!(e, F64t::from_f3(x));
    }
    let two: F64t = F3::try_from(2).unwrap().into();
    assert_eq!(two.add(&two), F64t::one());
}

#[test]
fn f64t_multiplication_is_commutative_and_associative() {
    let mut rng = thread_rng();
    for _ in 0..20 {
        let a = F64t::random(&mut rng);
        let b = F64t::random(&mut rng);
        let c = F64t::random(&mut rng);
        assert_eq!(a.mul(&b), b.mul(&a));
        assert_eq!(a.mul(&b).mul(&c), a.mul(&b.mul(&c)));
        assert_eq!(a.mul(&F64t::one()), a);
        assert_eq!(a.mul(&b.add(&c)), a.mul(&b).add(&a.mul(&c)));
    }
}
