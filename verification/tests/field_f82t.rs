use cdm_oprf::f82t::F82t;

fn thread_rng() -> rand::rngs::StdRng {
    <rand::rngs::StdRng as rand::SeedableRng>::from_entropy()
}

const BASE: F82t = F82t { msb: 0b0100, lsb: 0b0001 };

fn mul(a: F82t, b: F82t) -> F82t {
    a.mul(&b)
}

#[test]
fn test_mul_identity() {
    let a = F82t { msb: 0, lsb: (1 << 81) + (1 << 30) };
    let b = F82t { msb: 0, lsb: 0b1 };
    assert_eq!(mul(a, b), F82t { msb: 0, lsb: (1 << 81) + (1 << 30) });
}

#[test]
fn test_mul_two() {
    let a = F82t { msb: 0, lsb: (1 << 80) + (1 << 30) };
    let b = F82t { msb: 0, lsb: 0b10 };
    assert_eq!(mul(b, a), F82t { msb: 0, lsb: (1 << 81) + (1 << 31) });
}

#[test]
fn test_mul_three() {
    let a = F82t { msb: 0, lsb: (1 << 79) + (1 << 30) };
    let b = F82t { msb: 0, lsb: 0b100 };
    assert_eq!(mul(a, b), F82t { msb: 0, lsb: (1 << 81) + (1 << 32) });
}

#[test]
fn test_mul_sixty() {
    let a = F82t { msb: 0, lsb: 1 << 79 };
    let b = F82t { msb: 0, lsb: 1 << 60 };
    assert_eq!(mul(b, a), F82t { msb: 1 << 57, lsb: 1 << 59 });
}

#[test]
fn f82t_test_mul_reduce_1() {
    let a = F82t { msb: 0, lsb: 1 << 81 };
    let b = F82t { msb: 0, lsb: 0b10 };
    assert_eq!(mul(a, b), BASE.neg());
}

#[test]
fn f82t_test_mul_reduce_multiple() {
    let a = F82t { msb: 0, lsb: 1 << 81 };
    let b = F82t { msb: 0, lsb: 0b110 };
    assert_eq!(mul(a, b), F82t { msb: 0b011, lsb: 0b1100 });
}

#[test]
fn f82t_test_mul_reduce_1_msb() {
    let a = F82t { msb: 1 << 81, lsb: 0 };
    let b = F82t { msb: 0, lsb: 0b10 };
    assert_eq!(mul(a, b), BASE);
}

#[test]
fn test_mul_reduce_1_double_msb() {
    let a = F82t { msb: 1 << 81, lsb: 0 };
    let b = F82t { msb: 0b10, lsb: 0 };
    assert_eq!(mul(a, b), BASE.neg());
}

#[test]
fn test_mul_reduce_max() {
    let a = F82t { msb: 0, lsb: 1 << 81 };
    let b = F82t { msb: 0, lsb: 1 << 81 };
    assert_eq!(mul(a, b), F82t { msb: (1 << 80) + 1, lsb: 0b0100 });
}

#[test]
fn test_mul_reduce_max_msb() {
    let a = F82t { msb: 1 << 81, lsb: 0 };
    let b = F82t { msb: 1 << 81, lsb: 0 };
    assert_eq!(mul(a, b), F82t { msb: (1 << 80) + 1, lsb: 0b0100 });
}

#[test]
fn test_mul_reduce_max_diff() {
    let a = F82t { msb: 1 << 81, lsb: 0 };
    let b = F82t { msb: 0, lsb: 1 << 81 };
    assert_eq!(mul(a, b), F82t { msb: 0b100, lsb: (1 << 80) + 1 });
}

#[test]
fn test_mul_reduce_deg_minus_1() {
    let a = F82t { msb: 0, lsb: 1 << 81 };
    let b = F82t { msb: 0, lsb: 1 << 80 };
    assert_eq!(mul(a, b), F82t { msb: 1 << 79, lsb: 1 << 81 });
}

#[test]
fn test_mul_reduce_max_once() {
    let a = F82t { msb: 0, lsb: 1 << 80 };
    let b = F82t { msb: 0, lsb: 1 << 80 };
    assert_eq!(mul(a, b), F82t { msb: 1 << 78, lsb: 1 << 80 });
}

#[test]
fn test_mul_reduce_max_multiple() {
    let a = F82t { msb: 0, lsb: (1 << 81) + (1 << 80) };
    let b = F82t { msb: 0, lsb: 1 << 81 };
    assert_eq!(mul(a, b), F82t { msb: (1 << 80) + (1 << 79) + 1, lsb: (1 << 81) + (1 << 2) });
}

#[test]
fn test_mul_assoc() {
    let a = F82t { msb: 1 << 73, lsb: 1 << 81 };
    let b = F82t { msb: 1 << 2, lsb: 1 << 80 };
    let c = F82t { msb: 1 << 30, lsb: 1 << 79 };
    assert_eq!(mul(mul(a, b), c), mul(a, mul(b, c)));
}

#[test]
fn f82t_test_mul_inverse() {
    let a = F82t { msb: 0, lsb: 0b10 };
    let b = a.inverse();
    assert_eq!(mul(a, b), F82t::one());
}

#[test]
fn f82t_inverse_of_random_elements() {
    let mut rng = thread_rng();
    for _ in 0..3 {
        let a = F82t::random(&mut rng);
        if a != F82t::zero() {
            assert_eq!(mul(a, a.inverse()), F82t::one());
        }
    }
}

#[test]
fn f82t_decompose_compose_and_bytes() {
    let a = F82t { msb: (1 << 81) + 4, lsb: 3 };
    let parts = F82t::decompose_superfield(&a);
    assert_eq!(parts.len(), 82);
    assert_eq!(parts[81].to_u8(), 2);
    assert_eq!(parts[0].to_u8(), 1);
    assert_eq!(parts[2].to_u8(), 2);
    assert_eq!(F82t::form_superfield(&parts), a);
    let bytes = a.to_bytes();
    assert_eq!(bytes[16], 3);
    assert_eq!(F82t::from_bytes(&bytes), a);
    assert_eq!(a.bit_decomposition().len(), 164);
}

#[test]
fn f82t_ct_eq_and_select() {
    let a = F82t::one();
    let b = F82t::generator();
    assert_eq!(a.ct_eq(&a), 1);
    assert_eq!(a.ct_eq(&b), 0);
    assert_eq!(F82t::conditional_select(&a, &b, 0), a);
    assert_eq!(F82t::conditional_select(&a, &b, 1), b);
}

#[test]
fn f82t_from_f3_embeds_constants() {
    for v in 0..3u8 {
        let x = cdm_oprf::f3::F3::try_from(v).unwrap();
        let e: F82t = x.into();
        assert_eq!(e, F82t::from_f3(x));
    }
    let one: F82t = cdm_oprf::f3::F3::one().into();
    assert_eq!(one, F82t::one());
}

#[test]
fn f82t_multiplication_is_commutative_and_associative() {
    let mut rng = thread_rng();
    for _ in 0..20 {
        let a = F82t::random(&mut rng);
        let b = F82t::random(&mut rng);
        let c = F82t::random(&mut rng);
        assert_eq!(a.mul(&b), b.mul(&a));
        assert_eq!(a.mul(&b).mul(&c), a.mul(&b.mul(&c)));
        assert_eq!(a.mul(&F82t::one()), a);
        assert_eq!(a.mul(&b.add(&c)), a.mul(&b).add(&a.mul(&c)));
    }
}
