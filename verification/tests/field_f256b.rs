use cdm_oprf::f256b::F256b;

fn thread_rng() -> rand::rngs::StdRng {
    <rand::rngs::StdRng as rand::SeedableRng>::from_entropy()
}

#[test]
fn test_pow_mul() {
    let mut a = F256b { high: 1, low: 1 };
    let b = F256b { high: 0, low: 2 };
    assert_eq!(a.mul(&b), a.pow_mul(1));
}

#[test]
fn test_pow_mul2() {
    let mut a = F256b { high: 1, low: 1 };
    let b = F256b { high: 0, low: 4 };
    assert_eq!(a.mul(&b), a.pow_mul(2));
}

#[test]
fn test_pow_mul3() {
    let mut a = F256b { high: 1, low: 1 };
    let b = F256b { high: 1, low: 0 };
    assert_eq!(a.mul(&b), a.pow_mul(128));
}

#[test]
fn test_pow_mul4() {
    let mut a = F256b { high: 1, low: 1 };
    let b = F256b { high: 2, low: 0 };
    assert_eq!(a.mul(&b), a.pow_mul(129));
}

#[test]
fn f256b_reduction_of_top_bit() {
    // x^255 * x = x^256 = x^10 + x^5 + x^2 + 1
    let mut a = F256b { high: 1 << 127, low: 0 };
    a.shift_left_once();
    assert_eq!(a, F256b { high: 0, low: 0x425 });
}

#[test]
fn f256b_inverse() {
    let mut rng = thread_rng();
    for _ in 0..2 {
        let a = F256b::random(&mut rng);
        assert_eq!(a.mul(&a.inverse()), F256b::one());
    }
    let x = F256b::generator();
    assert_eq!(x.square(), F256b { high: 0, low: 4 });
}

#[test]
fn f256b_bytes() {
    let a = F256b { high: 5, low: 7 };
    let bytes = a.to_bytes();
    assert_eq!(bytes[0], 5);
    assert_eq!(bytes[16], 7);
    assert_eq!(F256b::from_bytes(&bytes), a);
    let u = F256b::from_uniform_bytes(&[1u8; 16]);
    assert_eq!(u.high, u.low);
    assert_eq!(a.add(&a), F256b::zero());
    let bits = a.bit_decomposition();
    assert!(bits[0] && bits[1] && bits[2] && !bits[3]);
    assert!(bits[128] && !bits[129] && bits[130]);
}

#[test]
fn f256b_superfield_roundtrip_and_select() {
    let a = F256b { high: 0x8000_0000_0000_0000_0000_0000_0000_0001, low: 6 };
    let bits = F256b::decompose_superfield(&a);
    assert_eq!(bits.len(), 256);
    assert!(!bits[0] && bits[1] && bits[2] && bits[128] && bits[255]);
    assert_eq!(F256b::form_superfield(&bits), a);
    let b = F256b::one();
    assert_eq!(a.ct_eq(&a), 1);
    assert_eq!(a.ct_eq(&b), 0);
    assert_eq!(F256b::conditional_select(&a, &b, 1), b);
    assert_eq!(F256b::conditional_select(&a, &b, 0), a);
}

#[test]
fn f256b_from_bit() {
    let one: F256b = true.into();
    let zero: F256b = false.into();
    assert_eq!(one, F256b::one());
    assert_eq!(zero, F256b::zero());
}

#[test]
fn f256b_multiplication_is_commutative_and_associative() {
    let mut rng = thread_rng();
    for _ in 0..20 {
        let a = F256b::random(&mut rng);
        let b = F256b::random(&mut rng);
        let c = F256b::random(&mut rng);
        assert_eq!(a.mul(&b), b.mul(&a));
        assert_eq!(a.mul(&b).mul(&c), a.mul(&b.mul(&c)));
        assert_eq!(a.mul(&F256b::one()), a);
        assert_eq!(a.mul(&b.add(&c)), a.mul(&b).add(&a.mul(&c)));
    }
}
