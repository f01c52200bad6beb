use cdm_oprf::f256b::F256b;
use cdm_oprf::f3::F3;
use cdm_oprf::f82t::F82t;
use cdm_oprf::oprf_types::{MacProver, MacVerifier, OPRFSharing};
use cdm_oprf::vole_util::{
    lift_array, lift_prover_vole, lift_sharing, lift_verifier_vole, open_extension_mac_prover,
    open_extension_mac_verifier,
};

fn thread_rng() -> rand::rngs::StdRng {
    <rand::rngs::StdRng as rand::SeedableRng>::from_entropy()
}

fn small(x: u128) -> F256b {
    F256b { high: 0, low: x }
}

#[test]
fn lift_array_small_values() {
    // 1 + 0 x + 1 x^2, 3 + 1 x, 5 x^2
    let (v, m, k) = lift_array::<3>(
        vec![small(1), small(0), small(1)],
        vec![small(3), small(1), small(0)],
        vec![small(0), small(0), small(5)],
    );
    assert_eq!(v, small(0b101));
    assert_eq!(m, small(3 ^ 2));
    assert_eq!(k, small(5 << 2));
}

#[test]
fn lift_array_single_is_identity() {
    let a = F256b { high: 7, low: 9 };
    let (v, m, k) = lift_array::<1>(vec![a], vec![a], vec![a]);
    assert_eq!((v, m, k), (a, a, a));
}

#[test]
fn test_lift() {
    let mut rng = thread_rng();
    let delta = F256b::random(&mut rng);
    let bits = [true, false, true, true, false, true, false, false];
    let mut values = Vec::new();
    let mut macs = Vec::new();
    let mut keys = Vec::new();
    for &b in bits.iter() {
        let v = if b { F256b::one() } else { F256b::zero() };
        let k = F256b::random(&mut rng);
        values.push(v);
        keys.push(k);
        macs.push(k.add(&delta.mul(&v)));
    }
    let (v, m, k) = lift_array::<8>(values, macs, keys);
    assert_eq!(m, k.add(&delta.mul(&v)));
}

#[test]
fn lift_array_keeps_the_mac_relation_for_field_values() {
    let mut rng = thread_rng();
    let delta = F256b::random(&mut rng);
    let mut values = Vec::new();
    let mut macs = Vec::new();
    let mut keys = Vec::new();
    for _ in 0..16 {
        let v = F256b::random(&mut rng);
        let k = F256b::random(&mut rng);
        values.push(v);
        keys.push(k);
        macs.push(k.add(&delta.mul(&v)));
    }
    let (v, m, k) = lift_array::<16>(values, macs, keys);
    assert_eq!(m, k.add(&delta.mul(&v)));
}

#[test]
fn lift_sharing_takes_the_group() {
    let zero3 = F3::zero();
    let zero82 = F82t::zero();
    let mut sharing = Vec::new();
    for i in 0..6u128 {
        let bit = i % 2 == 1;
        let bin = OPRFSharing(bit, MacProver(bit, small(i + 10)), MacVerifier(small(i + 20)));
        let ter = OPRFSharing(zero3, MacProver(zero3, zero82), MacVerifier(zero82));
        sharing.push((bin, ter));
    }
    // group 1 of size 3 is pairs 3, 4, 5 with bits 1, 0, 1
    let (v, m, k) = lift_sharing::<3>(1, &sharing);
    assert_eq!(v, small(0b101));
    assert_eq!(m, small(13 ^ (14 << 1) ^ (15 << 2)));
    assert_eq!(k, small(23 ^ (24 << 1) ^ (25 << 2)));
}

#[test]
fn lift_prover_vole_small_values() {
    let (v, m) = lift_prover_vole(&vec![true, false, true], &vec![small(3), small(1), small(0)]);
    assert_eq!(v, small(0b101));
    assert_eq!(m, small(3 ^ 2));
    assert_eq!(lift_verifier_vole(&vec![small(0), small(0), small(5)]), small(5 << 2));
}

#[test]
fn lifted_random_voles_keep_the_mac_relation() {
    let mut rng = thread_rng();
    let delta = F256b::random(&mut rng);
    let mut bits = Vec::new();
    let mut macs = Vec::new();
    let mut keys = Vec::new();
    for i in 0..256 {
        let b = (i * 7 + 3) % 5 < 2;
        let k = F256b::random(&mut rng);
        bits.push(b);
        keys.push(k);
        macs.push(if b { k.add(&delta) } else { k });
    }
    let (v, m) = lift_prover_vole(&bits, &macs);
    let k = lift_verifier_vole(&keys);
    assert_eq!(m, k.add(&delta.mul(&v)));
    // the value has the bits as coefficients
    let coefficients = v.bit_decomposition();
    assert_eq!(coefficients, bits);
}

#[test]
fn opening_with_extension_macs() {
    let mut rng = thread_rng();
    let delta = F256b::random(&mut rng);
    let mut values = Vec::new();
    let mut keys = Vec::new();
    let mut macs = Vec::new();
    let mut chis = Vec::new();
    for _ in 0..10 {
        let x = F256b::random(&mut rng);
        let k = F256b::random(&mut rng);
        values.push(x);
        keys.push(k);
        macs.push(k.add(&delta.mul(&x)));
        chis.push(F256b::random(&mut rng));
    }
    let m = open_extension_mac_prover(&chis, &macs);
    assert!(open_extension_mac_verifier(&chis, &keys, &values, delta, m));
    let mut forged = values.clone();
    forged[3] = forged[3].add(&F256b::one());
    assert!(!open_extension_mac_verifier(&chis, &keys, &forged, delta, m));
}

#[test]
fn opening_with_concrete_challenge() {
    // one value 1 with key 0 and delta x: the MAC is x, the challenge 1
    let x = small(2);
    let m = open_extension_mac_prover(&vec![F256b::one()], &vec![x]);
    assert_eq!(m, x);
    assert!(open_extension_mac_verifier(&vec![F256b::one()], &vec![F256b::zero()], &vec![F256b::one()], x, m));
    assert!(!open_extension_mac_verifier(&vec![F256b::one()], &vec![F256b::zero()], &vec![F256b::zero()], x, m));
}
