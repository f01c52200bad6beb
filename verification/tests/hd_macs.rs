use cdm_oprf::f61p::F61p;
use cdm_oprf::hd_quicksilver::{
    qs_prover_mask, qs_range_check_prepare, qs_verifier_mask, HDMacProver, HDMacVerifier,
    QSStateProver, QSStateVerifier,
};
use cdm_oprf::poly61::GeneralPolynomial;

fn thread_rng() -> rand::rngs::StdRng {
    <rand::rngs::StdRng as rand::SeedableRng>::from_entropy()
}

fn auth(delta: F61p, x: F61p) -> (HDMacProver, HDMacVerifier) {
    let v = F61p::random(&mut thread_rng());
    (
        HDMacProver::from_mac(x, v.neg()),
        HDMacVerifier::from_mac(delta.mul(&x).add(&v).neg()),
    )
}

fn fe(x: u128) -> F61p {
    F61p::try_from(x).unwrap()
}

#[test]
fn test_hdmacs() {
    let delta = F61p::random(&mut thread_rng());
    let a = fe(3);
    let b = fe(4);
    let (a_p, a_v) = auth(delta, a);
    let (b_p, b_v) = (
        HDMacProver::new_constant(b),
        HDMacVerifier::new_constant(delta, b),
    );
    let (c_p, c_v) = auth(delta, a.mul(&b));
    let (d_p, d_v) = {
        let mut t_p = a_p.clone();
        let mut t_v = a_v.clone();
        t_p.mul_assign(&b_p);
        t_v.mul_assign(&b_v);
        (t_p, t_v)
    };
    let (e_p, e_v) = {
        let mut t_p = d_p.clone();
        let mut t_v = d_v.clone();
        t_p.sub_assign(&c_p);
        t_v.sub_assign(delta, &c_v);
        (t_p, t_v)
    };
    let (f_p, f_v) = {
        let mut t_p = d_p.clone();
        let mut t_v = d_v.clone();
        t_p.mul_assign(&c_p);
        t_v.mul_assign(&c_v);
        (t_p, t_v)
    };
    let (g_p, g_v) = {
        let mut t_p = f_p.clone();
        let mut t_v = f_v.clone();
        t_p.mul_assign_constant(F61p::one().neg());
        t_v.mul_assign_constant(F61p::one().neg());
        t_p.add_assign_constant(fe(144));
        t_v.add_assign_constant(delta, fe(144));
        (t_p, t_v)
    };

    assert_eq!(d_p.poly.get(0), a_p.poly.get(0).mul(&b_p.poly.get(0)));
    assert_eq!(
        d_p.poly.get(1),
        a_p.poly.get(1).mul(&b_p.poly.get(0)).add(&a_p.poly.get(0).mul(&b_p.poly.get(1)))
    );
    assert_eq!(d_p.poly.get(2), a_p.poly.get(1).mul(&b_p.poly.get(1)));
    assert_eq!(e_p.poly.get(0), d_p.poly.get(0));
    assert_eq!(e_p.poly.get(1), d_p.poly.get(1).sub(&c_p.poly.get(0)));
    assert_eq!(e_p.poly.get(2), d_p.poly.get(2).sub(&c_p.poly.get(1)));

    assert_eq!(d_p.poly.get(2), a.mul(&b));
    assert_eq!(e_p.poly.get(2), F61p::zero());
    assert_eq!(f_p.poly.get(3), fe(144));
    assert_eq!(g_p.poly.get(3), F61p::zero());

    assert_eq!(a_p.qs_degree, 1);
    assert_eq!(a_v.qs_degree, 1);
    assert_eq!(b_p.qs_degree, 1);
    assert_eq!(b_v.qs_degree, 1);
    assert_eq!(c_p.qs_degree, 1);
    assert_eq!(c_v.qs_degree, 1);
    assert_eq!(d_p.qs_degree, 2);
    assert_eq!(d_v.qs_degree, 2);
    assert_eq!(e_p.qs_degree, 2);
    assert_eq!(e_v.qs_degree, 2);
    assert_eq!(f_p.qs_degree, 3);
    assert_eq!(f_v.qs_degree, 3);
    assert_eq!(g_p.qs_degree, 3);
    assert_eq!(g_v.qs_degree, 3);

    assert_eq!(a_p.poly.eval(delta), a_v.mac);
    assert_eq!(b_p.poly.eval(delta), b_v.mac);
    assert_eq!(c_p.poly.eval(delta), c_v.mac);
    assert_eq!(d_p.poly.eval(delta), d_v.mac);
    assert_eq!(e_p.poly.eval(delta), e_v.mac);
    assert_eq!(f_p.poly.eval(delta), f_v.mac);
    assert_eq!(g_p.poly.eval(delta), g_v.mac);
}

#[test]
fn test_hdqs() {
    let mut rng = thread_rng();
    let delta = F61p::random(&mut rng);
    let chi = F61p::random(&mut rng);
    let mut qs_prover = QSStateProver::init_with_chi(chi);
    let mut qs_verifier = QSStateVerifier::init_with_delta_and_chi(delta, chi);

    let n = 10;

    for _ in 0..n {
        let a = F61p::random(&mut rng);
        let b = F61p::random(&mut rng);
        let (mut a_p, mut a_v) = auth(delta, a);
        let (b_p, b_v) = auth(delta, b);
        let (c_p, c_v) = auth(delta, a.mul(&b));
        qs_prover.check_mult(&a_p, &b_p, &c_p);
        qs_verifier.check_mult(&a_v, &b_v, &c_v);
        a_p.mul_assign(&b_p);
        a_v.mul_assign(&b_v);
        a_p.sub_assign(&c_p);
        a_v.sub_assign(delta, &c_v);
        qs_prover.check_zero(&a_p);
        qs_verifier.check_zero(&a_v);
    }
    assert_eq!(qs_prover.count(), 2 * n);
    assert_eq!(qs_verifier.count(), 2 * n);
    assert_eq!(qs_prover.state_degree(), 2);
    assert_eq!(qs_verifier.state_degree(), 2);

    for _ in 0..n {
        let a = F61p::random(&mut rng);
        let b = F61p::random(&mut rng);
        let c = F61p::random(&mut rng);
        let (mut a_p, mut a_v) = auth(delta, a);
        let (b_p, b_v) = auth(delta, b);
        let (c_p, c_v) = auth(delta, c);
        let (d_p, d_v) = auth(delta, a.mul(&b).mul(&c));
        a_p.mul_assign(&b_p);
        a_v.mul_assign(&b_v);
        a_p.mul_assign(&c_p);
        a_v.mul_assign(&c_v);
        a_p.sub_assign(&d_p);
        a_v.sub_assign(delta, &d_v);
        qs_prover.check_zero(&a_p);
        qs_verifier.check_zero(&a_v);
    }
    assert_eq!(qs_prover.count(), 3 * n);
    assert_eq!(qs_verifier.count(), 3 * n);
    assert_eq!(qs_prover.state_degree(), 3);
    assert_eq!(qs_verifier.state_degree(), 3);

    let mask_p = GeneralPolynomial::random(&mut rng, 2);
    let mask_v = mask_p.eval(delta);
    let qs_proof = qs_prover.finalize_with_mask(mask_p);
    let verified = qs_verifier.finalize_with_mask_and_verify(mask_v, &qs_proof);
    assert!(verified);
}

#[test]
fn test_hdqs_pow2_range() {
    let mut rng = thread_rng();
    let delta = F61p::random(&mut rng);
    let chi = F61p::random(&mut rng);
    let mut qs_prover = QSStateProver::init_with_chi(chi);
    let mut qs_verifier = QSStateVerifier::init_with_delta_and_chi(delta, chi);

    let good = [(0, 6), (1, 6), (42, 6), (63, 6), (255, 8)];

    for (c, bits) in good.iter().copied() {
        let (c_p, c_v) = auth(delta, fe(c));
        qs_prover.check_pow2_range(bits, &c_p);
        qs_verifier.check_pow2_range(bits, &c_v);
    }
    assert_eq!(qs_prover.count(), good.len());
    assert_eq!(qs_verifier.count(), good.len());
    assert_eq!(qs_prover.state_degree(), 256);
    assert_eq!(qs_verifier.state_degree(), 256);

    let mask_p = GeneralPolynomial::random(&mut rng, 255);
    let mask_v = mask_p.eval(delta);
    let qs_proof = qs_prover.finalize_with_mask(mask_p);
    let verified = qs_verifier.finalize_with_mask_and_verify(mask_v, &qs_proof);
    assert!(verified);
}

#[test]
fn hd_xor_of_bits() {
    let delta = F61p::random(&mut thread_rng());
    for (x, y) in [(0u128, 0u128), (0, 1), (1, 0), (1, 1)] {
        let (mut x_p, mut x_v) = auth(delta, fe(x));
        let (y_p, y_v) = auth(delta, fe(y));
        x_p.xor_assign(&y_p);
        x_v.xor_assign(delta, &y_v);
        assert_eq!(x_p.value(), fe(x ^ y));
        assert_eq!(x_p.qs_degree, 2);
        assert_eq!(x_v.qs_degree, 2);
        assert_eq!(x_p.poly.eval(delta), x_v.mac);
    }
}

#[test]
fn hd_lift_to_larger_degree() {
    let delta = F61p::random(&mut thread_rng());
    let (a_p, a_v) = auth(delta, fe(5));
    let (b_p, b_v) = auth(delta, fe(7));
    let (c_p, c_v) = auth(delta, fe(9));
    let mut ab_p = a_p.clone();
    let mut ab_v = a_v;
    ab_p.mul_assign(&b_p);
    ab_v.mul_assign(&b_v);
    let mut s_p = c_p.clone();
    let mut s_v = c_v;
    s_p.add_assign(&ab_p);
    s_v.add_assign(delta, &ab_v);
    assert_eq!(s_p.qs_degree, 2);
    assert_eq!(s_v.qs_degree, 2);
    assert_eq!(s_p.value(), fe(44));
    assert_eq!(s_p.poly.eval(delta), s_v.mac);
    s_p.sub_assign_constant(fe(44));
    s_v.sub_assign_constant(delta, fe(44));
    assert_eq!(s_p.value(), F61p::zero());
    assert_eq!(s_p.poly.eval(delta), s_v.mac);
}

#[test]
fn hd_qs_rejects_wrong_proof() {
    let mut rng = thread_rng();
    let delta = F61p::random(&mut rng);
    let chi = F61p::random(&mut rng);
    let mut qs_prover = QSStateProver::init_with_chi(chi);
    let mut qs_verifier = QSStateVerifier::init_with_delta_and_chi(delta, chi);
    let (a_p, a_v) = auth(delta, fe(0));
    qs_prover.check_zero(&a_p);
    qs_verifier.check_zero(&a_v);
    let mask_p = GeneralPolynomial::random(&mut rng, 0);
    let mask_v = mask_p.eval(delta).add(&F61p::one());
    let qs_proof = qs_prover.finalize_with_mask(mask_p);
    assert!(!qs_verifier.finalize_with_mask_and_verify(mask_v, &qs_proof));
    assert_eq!(qs_verifier.count(), 0);
    assert_eq!(qs_prover.count(), 0);
}

#[test]
fn poly_degree_and_eval() {
    let mut p = GeneralPolynomial::zero();
    assert_eq!(p.degree(), 0);
    p.add_assign(&GeneralPolynomial { constant: fe(1), coefficients: vec![fe(2), fe(0)] });
    assert_eq!(p.degree(), 1);
    // 1 + 2x at x = 10
    assert_eq!(p.eval(fe(10)), fe(21));
    let q = p.clone();
    p.mul_assign(&q);
    // (1 + 2x)^2 = 1 + 4x + 4x^2
    assert_eq!(p.get(0), fe(1));
    assert_eq!(p.get(1), fe(4));
    assert_eq!(p.get(2), fe(4));
    p.shift_mut(2);
    assert_eq!(p.get(0), F61p::zero());
    assert_eq!(p.get(4), fe(4));
    assert_eq!(p.eval(fe(2)), fe(4 * 25));
}

#[test]
fn range_check_parameters() {
    let (m, a, c) = qs_range_check_prepare(-5, 10);
    assert_eq!(m, 4);
    assert_eq!(a, fe(5).neg());
    assert_eq!(c, fe(5));
    let (m, a, c) = qs_range_check_prepare(0, 6);
    assert_eq!(m, 3);
    assert_eq!(a, F61p::zero());
    assert_eq!(c, fe(1));
    let (m, _, c) = qs_range_check_prepare(100, 103);
    assert_eq!(m, 2);
    // 4 - 103 - 1 = -100
    assert_eq!(c, fe(100).neg());
}

#[test]
fn qs_masks_concrete_values() {
    // value 1 with key 3 under delta 2 has MAC 5
    let mask_p = qs_prover_mask(&vec![fe(1)], &vec![fe(5)]);
    assert_eq!(mask_p.get(0), fe(5).neg());
    assert_eq!(mask_p.get(1), fe(1));
    let mask_v = qs_verifier_mask(fe(2), &vec![fe(3)]);
    assert_eq!(mask_v, fe(3).neg());
    assert_eq!(mask_p.eval(fe(2)), mask_v);
}

#[test]
fn qs_masks_from_random_macs_finalize() {
    let mut rng = thread_rng();
    let delta = F61p::random(&mut rng);
    let chi = F61p::random(&mut rng);
    let mut qs_prover = QSStateProver::init_with_chi(chi);
    let mut qs_verifier = QSStateVerifier::init_with_delta_and_chi(delta, chi);
    for _ in 0..5 {
        let a = F61p::random(&mut rng);
        let b = F61p::random(&mut rng);
        let (a_p, a_v) = auth(delta, a);
        let (b_p, b_v) = auth(delta, b);
        let (c_p, c_v) = auth(delta, a.mul(&b));
        qs_prover.check_mult(&a_p, &b_p, &c_p);
        qs_verifier.check_mult(&a_v, &b_v, &c_v);
    }
    assert_eq!(qs_prover.state_degree(), 2);
    let mut values = Vec::new();
    let mut macs = Vec::new();
    let mut keys = Vec::new();
    for _ in 0..1 {
        let u = F61p::random(&mut rng);
        let k = F61p::random(&mut rng);
        values.push(u);
        keys.push(k);
        macs.push(k.add(&delta.mul(&u)));
    }
    let mask_p = qs_prover_mask(&values, &macs);
    let mask_v = qs_verifier_mask(delta, &keys);
    assert_eq!(mask_p.eval(delta), mask_v);
    let proof = qs_prover.finalize_with_mask(mask_p);
    assert!(qs_verifier.finalize_with_mask_and_verify(mask_v, &proof));
}

#[test]
fn qs_masks_agree_on_many_values() {
    let mut rng = thread_rng();
    let delta = F61p::random(&mut rng);
    let mut values = Vec::new();
    let mut macs = Vec::new();
    let mut keys = Vec::new();
    for _ in 0..7 {
        let u = F61p::random(&mut rng);
        let k = F61p::random(&mut rng);
        values.push(u);
        keys.push(k);
        macs.push(k.add(&delta.mul(&u)));
    }
    let mask_p = qs_prover_mask(&values, &macs);
    assert_eq!(mask_p.coefficients.len(), 7);
    assert_eq!(mask_p.eval(delta), qs_verifier_mask(delta, &keys));
}

fn correlated(delta: F61p, n: usize) -> (Vec<F61p>, Vec<F61p>, Vec<F61p>) {
    let mut rng = thread_rng();
    let mut values = Vec::new();
    let mut macs = Vec::new();
    let mut keys = Vec::new();
    for _ in 0..n {
        let u = F61p::random(&mut rng);
        let k = F61p::random(&mut rng);
        values.push(u);
        keys.push(k);
        macs.push(k.add(&delta.mul(&u)));
    }
    (values, macs, keys)
}

#[test]
fn qs_finalize_with_random_values_accepts() {
    let mut rng = thread_rng();
    let delta = F61p::random(&mut rng);
    let chi = F61p::random(&mut rng);
    let mut qs_prover = QSStateProver::init_with_chi(chi);
    let mut qs_verifier = QSStateVerifier::init_with_delta_and_chi(delta, chi);
    for _ in 0..4 {
        let a = F61p::random(&mut rng);
        let b = F61p::random(&mut rng);
        let c = F61p::random(&mut rng);
        let (mut a_p, mut a_v) = auth(delta, a);
        let (b_p, b_v) = auth(delta, b);
        let (c_p, c_v) = auth(delta, c);
        let (d_p, d_v) = auth(delta, a.mul(&b).mul(&c));
        a_p.mul_assign(&b_p);
        a_v.mul_assign(&b_v);
        a_p.mul_assign(&c_p);
        a_v.mul_assign(&c_v);
        a_p.sub_assign(&d_p);
        a_v.sub_assign(delta, &d_v);
        qs_prover.check_zero(&a_p);
        qs_verifier.check_zero(&a_v);
    }
    assert_eq!(qs_prover.state_degree(), 3);
    let (values, macs, keys) = correlated(delta, 2);
    let proof = qs_prover.finalize(&values, &macs);
    assert!(qs_verifier.finalize_and_verify(&keys, &proof));
    assert_eq!(qs_prover.count(), 0);
    assert_eq!(qs_verifier.count(), 0);
}

#[test]
fn qs_finalize_rejects_wrong_keys() {
    let mut rng = thread_rng();
    let delta = F61p::random(&mut rng);
    let chi = F61p::random(&mut rng);
    let mut qs_prover = QSStateProver::init_with_chi(chi);
    let mut qs_verifier = QSStateVerifier::init_with_delta_and_chi(delta, chi);
    let a = F61p::random(&mut rng);
    let b = F61p::random(&mut rng);
    let (a_p, a_v) = auth(delta, a);
    let (b_p, b_v) = auth(delta, b);
    let (c_p, c_v) = auth(delta, a.mul(&b));
    qs_prover.check_mult(&a_p, &b_p, &c_p);
    qs_verifier.check_mult(&a_v, &b_v, &c_v);
    let (values, macs, mut keys) = correlated(delta, 1);
    keys[0] = keys[0].add(&F61p::one());
    let proof = qs_prover.finalize(&values, &macs);
    assert!(!qs_verifier.finalize_and_verify(&keys, &proof));
}
