use cdm_oprf::f61p::F61p;
use cdm_oprf::hd_quicksilver::{HDMacProver, HDMacVerifier};
use cdm_oprf::poly61::GeneralPolynomial;
use cdm_oprf::qs_range::{
    chunk_difference_prover, chunk_difference_verifier, chunk_layout, chunk_values,
    qs_prover_check_pow2_range_in_chunks, qs_prover_check_range,
    qs_verifier_check_pow2_range_in_chunks, qs_verifier_check_range,
};

fn thread_rng() -> rand::rngs::StdRng {
    <rand::rngs::StdRng as rand::SeedableRng>::from_entropy()
}

fn fe(x: u128) -> F61p {
    F61p::try_from(x).unwrap()
}

fn fe_signed(x: i128) -> F61p {
    if x >= 0 {
        fe(x as u128)
    } else {
        fe((-x) as u128).neg()
    }
}

fn auth(delta: F61p, x: F61p) -> (HDMacProver, HDMacVerifier) {
    let v = F61p::random(&mut thread_rng());
    (
        HDMacProver::from_mac(x, v.neg()),
        HDMacVerifier::from_mac(delta.mul(&x).add(&v).neg()),
    )
}

#[test]
fn chunk_layout_examples() {
    assert_eq!(chunk_layout(10, 3), (4, 1));
    assert_eq!(chunk_layout(9, 3), (3, 3));
    assert_eq!(chunk_layout(5, 8), (1, 5));
    assert_eq!(chunk_layout(1, 1), (1, 1));
}

#[test]
fn chunk_values_split_and_recombine() {
    // 731 = 0b1_011_011_011: chunks of 3 bits from the bottom, the last takes the rest
    let chunks = chunk_values(731, 10, 3);
    assert_eq!(chunks, vec![0b011, 0b011, 0b011, 0b1]);
    let mut sum = 0u64;
    for (i, c) in chunks.iter().enumerate() {
        sum += c << (3 * i);
    }
    assert_eq!(sum, 731);
    // a value above 2^bits ends up in the last chunk
    assert_eq!(chunk_values(1 << 12, 10, 3), vec![0, 0, 0, 8]);
}

#[test]
fn chunk_differences_of_honest_chunks_are_zero() {
    let mut rng = thread_rng();
    let delta = F61p::random(&mut rng);
    let x = 0b1100_1010_0110u64;
    let (mp, mv) = auth(delta, fe(x as u128));
    let mut pchunks = Vec::new();
    let mut vchunks = Vec::new();
    for c in chunk_values(x, 12, 4) {
        let (p, v) = auth(delta, fe(c as u128));
        pchunks.push(p);
        vchunks.push(v);
    }
    let dp = chunk_difference_prover(&mp, &pchunks, 0, 3, 4);
    let dv = chunk_difference_verifier(delta, &mv, &vchunks, 0, 3, 4);
    assert_eq!(dp.value(), F61p::zero());
    assert_eq!(dp.qs_degree, 1);
    assert_eq!(dv.qs_degree, 1);
    // the MAC relation survives: constant + delta * value is the verifier's MAC
    assert_eq!(dp.poly.get(0).add(&delta.mul(&dp.poly.get(1))), dv.mac);
}

fn run_pow2_in_chunks(bits: u32, max_chunk_size: u32, xs: &[u64]) -> bool {
    let mut rng = thread_rng();
    let delta = F61p::random(&mut rng);
    let chi = F61p::random(&mut rng);
    let mut mps = Vec::new();
    let mut mvs = Vec::new();
    let mut pchunks = Vec::new();
    let mut vchunks = Vec::new();
    for &x in xs {
        let (p, v) = auth(delta, fe(x as u128));
        mps.push(p);
        mvs.push(v);
        if max_chunk_size < bits {
            for c in chunk_values(x, bits, max_chunk_size) {
                let (p, v) = auth(delta, fe(c as u128));
                pchunks.push(p);
                vchunks.push(v);
            }
        }
    }
    let mut qs_p = qs_prover_check_pow2_range_in_chunks(chi, bits, max_chunk_size, &mps, &pchunks);
    let mut qs_v =
        qs_verifier_check_pow2_range_in_chunks(delta, chi, bits, max_chunk_size, &mvs, &vchunks);
    let expected = if max_chunk_size >= bits { xs.len() } else { xs.len() + pchunks.len() };
    assert_eq!(qs_p.count(), expected);
    assert_eq!(qs_v.count(), expected);
    assert_eq!(qs_p.state_degree(), qs_v.state_degree());
    let mask_p = GeneralPolynomial::random(&mut rng, qs_p.state_degree() - 1);
    let mask_v = mask_p.eval(delta);
    let proof = qs_p.finalize_with_mask(mask_p);
    qs_v.finalize_with_mask_and_verify(mask_v, &proof)
}

#[test]
fn pow2_range_without_chunks() {
    assert!(run_pow2_in_chunks(4, 8, &[0, 7, 15, 9]));
}

#[test]
fn pow2_range_in_chunks() {
    assert!(run_pow2_in_chunks(10, 3, &[0, 731, 1023, 512]));
    assert!(run_pow2_in_chunks(9, 3, &[511, 100]));
}

fn run_range(lower: i128, upper: i128, max_chunk_size: u32, xs: &[i128]) -> bool {
    let mut rng = thread_rng();
    let delta = F61p::random(&mut rng);
    let chi = F61p::random(&mut rng);
    let m = {
        let d = (upper - lower) as u128;
        let mut m = 0u32;
        while (1u128 << m) < d {
            m += 1;
        }
        m
    };
    let c = (1i128 << m) - upper - 1;
    let mut mps = Vec::new();
    let mut mvs = Vec::new();
    let mut pchunks = Vec::new();
    let mut vchunks = Vec::new();
    for &x in xs {
        let (p, v) = auth(delta, fe_signed(x));
        mps.push(p);
        mvs.push(v);
        if max_chunk_size < m {
            for shifted in [x - lower, x + c] {
                for ch in chunk_values(shifted as u64, m, max_chunk_size) {
                    let (p, v) = auth(delta, fe(ch as u128));
                    pchunks.push(p);
                    vchunks.push(v);
                }
            }
        }
    }
    let mut qs_p = qs_prover_check_range(chi, lower, upper, max_chunk_size, &mps, &pchunks);
    let mut qs_v = qs_verifier_check_range(delta, chi, lower, upper, max_chunk_size, &mvs, &vchunks);
    assert_eq!(qs_p.count(), qs_v.count());
    let mask_p = GeneralPolynomial::random(&mut rng, qs_p.state_degree() - 1);
    let mask_v = mask_p.eval(delta);
    let proof = qs_p.finalize_with_mask(mask_p);
    qs_v.finalize_with_mask_and_verify(mask_v, &proof)
}

#[test]
fn range_check_between_bounds() {
    // 2^5 = 32 >= 20 - (-5): values -4 .. 19
    assert!(run_range(-5, 20, 8, &[-4, 0, 7, 19]));
    assert!(run_range(-5, 20, 2, &[-4, 0, 7, 19]));
    assert!(run_range(100, 1000, 4, &[101, 999, 500]));
}
