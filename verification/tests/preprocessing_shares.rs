use cdm_oprf::d_bits::{d_bit_client_share, d_bit_from_masks};
use cdm_oprf::digest::{commit_f256b, mask_f256b, mask_f82t, mask_from_digest};
use cdm_oprf::f256b::F256b;
use cdm_oprf::f3::F3;
use cdm_oprf::f3_triples::{
    bucket_differences, bucket_heads, combine_bucket_client, combine_bucket_server,
    combine_client, combine_server, sacrifice_client_value, sacrifice_client_values,
    sacrifice_server_value, sacrifice_server_values, triple_client_shares, triple_server_shares,
};
use cdm_oprf::f82t::F82t;
use cdm_oprf::habits::{ha_bit_client_shares, ha_bit_server_shares};
use cdm_oprf::vole_util::{
    open_extension_seed, weak_equality_first, weak_equality_second, WeakEqualityError,
};
use rand::rngs::StdRng;
use rand::SeedableRng;

fn f3(v: u8) -> F3 {
    F3::try_from(v).unwrap()
}

fn val(x: F3) -> u8 {
    x.to_u8()
}

fn blake3_head(bytes: &[u8]) -> [u8; 16] {
    let digest = blake3::hash(bytes);
    let mut head = [0u8; 16];
    head.copy_from_slice(&digest.as_bytes()[0..16]);
    head
}

#[test]
fn mask_from_digest_reads_the_first_sixteen_bytes() {
    let mut d = [0u8; 32];
    d[0] = 1;
    assert_eq!(val(mask_from_digest(&d)), 1);
    d[0] = 5;
    assert_eq!(val(mask_from_digest(&d)), 2);
    d[0] = 0;
    d[1] = 1; // 256 = 1 mod 3
    assert_eq!(val(mask_from_digest(&d)), 1);
    let mut e = [0u8; 32];
    e[16] = 1; // beyond the first sixteen bytes
    assert_eq!(val(mask_from_digest(&e)), 0);
    let all = [0xffu8; 32]; // 2^128 - 1 = 0 mod 3
    assert_eq!(val(mask_from_digest(&all)), 0);
}

#[test]
fn masks_hash_the_encoding() {
    let mut rng = StdRng::seed_from_u64(7);
    for _ in 0..20 {
        let x = F82t::random(&mut rng);
        let expected = F3::from_uniform_bytes(&blake3_head(&x.to_bytes()));
        assert_eq!(mask_f82t(&x), expected);
        let y = F256b::random(&mut rng);
        let expected = F3::from_uniform_bytes(&blake3_head(&y.to_bytes()));
        assert_eq!(mask_f256b(&y), expected);
    }
}

#[test]
fn triple_shares_multiply() {
    let mut rng = StdRng::seed_from_u64(11);
    let delta = F82t::random(&mut rng);
    let mut keys = Vec::new();
    let mut macs = Vec::new();
    let mut values = Vec::new();
    for i in 0..30u8 {
        let a = f3(i % 3);
        let key = F82t::random(&mut rng);
        macs.push(key.add(&F82t::scale(a, &delta)));
        keys.push(key);
        values.push(a);
    }
    let (deltas, bs, cs) = triple_server_shares(&keys, &delta);
    let cc = triple_client_shares(&macs, &values, &deltas);
    for i in 0..values.len() {
        assert_eq!(values[i].mul(&bs[i]), cc[i].add(&cs[i]));
    }
}

#[test]
fn triple_shares_follow_the_masks() {
    let mut rng = StdRng::seed_from_u64(3);
    let delta = F82t::random(&mut rng);
    let key = F82t::random(&mut rng);
    let m0 = mask_f82t(&key);
    let m1 = mask_f82t(&key.add(&delta));
    let m2 = mask_f82t(&key.add(&delta).add(&delta));
    let (deltas, bs, cs) = triple_server_shares(&vec![key], &delta);
    assert_eq!(deltas[0], m0.add(&m1).add(&m2));
    assert_eq!(bs[0], m1.add(&m1).add(&m2));
    assert_eq!(cs[0], m0.neg());
    let a = f3(2);
    let mac = key.add(&delta).add(&delta);
    let cc = triple_client_shares(&vec![mac], &vec![a], &vec![f3(1)]);
    assert_eq!(cc[0], m2.add(&f3(1)));
}

#[test]
fn sacrifice_of_good_triples_cancels() {
    // (a, b, c_c, c_s): 2 * 2 = 1 = 2 + 2, 1 * 2 = 2 = 1 + 1
    let (a0, b0, c0, cs0) = (f3(2), f3(2), f3(2), f3(2));
    let (aj, bj, cj, csj) = (f3(1), f3(2), f3(1), f3(1));
    let d = aj.sub(&a0);
    let e = bj.sub(&b0);
    let f = sacrifice_client_value(a0, c0, cj, d, e);
    let g = sacrifice_server_value(cs0, csj, b0, d);
    assert_eq!(f.add(&g), F3::zero());
}

#[test]
fn sacrifice_detects_a_bad_triple() {
    // triple 0 is off by one, triple j is good
    let (a0, b0, c0, cs0) = (f3(1), f3(1), f3(1), f3(1));
    let (aj, bj, cj, csj) = (f3(2), f3(1), f3(0), f3(2));
    let d = aj.sub(&a0);
    let e = bj.sub(&b0);
    let f = sacrifice_client_value(a0, c0, cj, d, e);
    let g = sacrifice_server_value(cs0, csj, b0, d);
    assert_ne!(f.add(&g), F3::zero());
    // exact value: c0 - cj + e a0 + d e + cs0 - csj + d b0 = 1 - 0 + 0 + 0 + 1 - 2 + 1 = 1
    assert_eq!(f.add(&g), f3(1));
}

#[test]
fn combining_good_triples_gives_a_good_triple() {
    let a = vec![f3(1), f3(2), f3(0), f3(2)];
    let b = vec![f3(2), f3(1), f3(2), f3(2)];
    let cs = vec![f3(0), f3(1), f3(2), f3(2)];
    // c_c = a * b - c_s
    let cc: Vec<F3> = (0..4).map(|i| a[i].mul(&b[i]).sub(&cs[i])).collect();
    let d: Vec<F3> = (1..4).map(|k| b[k].add(&b[0])).collect();
    let (fa, fc) = combine_bucket_client(&a, &cc, &d);
    let fs = combine_bucket_server(&cs);
    assert_eq!(fa.mul(&b[0]), fc.add(&fs));
    // the first fold alone
    let (a1, c1) = combine_client(a[0], a[1], cc[0], cc[1], d[0]);
    let s1 = combine_server(cs[0], cs[1]);
    assert_eq!(a1, a[1].add(&a[0]));
    assert_eq!(a1.mul(&b[0]), c1.add(&s1));
}

#[test]
fn ha_bit_test() {
    let mut rng = StdRng::seed_from_u64(5);
    let delta = F256b::random(&mut rng);
    let mut keys = Vec::new();
    let mut macs = Vec::new();
    let mut client_bits = Vec::new();
    let mut server_bits = Vec::new();
    for i in 0..16u32 {
        let c = i % 2 == 1;
        let b = (i / 2) % 2 == 1;
        let key = F256b::random(&mut rng);
        macs.push(if c { key.add(&delta) } else { key });
        keys.push(key);
        client_bits.push(c);
        server_bits.push(b);
    }
    let (t, server_shares) = ha_bit_server_shares(&server_bits, &keys, &delta);
    let client_shares = ha_bit_client_shares(&macs, &client_bits, &t);
    for i in 0..16 {
        let expected = if server_bits[i] != client_bits[i] { 1 } else { 0 };
        assert_eq!(val(client_shares[i].add(&server_shares[i])), expected);
    }
}

#[test]
fn d_bits_test() {
    for m0 in 0..3u8 {
        for m1 in 0..3u8 {
            let decision = d_bit_from_masks(f3(m0), f3(m1));
            if m0 == m1 {
                assert!(decision.is_none());
                continue;
            }
            let (d, s) = decision.unwrap();
            assert_eq!(d, if m1 == (m0 + 1) % 3 { 1 } else { 0 });
            for x in 0..2u8 {
                let mx = if x == 1 { f3(m1) } else { f3(m0) };
                let (cx, cs) = d_bit_client_share(x, mx);
                assert_eq!(cx, x);
                assert_eq!(val(s.add(&cs)), x ^ d);
            }
        }
    }
}

#[test]
fn test_f_eq() {
    let mut rng = StdRng::seed_from_u64(9);
    let values: Vec<F256b> = (0..5).map(|_| F256b::random(&mut rng)).collect();
    let com = commit_f256b(&values);
    let (reply, res) = weak_equality_first(&values, &values.clone());
    assert_eq!(res, Ok(()));
    assert_eq!(reply, values);
    assert_eq!(weak_equality_second(&com, &values, &reply), Ok(()));
}

#[test]
fn weak_equality_refuses_different_values() {
    let mut rng = StdRng::seed_from_u64(10);
    let values: Vec<F256b> = (0..4).map(|_| F256b::random(&mut rng)).collect();
    let mut other = values.clone();
    other[2] = other[2].add(&F256b::one());
    let com = commit_f256b(&values);
    let (reply, res) = weak_equality_first(&values, &other);
    assert_eq!(res, Err(WeakEqualityError::ValuesDiffer));
    assert_eq!(reply, vec![F256b::zero(); 4]);
    // an opening that does not match the commitment
    assert_eq!(
        weak_equality_second(&com, &other, &reply),
        Err(WeakEqualityError::CommitmentDoesNotOpen)
    );
    // a correct opening of different values
    assert_eq!(
        weak_equality_second(&com, &other, &values),
        Err(WeakEqualityError::ValuesDiffer)
    );
}

#[test]
fn test_f_eq_false() {
    let mut rng = StdRng::seed_from_u64(0);
    let v_b = F256b::random(&mut rng);
    let v_a = F256b::random(&mut rng);
    let values = vec![v_b];
    let com = commit_f256b(&values);
    let (reply, out) = weak_equality_first(&values, &vec![v_a]);
    let client = weak_equality_second(&com, &vec![v_a], &reply);
    let a = match out {
        Ok(_) => 0,
        _ => 1,
    };
    let b = match client {
        Ok(_) => 0,
        _ => 1,
    };
    assert_eq!(a, b);
    assert_eq!(a, 1);
}

#[test]
fn commitments_hash_the_concatenated_encodings() {
    let values = vec![F256b { high: 1, low: 2 }, F256b { high: 3, low: 4 }];
    let mut bytes = Vec::new();
    for v in values.iter() {
        bytes.extend_from_slice(&v.to_bytes());
    }
    assert_eq!(commit_f256b(&values), *blake3::hash(&bytes).as_bytes());
    let mut hasher = blake3::Hasher::new();
    for v in values.iter() {
        hasher.update(&v.to_bytes());
    }
    assert_eq!(commit_f256b(&values), *hasher.finalize().as_bytes());
    assert_eq!(open_extension_seed(&values), blake3_head(&bytes));
}

#[test]
fn sacrificing_buckets_of_good_triples() {
    // six good triples, dealt into two buckets of three by the slots
    let a: Vec<F3> = [1, 2, 0, 2, 1, 1].iter().map(|&v| f3(v)).collect();
    let b: Vec<F3> = [2, 2, 1, 0, 1, 2].iter().map(|&v| f3(v)).collect();
    let cs: Vec<F3> = [0, 1, 2, 2, 0, 1].iter().map(|&v| f3(v)).collect();
    let cc: Vec<F3> = (0..6).map(|i| a[i].mul(&b[i]).sub(&cs[i])).collect();
    let slots = vec![4, 0, 2, 1, 5, 3];
    let d = bucket_differences(&a, &slots, 2, 3);
    let e = bucket_differences(&b, &slots, 2, 3);
    assert_eq!(d.len(), 4);
    // bucket 0 compares slot 0 (triple 0) and slot 2 (triple 2) with its head, triple 4
    assert_eq!(d[0], a[0].sub(&a[4]));
    assert_eq!(e[1], b[2].sub(&b[4]));
    let f = sacrifice_client_values(&a, &cc, &slots, &d, &e, 2, 3);
    let g = sacrifice_server_values(&cs, &b, &slots, &d, 2, 3);
    for p in 0..4 {
        assert_eq!(f[p].add(&g[p]), F3::zero());
    }
    let heads = bucket_heads(&a, &slots, 2, 3);
    assert_eq!(heads, vec![a[4], a[1]]);
}

#[test]
fn sacrificing_catches_a_bad_bucket_head() {
    let a: Vec<F3> = [1, 2, 1].iter().map(|&v| f3(v)).collect();
    let b: Vec<F3> = [1, 1, 2].iter().map(|&v| f3(v)).collect();
    let cs: Vec<F3> = [0, 0, 0].iter().map(|&v| f3(v)).collect();
    let mut cc: Vec<F3> = (0..3).map(|i| a[i].mul(&b[i]).sub(&cs[i])).collect();
    cc[0] = cc[0].add(&F3::one()); // the head is off by one
    let slots = vec![0, 1, 2];
    let d = bucket_differences(&a, &slots, 1, 3);
    let e = bucket_differences(&b, &slots, 1, 3);
    let f = sacrifice_client_values(&a, &cc, &slots, &d, &e, 1, 3);
    let g = sacrifice_server_values(&cs, &b, &slots, &d, 1, 3);
    for p in 0..2 {
        assert_ne!(f[p].add(&g[p]), F3::zero());
    }
}
