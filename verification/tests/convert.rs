use cdm_oprf::convert::{
    convert_bit_client, convert_bit_server, convert_client, convert_server, open_c_combine,
    open_c_mask, reveal_outputs,
};
use cdm_oprf::f256b::F256b;
use cdm_oprf::f3::F3;
use cdm_oprf::f82t::F82t;
use cdm_oprf::matrix_util::{apply_b, generate_precompute_tables, w_prf_clear};
use cdm_oprf::oprf_types::{MacProver, MacVerifier, OPRFExtensionSharing, OPRFSharing};
use rand::rngs::StdRng;
use rand::SeedableRng;

fn f3(v: u8) -> F3 {
    F3::try_from(v).unwrap()
}

fn bit_of(c: &F256b, i: usize) -> bool {
    if i < 128 {
        (c.low >> i) & 1 == 1
    } else {
        (c.high >> (i - 128)) & 1 == 1
    }
}

#[test]
fn converted_bit_shares_add_up_to_the_exclusive_or() {
    let mut rng = StdRng::seed_from_u64(1);
    let dc = F82t::random(&mut rng);
    let ds = F82t::random(&mut rng);
    for r in 0..2u8 {
        for xc in 0..3u8 {
            for c in [false, true] {
                let xs = (r + 3 - xc) % 3;
                let kc = F82t::random(&mut rng);
                let ks = F82t::random(&mut rng);
                let mc = ks.add(&F82t::scale(f3(xc), &ds));
                let ms = kc.add(&F82t::scale(f3(xs), &dc));
                let client = OPRFSharing(f3(xc), MacProver(f3(xc), mc), MacVerifier(kc));
                let server = OPRFSharing(f3(xs), MacProver(f3(xs), ms), MacVerifier(ks));
                let (vc, mc2, kc2) = convert_bit_client(&client, c, &dc);
                let (vs, ms2, ks2) = convert_bit_server(&server, c);
                let expected = if (r == 1) != c { 1 } else { 0 };
                assert_eq!(vc.add(&vs).to_u8(), expected);
                assert_eq!(ms2, kc2.add(&F82t::scale(vs, &dc)));
                assert_eq!(mc2, ks2.add(&F82t::scale(vc, &ds)));
            }
        }
    }
}

#[test]
fn converting_a_batch_shares_b_of_the_masked_bits() {
    let mut rng = StdRng::seed_from_u64(2);
    let mut b: [[F3; 256]; 82] = [[F3::zero(); 256]; 82];
    for i in 0..82 {
        for j in 0..256 {
            b[i][j] = F3::random(&mut rng);
        }
    }
    let tables = generate_precompute_tables(b);
    let dc = F82t::random(&mut rng);
    let ds = F82t::random(&mut rng);
    let batch_size = 2;
    let t = 82;
    let mut client_bits = Vec::new();
    let mut server_bits = Vec::new();
    let mut r_bits = Vec::new();
    let zero = F256b::zero();
    for _ in 0..batch_size {
        let mut cb = Vec::new();
        let mut sb = Vec::new();
        let mut rb = Vec::new();
        for _ in 0..256 {
            let r = F3::random(&mut rng).to_u8() % 2;
            let xc = F3::random(&mut rng).to_u8();
            let xs = (r + 3 - xc) % 3;
            let kc = F82t::random(&mut rng);
            let ks = F82t::random(&mut rng);
            let mc = ks.add(&F82t::scale(f3(xc), &ds));
            let ms = kc.add(&F82t::scale(f3(xs), &dc));
            cb.push(OPRFSharing(f3(xc), MacProver(f3(xc), mc), MacVerifier(kc)));
            sb.push(OPRFSharing(f3(xs), MacProver(f3(xs), ms), MacVerifier(ks)));
            rb.push(r == 1);
        }
        client_bits.push((OPRFExtensionSharing(zero, zero, zero), cb));
        server_bits.push((OPRFExtensionSharing(zero, zero, zero), sb));
        r_bits.push(rb);
    }
    let c = vec![F256b::random(&mut rng), F256b::random(&mut rng)];
    let out_c = convert_client(batch_size, &b, &tables, &client_bits, &dc, 256, t, &c);
    let out_s = convert_server(batch_size, &b, &tables, &server_bits, 256, t, &c);
    assert_eq!(out_c.len(), batch_size * t);
    assert_eq!(out_s.len(), batch_size * t);
    for j in 0..batch_size {
        let mut masked = [F3::zero(); 256];
        for i in 0..256 {
            masked[i] = if r_bits[j][i] != bit_of(&c[j], i) { F3::one() } else { F3::zero() };
        }
        let expected = apply_b(b, masked);
        for i in 0..t {
            let oc = &out_c[j * t + i];
            let os = &out_s[j * t + i];
            assert_eq!(oc.0.add(&os.0), expected[i]);
            assert_eq!(oc.1 .0, oc.0);
            assert_eq!(os.1 .1, oc.2 .0.add(&F82t::scale(os.0, &dc)));
            assert_eq!(oc.1 .1, os.2 .0.add(&F82t::scale(oc.0, &ds)));
        }
    }
}

#[test]
fn masking_and_combining_the_opened_value() {
    let mut rng = StdRng::seed_from_u64(3);
    let delta = F256b::random(&mut rng);
    let mut da_bits = Vec::new();
    let mut values = Vec::new();
    let mut macs = Vec::new();
    let mut keys = Vec::new();
    for _ in 0..3 {
        let bv = F256b::random(&mut rng);
        let bk = F256b::random(&mut rng);
        let bm = bk.add(&delta.mul(&bv));
        da_bits.push((OPRFExtensionSharing(bv, bm, bk), Vec::<OPRFSharing<F3, F82t>>::new()));
        let v = F256b::random(&mut rng);
        let k = F256b::random(&mut rng);
        values.push(v);
        keys.push(k);
        macs.push(k.add(&delta.mul(&v)));
    }
    let (cv, cm, ck) = open_c_mask(3, &da_bits, &values, &macs, &keys);
    for j in 0..3 {
        assert_eq!(cv[j], da_bits[j].0 .0.add(&values[j]));
        assert_eq!(cm[j], ck[j].add(&delta.mul(&cv[j])));
    }
    let theirs = vec![F256b::one(), F256b::zero(), F256b::one()];
    let c = open_c_combine(&cv, &theirs);
    assert_eq!(c[0], cv[0].add(&F256b::one()));
    assert_eq!(c[1], cv[1]);
    let out = reveal_outputs(&vec![f3(1), f3(2)], &vec![f3(2), f3(2)]);
    assert_eq!(out, vec![f3(0), f3(1)]);
}

#[test]
fn conversion_evaluates_the_weak_prf() {
    let mut rng = StdRng::seed_from_u64(4);
    let mut b: [[F3; 256]; 82] = [[F3::zero(); 256]; 82];
    for i in 0..82 {
        for j in 0..256 {
            b[i][j] = F3::random(&mut rng);
        }
    }
    let tables = generate_precompute_tables(b);
    let key = F256b::random(&mut rng);
    let input = F256b::random(&mut rng);
    let r = F256b::random(&mut rng);
    let dc = F82t::random(&mut rng);
    let zero = F256b::zero();
    let mut cb = Vec::new();
    let mut sb = Vec::new();
    for i in 0..256 {
        let ri = if bit_of(&r, i) { 1u8 } else { 0u8 };
        let xc = F3::random(&mut rng).to_u8();
        let xs = (ri + 3 - xc) % 3;
        let k = F82t::random(&mut rng);
        cb.push(OPRFSharing(f3(xc), MacProver(f3(xc), k), MacVerifier(k)));
        sb.push(OPRFSharing(f3(xs), MacProver(f3(xs), k), MacVerifier(k)));
    }
    let c = key.mul(&input).add(&r);
    let client = vec![(OPRFExtensionSharing(zero, zero, zero), cb)];
    let server = vec![(OPRFExtensionSharing(zero, zero, zero), sb)];
    let out_c = convert_client(1, &b, &tables, &client, &dc, 256, 82, &vec![c]);
    let out_s = convert_server(1, &b, &tables, &server, 256, 82, &vec![c]);
    let expected = w_prf_clear(key, input, b);
    for i in 0..82 {
        assert_eq!(out_c[i].0.add(&out_s[i].0), expected[i]);
    }
}
