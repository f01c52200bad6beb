use cdm_oprf::codes::CodeType;
use cdm_oprf::cut_and_choose::{candidate_checks, candidate_parities};
use cdm_oprf::f256b::F256b;
use cdm_oprf::f3::F3;
use cdm_oprf::f61p::F61p;
use cdm_oprf::f82t::F82t;
use cdm_oprf::input_encoding::{generate_linear_code, linear_code_from_words};
use cdm_oprf::oprf_types::OPRFSetting;
use cdm_oprf::preprocessing::{
    chunk_sizes, corrected_key, group_da_bits, preprocessing_plan, sender_preprocessing_plan,
    ConsistencyCheck,
};
use cdm_oprf::oprf_types::{MacProver, MacVerifier, OPRFSharing};
use cdm_oprf::vole_util::lift_sharing;
use rand::rngs::StdRng;
use rand::{RngCore, SeedableRng};

#[test]
fn the_public_code_is_the_same_on_every_call() {
    let a = generate_linear_code();
    let b = generate_linear_code();
    assert!(a.0 == b.0 && a.1 == b.1 && a.2 == b.2);
    let mut rng = StdRng::from_seed([0u8; 32]);
    let words: Vec<u32> = (0..63 * 128).map(|_| rng.next_u32()).collect();
    let c = linear_code_from_words(&words);
    assert!(a.0 == c.0 && a.1 == c.1 && a.2 == c.2);
    // the first redundant row of G holds the first words modulo three
    for j in 0..128 {
        assert_eq!(a.0[128][j].to_u8() as u32, words[j] % 3);
    }
}

#[test]
fn f82t_from_random_words() {
    let r = F82t::from_random_words(0b0110, 0b1100, 0b11, 0b10);
    assert_eq!(r.lsb, (0b11u128 << 64) | 0b0110);
    // high bits only where the low bit is clear: 0b1100 & !0b0110 = 0b1000, 0b10 & !0b11 = 0
    assert_eq!(r.msb, 0b1000);
    let r = F82t::from_random_words(u64::MAX, 0, u32::MAX, 0);
    assert_eq!(r.lsb, (1u128 << 82) - 1);
    assert_eq!(r.msb, 0);
}

#[test]
fn field_elements_from_random_words() {
    assert_eq!(F3::from_random_u32(7).to_u8(), 1);
    assert_eq!(F3::from_random_u32(u32::MAX).to_u8(), (u32::MAX % 3) as u8);
    let p = (1u64 << 61) - 1;
    assert_eq!(F61p::from_random_u64(u64::MAX).to_u128(), (u64::MAX % p) as u128);
    assert_eq!(F61p::from_random_u64(p).to_u128(), 0);
}

#[test]
fn preprocessing_plans() {
    let (p, v, c) = preprocessing_plan(OPRFSetting::RevealOutput, 10);
    assert_eq!((p, v), (18, 34));
    assert_eq!(c, ConsistencyCheck::CutAndChoose { bucket_size: 5 });
    let (p, v, c) = preprocessing_plan(OPRFSetting::RevealOutput, 1);
    assert_eq!((p, v), (18, 34));
    assert_eq!(c, ConsistencyCheck::CutAndChoose { bucket_size: 6 });
    let (p, v, c) = preprocessing_plan(OPRFSetting::RevealOutput, 256);
    assert_eq!((p, v), (11, 20));
    assert_eq!(c, ConsistencyCheck::Code(CodeType::Large));
    assert_eq!(preprocessing_plan(OPRFSetting::SecretShareOutput, 3).0, 34);
    assert_eq!(preprocessing_plan(OPRFSetting::SecretShareOutput, 300).1, 20);
    assert_eq!(preprocessing_plan(OPRFSetting::RevealOutput, 64).2, ConsistencyCheck::Code(CodeType::Large));
    let (p, v, _) = sender_preprocessing_plan(OPRFSetting::RevealOutput, 10);
    assert_eq!((p, v), (34, 18));
}

#[test]
fn chunks_of_the_bits() {
    assert_eq!(chunk_sizes(1000), vec![1000]);
    assert_eq!(chunk_sizes(1 << 21), vec![1 << 21]);
    let total = (1 << 21) + 5;
    assert_eq!(chunk_sizes(total), vec![1 << 20, (1 << 20) + 5]);
    let total = 3 * (1 << 20) + 7;
    let c = chunk_sizes(total);
    assert_eq!(c, vec![1 << 20, 1 << 20, (1 << 20) + 7]);
    assert_eq!(c.iter().sum::<usize>(), total);
}

#[test]
fn corrected_key_adds_delta_times_d() {
    let k = F256b { high: 5, low: 9 };
    let delta = F256b { high: 0, low: 0b11 };
    let d = F256b { high: 0, low: 0b10 };
    // delta * d = x^2 + x = 0b110
    assert_eq!(corrected_key(k, delta, d), F256b { high: 5, low: 9 ^ 0b110 });
}

#[test]
fn candidate_bucket_checks() {
    let bits = vec![true, false, true, true];
    let copies: Vec<F3> = bits.iter().map(|&b| if b { F3::one() } else { F3::zero() }).collect();
    let c = candidate_parities(&bits);
    assert_eq!(c, vec![true, false, false]);
    let checks = candidate_checks(&copies, &c);
    assert!(checks.iter().all(|x| *x == F3::zero()));
    let mut bad = copies.clone();
    bad[2] = F3::zero();
    let checks = candidate_checks(&bad, &c);
    assert_ne!(checks[1], F3::zero());
}

#[test]
fn grouping_doubly_authenticated_bits() {
    let mut part = Vec::new();
    for i in 0..512u128 {
        let bit = i % 3 == 0;
        let bin = OPRFSharing(bit, MacProver(bit, F256b { high: 0, low: i }), MacVerifier(F256b { high: i, low: 0 }));
        let v = F3::from_random_u32(i as u32);
        let ter = OPRFSharing(v, MacProver(v, F82t::zero()), MacVerifier(F82t::zero()));
        part.push((bin, ter));
    }
    let groups = group_da_bits(&part, 2);
    assert_eq!(groups.len(), 2);
    for j in 0..2 {
        let (value, mac, key) = lift_sharing::<256>(j, &part);
        assert_eq!(groups[j].0 .0, value);
        assert_eq!(groups[j].0 .1, mac);
        assert_eq!(groups[j].0 .2, key);
        for k in 0..256 {
            assert_eq!(groups[j].1[k], part[j * 256 + k].1);
        }
    }
}
