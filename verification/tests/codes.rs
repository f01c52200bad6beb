use cdm_oprf::codes::{
    bucket_consistency_values, bucket_count, bucket_parities, get_bucket_size, large_cpde,
    medium_code, small_code, xor_f3,
};
use cdm_oprf::f3::F3;

fn f3(v: u8) -> F3 {
    F3::try_from(v).unwrap()
}

#[test]
fn bucket_count_rounds_up() {
    assert_eq!(bucket_count(9, 3), 3);
    assert_eq!(bucket_count(10, 3), 4);
    assert_eq!(bucket_count(0, 7), 0);
    assert_eq!(bucket_count(1, 7), 1);
    assert_eq!(bucket_count(14, 7), 2);
}

#[test]
fn bucket_sizes() {
    assert_eq!(get_bucket_size(511), 6);
    assert_eq!(get_bucket_size(512), 5);
}

#[test]
fn xor_in_f3_on_bits() {
    for x in 0..2u8 {
        for y in 0..2u8 {
            assert_eq!(xor_f3(f3(x), f3(y)).to_u8(), x ^ y);
        }
    }
    // off the bits: 2 + 2 + 4 = 8 = 2 mod 3
    assert_eq!(xor_f3(f3(2), f3(2)).to_u8(), 2);
}

#[test]
fn small_code_parities() {
    let code = small_code();
    // rows: 110100, 101010, 010001
    let bits = vec![true, false, true, true, false, false];
    let c = bucket_parities(&code, &bits);
    assert_eq!(c, vec![false, false, false]);
    let bits = vec![true, true, false, false, false, false];
    assert_eq!(bucket_parities(&code, &bits), vec![false, true, true]);
}

#[test]
fn test_code_consistency() {
    for code in [small_code(), medium_code(), large_cpde()] {
        let b = code.b;
        for pattern in 0..(1u32 << b) {
            let bits: Vec<bool> = (0..b).map(|j| (pattern >> j) & 1 == 1).collect();
            let vals: Vec<F3> = bits.iter().map(|&x| if x { F3::one() } else { F3::zero() }).collect();
            let parities = bucket_parities(&code, &bits);
            let checks = bucket_consistency_values(&code, &vals, &parities);
            assert!(checks.iter().all(|v| *v == F3::zero()));
            // flipping one opened parity makes its value non-zero
            let mut wrong = parities.clone();
            wrong[0] = !wrong[0];
            let checks = bucket_consistency_values(&code, &vals, &wrong);
            assert_ne!(checks[0], F3::zero());
            if pattern > 40 {
                break;
            }
        }
    }
}
