use cdm_oprf::f256b::F256b;
use cdm_oprf::f3::F3;
use cdm_oprf::matrix_util::{apply_b, compute_row_using_table, generate_precompute_tables, w_prf_clear};
use rand::rngs::StdRng;
use rand::SeedableRng;

#[test]
pub fn test_precompute_row() {
    let mut b_rng = StdRng::from_entropy();
    let mut b: [[F3; 256]; 82] = [[F3::zero(); 256]; 82];
    // Randomly assing values to B
    for i in 0..82 {
        for j in 0..256 {
            b[i][j] = F3::random(&mut b_rng);
        }
    }
    let mut input = [F3::zero(); 256];
    for i in 0..256 {
        input[i] = F3::random(&mut b_rng);
    }

    let table = generate_precompute_tables(b);
    let out = compute_row_using_table(&table, input);

    let real = apply_b(b, input);
    for i in 0..82 {
        assert_eq!(out[i], real[i]);
    }
}

#[test]
fn apply_b_small_rows() {
    let mut b: [[F3; 256]; 82] = [[F3::zero(); 256]; 82];
    b[0][0] = F3::one();
    b[0][1] = F3::generator();
    b[1][255] = F3::generator();
    let mut input = [F3::zero(); 256];
    input[0] = F3::generator();
    input[1] = F3::generator();
    input[255] = F3::one();
    let out = apply_b(b, input);
    // 1*2 + 2*2 = 6 = 0
    assert_eq!(out[0], F3::zero());
    // 2*1 = 2
    assert_eq!(out[1], F3::generator());
    assert_eq!(out[2], F3::zero());
}

#[test]
fn w_prf_clear_with_unit_key() {
    let mut b: [[F3; 256]; 82] = [[F3::zero(); 256]; 82];
    for r in 0..82 {
        b[r][r] = F3::one();
        b[r][128 + r] = F3::one();
    }
    // key = 1, so the product is the input: bits 0 and 128 + 0 set
    let input = F256b { high: 1, low: 1 | (1 << 5) };
    let out = w_prf_clear(F256b::one(), input, b);
    assert_eq!(out.len(), 82);
    assert_eq!(out[0], F3::generator());
    assert_eq!(out[5], F3::one());
    assert_eq!(out[1], F3::zero());
}

#[test]
fn w_prf_clear_multiplies_first() {
    let mut b: [[F3; 256]; 82] = [[F3::zero(); 256]; 82];
    b[0][3] = F3::one();
    // x * x^2 = x^3
    let key = F256b { high: 0, low: 2 };
    let input = F256b { high: 0, low: 4 };
    let out = w_prf_clear(key, input, b);
    assert_eq!(out[0], F3::one());
}
