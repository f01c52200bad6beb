use cdm_oprf::f3::F3;
use cdm_oprf::input_encoding::{
    apply_gadget_convert, apply_parity_check_matrix, build_linear_code, decompose,
    encode_input, generate_linear_code, D, N_PRIME,
};
use rand::rngs::StdRng;
use rand::{RngCore, SeedableRng};

#[test]
fn input_encoding_test_generator() {
    let (g, gadget, h) = generate_linear_code();
    for i in 0..128 {
        let mut sum = 0;
        for j in 0..128 {
            sum += g[i][j].to_u8();
        }
        assert_eq!(sum, 1, "Row {} of G should sum to 1", i);
    }
    for i in 128..(128 + 63) {
        let mut sum = 0;
        for j in 0..128 {
            sum += g[i][j].to_u8() as u32;
        }
        assert!(sum > 0, "Row {} of G should sum to more than 0 with 2^{{-128}} probability", i);
    }

    for i in 0..63 {
        let mut sum = 0;
        for j in 0..63 {
            sum += h[i][j + 128].to_u8();
        }
        assert_eq!(sum, 1, "Row {} the last (N' - D) of H should sum to 1", i);
    }

    for i in 0..(128 + 63) {
        let mut sum = 0;
        for j in 0..2 * (128 + 63) {
            sum += gadget[i][j].to_u8();
        }
        assert_eq!(sum, 3, "Row {} of gadget should sum to 3", i);
    }
}

#[test]
fn test_decompose_gadget() {
    let mut rng = StdRng::from_seed([0; 32]);
    let mut input = [F3::zero(); N_PRIME];
    for i in 0..D / 2 {
        input[i] = F3::one();
        input[i + 1] = F3::zero();
    }
    for i in D..N_PRIME {
        input[i] = F3::random(&mut rng);
    }

    let decompose = decompose(input);
    assert_eq!(decompose.len(), D + 2 * (N_PRIME - D));

    let (_, g_gadget, _) = generate_linear_code();

    let output = apply_gadget_convert(decompose, g_gadget);
    assert_eq!(output.len(), N_PRIME);
    for i in 0..D {
        assert_eq!(output[i], input[i], "Output at index {} should match input", i);
    }
}

#[test]
fn test_parity_check() {
    let mut rng = StdRng::from_seed([0; 32]);
    let (g, g_gadget, h) = generate_linear_code();

    for _ in 0..25 {
        let input = ((rng.next_u64() as u128) << 64) | rng.next_u64() as u128;
        let encoded = encode_input(input, g);
        let mut decomp_encoded = [false; 254];
        for i in 0..D {
            decomp_encoded[i] = (encoded.high >> (127 - i)) & 1 == 1;
        }
        for i in D..254 {
            decomp_encoded[i] = (encoded.low >> (127 - (i - D))) & 1 == 1;
        }

        let gadget = apply_gadget_convert(decomp_encoded, g_gadget);
        let parity_check = apply_parity_check_matrix(gadget, h);

        for i in 0..(N_PRIME - D) {
            assert_eq!(parity_check[i], F3::zero(), "Parity check failed at index {}", i);
        }
    }
}

#[test]
fn decompose_splits_redundant_symbols() {
    let mut input = [F3::zero(); N_PRIME];
    input[5] = F3::one();
    input[128] = F3::generator();
    input[129] = F3::one();
    let d = decompose(input);
    assert!(d[63 + 5]);
    assert!(d[0] && !d[191]);
    assert!(!d[1] && d[192]);
    assert_eq!(d.iter().filter(|b| **b).count(), 3);
}

#[test]
fn build_linear_code_uses_values_in_order() {
    let mut values = Vec::new();
    for k in 0..63 * 128 {
        values.push(F3::from_u8_mod((k % 3) as u8));
    }
    let (g, gadget, h) = build_linear_code(&values);
    assert_eq!(g[128][1], F3::one());
    assert_eq!(g[129][0], F3::from_u8_mod(128 % 3));
    assert_eq!(h[0][1], F3::generator());
    assert_eq!(h[0][2], F3::one());
    assert_eq!(h[3][128 + 3], F3::one());
    assert_eq!(h[3][128 + 4], F3::zero());
    assert_eq!(gadget[7][7], F3::generator());
    assert_eq!(gadget[7][7 + 191], F3::one());
}

#[test]
fn encode_input_low_bits() {
    let (g, _, _) = generate_linear_code();
    let encoded = encode_input(0, g);
    // zero encodes to the zero code word; only the two appended ones are set, in the
    // lowest two bits
    assert_eq!(encoded.high, 0);
    assert_eq!(encoded.low, 3);
    let encoded1 = encode_input(1, g);
    // message bit 0 sits at index 63 of the decomposition, bit 127 - 63 of `high`
    assert_eq!((encoded1.high >> 64) & 1, 1);
}
