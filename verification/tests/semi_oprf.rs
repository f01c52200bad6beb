use cdm_oprf::f256b::F256b;
use cdm_oprf::f3::F3;
use cdm_oprf::matrix_util::{generate_precompute_tables, w_prf_clear};
use cdm_oprf::semi::{pack_d_bits, semi_convert_client, semi_convert_server};
use rand::rngs::StdRng;
use rand::SeedableRng;

fn f3(v: u8) -> F3 {
    F3::try_from(v).unwrap()
}

#[test]
fn packing_puts_bit_i_at_x_to_the_i() {
    let mut d_bits = Vec::new();
    for i in 0..512u32 {
        let bit = if i == 0 || i == 3 || i == 130 || i == 256 + 255 { 1u8 } else { 0u8 };
        d_bits.push((bit, F3::zero()));
    }
    let packed = pack_d_bits(&d_bits, 2);
    assert_eq!(packed[0], F256b { high: 1 << 2, low: 0b1001 });
    assert_eq!(packed[1], F256b { high: 1 << 127, low: 0 });
}

#[test]
fn semi_conversion_shares_the_weak_prf() {
    let mut rng = StdRng::seed_from_u64(6);
    let mut b: [[F3; 256]; 82] = [[F3::zero(); 256]; 82];
    for i in 0..82 {
        for j in 0..256 {
            b[i][j] = F3::random(&mut rng);
        }
    }
    let tables = generate_precompute_tables(b);
    let key = F256b::random(&mut rng);
    let input = F256b::random(&mut rng);
    let mut client = Vec::new();
    let mut server = Vec::new();
    for _ in 0..256 {
        let x = F3::random(&mut rng).to_u8() % 2;
        let d = F3::random(&mut rng).to_u8() % 2;
        let r = x ^ d;
        let sc = F3::random(&mut rng).to_u8();
        let ss = (r + 3 - sc) % 3;
        client.push((x, f3(sc)));
        server.push((d, f3(ss)));
    }
    let pc = pack_d_bits(&client, 1);
    let ps = pack_d_bits(&server, 1);
    let c = key.mul(&input).add(&pc[0]).add(&ps[0]);
    let out_c = semi_convert_client(&client, 1, &tables, &vec![c]);
    let out_s = semi_convert_server(&server, 1, &tables, &vec![c]);
    let expected = w_prf_clear(key, input, b);
    for i in 0..82 {
        assert_eq!(out_c[i].add(&out_s[i]), expected[i]);
    }
}
