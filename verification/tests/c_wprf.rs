use cdm_oprf::c_wprf::{c_convert_client, c_convert_server, lift_ha_bits_client, lift_ha_bits_server};
use cdm_oprf::f256b::F256b;
use cdm_oprf::f3::F3;
use cdm_oprf::habits::{ha_bit_client_shares, ha_bit_server_shares};
use cdm_oprf::matrix_util::{generate_precompute_tables, w_prf_clear};
use cdm_oprf::oprf_types::{MacProver, MacVerifier, OPRFSharing};
use rand::rngs::StdRng;
use rand::SeedableRng;

#[test]
fn lifting_half_authenticated_bits_keeps_the_mac_relation() {
    let mut rng = StdRng::seed_from_u64(8);
    let delta = F256b::random(&mut rng);
    let mut client = Vec::new();
    let mut server = Vec::new();
    for i in 0..512u32 {
        let bit = (i * 7 + 3) % 5 < 2;
        let key = F256b::random(&mut rng);
        let mac = if bit { key.add(&delta) } else { key };
        client.push(OPRFSharing(bit, MacProver(bit, mac), MacVerifier(F256b::zero())));
        server.push(OPRFSharing(false, MacProver(false, F256b::zero()), MacVerifier(key)));
    }
    let (values, macs) = lift_ha_bits_client(&client, 2);
    let keys = lift_ha_bits_server(&server, 2);
    for j in 0..2 {
        assert_eq!(macs[j], keys[j].add(&delta.mul(&values[j])));
    }
    // bit i of entry j is the client's bit j * 256 + i
    assert_eq!(values[0].low & 1 == 1, client[0].0);
    assert_eq!((values[1].high >> 3) & 1 == 1, client[256 + 131].0);
}

#[test]
fn client_malicious_conversion_shares_the_weak_prf() {
    let mut rng = StdRng::seed_from_u64(12);
    let mut b: [[F3; 256]; 82] = [[F3::zero(); 256]; 82];
    for i in 0..82 {
        for j in 0..256 {
            b[i][j] = F3::random(&mut rng);
        }
    }
    let tables = generate_precompute_tables(b);
    let key = F256b::random(&mut rng);
    let input = F256b::random(&mut rng);
    let delta = F256b::random(&mut rng);
    let mut client_bits = Vec::new();
    let mut server_bits = Vec::new();
    let mut macs = Vec::new();
    let mut keys = Vec::new();
    let mut client_ha = Vec::new();
    let mut server_ha = Vec::new();
    for _ in 0..256 {
        let c = F3::random(&mut rng).to_u8() % 2 == 1;
        let s = F3::random(&mut rng).to_u8() % 2 == 1;
        let k = F256b::random(&mut rng);
        let m = if c { k.add(&delta) } else { k };
        client_bits.push(c);
        server_bits.push(s);
        macs.push(m);
        keys.push(k);
        client_ha.push(OPRFSharing(c, MacProver(c, m), MacVerifier(F256b::zero())));
        server_ha.push(OPRFSharing(s, MacProver(s, F256b::zero()), MacVerifier(k)));
    }
    let (t, server_shares) = ha_bit_server_shares(&server_bits, &keys, &delta);
    let client_shares = ha_bit_client_shares(&macs, &client_bits, &t);
    let (client_lifted, _) = lift_ha_bits_client(&client_ha, 1);
    let mut server_value = F256b::zero();
    let mut pow = F256b::one();
    for i in 0..256 {
        if server_bits[i] {
            server_value = server_value.add(&pow);
        }
        pow.shift_left_once();
    }
    let y = key.mul(&input);
    let com_c = F256b::random(&mut rng);
    let com_s = y.add(&com_c);
    let c = client_lifted[0].add(&com_c).add(&server_value).add(&com_s);
    let out_c = c_convert_client(&client_shares, 1, &tables, &vec![c]);
    let out_s = c_convert_server(&server_shares, 1, &tables, &vec![c]);
    let expected = w_prf_clear(key, input, b);
    for i in 0..82 {
        assert_eq!(out_c[i].add(&out_s[i]), expected[i]);
    }
}
