//! The computations of the weak PRF with a malicious client: half-authenticated bits
//! lifted to GF(2^256) to mask the product, and the conversion of the opened masked value
//! into GF(3) shares of the output.
use vstd::prelude::*;
use crate::f3::F3;
use crate::f256b::F256b;
use crate::oprf_types::OPRFSharing;
use crate::vole_util::{bits_poly, lifted, lift_prover_vole, lift_verifier_vole};
use crate::semi::{convert_shares, semi_conv_seq, share_block, shares_ok};
use crate::matrix_util::table_row_sum;
use crate::input_encoding::all_wf;

verus! {

/// The binary values of the half-authenticated bits of batch entry `j`.
pub open spec fn ha_block_bits(ha: Seq<OPRFSharing<bool, F256b>>, j: int) -> Seq<bool> {
    Seq::new(256, |i: int| ha[j * 256 + i].0)
}

/// The MACs of the half-authenticated bits of batch entry `j`.
pub open spec fn ha_block_macs(ha: Seq<OPRFSharing<bool, F256b>>, j: int) -> Seq<F256b> {
    Seq::new(256, |i: int| ha[j * 256 + i].1.1)
}

/// The keys of the other party's half-authenticated bits of batch entry `j`.
pub open spec fn ha_block_keys(ha: Seq<OPRFSharing<bool, F256b>>, j: int) -> Seq<F256b> {
    Seq::new(256, |i: int| ha[j * 256 + i].2.0)
}

proof fn lemma_block_index(j: int, i: int, batch_size: int)
    requires
        0 <= j < batch_size,
        0 <= i < 256,
    ensures
        0 <= j * 256 + i < batch_size * 256,
{
    assert(j * 256 + 256 <= batch_size * 256) by (nonlinear_arith)
        requires
            j < batch_size,
    ;
}

/// The client's lifting of its half-authenticated bits: for each batch entry, the value
/// `b_0 + b_1 x + ...` and the MAC `M_0 + M_1 x + ...` in GF(2^256).
pub fn lift_ha_bits_client(ha_bits: &Vec<OPRFSharing<bool, F256b>>, batch_size: usize) -> (r: (Vec<F256b>, Vec<F256b>))
    requires
        batch_size * 256 <= ha_bits.len(),
    ensures
        r.0.len() == batch_size,
        r.1.len() == batch_size,
        forall|j: int| 0 <= j < batch_size ==> (#[trigger] r.0[j]).poly() == bits_poly(ha_block_bits(ha_bits@, j), 256),
        forall|j: int| 0 <= j < batch_size ==> (#[trigger] r.1[j]).poly() == lifted(ha_block_macs(ha_bits@, j), 256),
{
    let mut values: Vec<F256b> = Vec::new();
    let mut macs: Vec<F256b> = Vec::new();
    let mut j: usize = 0;
    while j < batch_size
        invariant
            j <= batch_size,
            batch_size * 256 <= ha_bits.len(),
            values.len() == j,
            macs.len() == j,
            forall|k: int| 0 <= k < j ==> (#[trigger] values[k]).poly() == bits_poly(ha_block_bits(ha_bits@, k), 256),
            forall|k: int| 0 <= k < j ==> (#[trigger] macs[k]).poly() == lifted(ha_block_macs(ha_bits@, k), 256),
        decreases batch_size - j,
    {
        let mut bits: Vec<bool> = Vec::new();
        let mut block_macs: Vec<F256b> = Vec::new();
        let mut i: usize = 0;
        let n_bits = ha_bits.len();
        while i < 256
            invariant
                i <= 256,
                j < batch_size,
                n_bits == ha_bits.len(),
                batch_size * 256 <= n_bits,
                bits@ == ha_block_bits(ha_bits@, j as int).take(i as int),
                block_macs@ == ha_block_macs(ha_bits@, j as int).take(i as int),
            decreases 256 - i,
        {
            proof {
                lemma_block_index(j as int, i as int, batch_size as int);
            }
            let h = &ha_bits[j * 256 + i];
            bits.push(h.0);
            block_macs.push(h.1.1);
            i = i + 1;
            assert(bits@ =~= ha_block_bits(ha_bits@, j as int).take(i as int));
            assert(block_macs@ =~= ha_block_macs(ha_bits@, j as int).take(i as int));
        }
        assert(bits@ =~= ha_block_bits(ha_bits@, j as int));
        assert(block_macs@ =~= ha_block_macs(ha_bits@, j as int));
        let (v, m) = lift_prover_vole(&bits, &block_macs);
        values.push(v);
        macs.push(m);
        j = j + 1;
    }
    (values, macs)
}

/// The server's lifting of its keys of the client's half-authenticated bits: for each
/// batch entry, `K_0 + K_1 x + ...` in GF(2^256).
pub fn lift_ha_bits_server(ha_bits: &Vec<OPRFSharing<bool, F256b>>, batch_size: usize) -> (r: Vec<F256b>)
    requires
        batch_size * 256 <= ha_bits.len(),
    ensures
        r.len() == batch_size,
        forall|j: int| 0 <= j < batch_size ==> (#[trigger] r[j]).poly() == lifted(ha_block_keys(ha_bits@, j), 256),
{
    let mut keys: Vec<F256b> = Vec::new();
    let mut j: usize = 0;
    while j < batch_size
        invariant
            j <= batch_size,
            batch_size * 256 <= ha_bits.len(),
            keys.len() == j,
            forall|k: int| 0 <= k < j ==> (#[trigger] keys[k]).poly() == lifted(ha_block_keys(ha_bits@, k), 256),
        decreases batch_size - j,
    {
        let mut block_keys: Vec<F256b> = Vec::new();
        let mut i: usize = 0;
        let n_bits = ha_bits.len();
        while i < 256
            invariant
                i <= 256,
                j < batch_size,
                n_bits == ha_bits.len(),
                batch_size * 256 <= n_bits,
                block_keys@ == ha_block_keys(ha_bits@, j as int).take(i as int),
            decreases 256 - i,
        {
            proof {
                lemma_block_index(j as int, i as int, batch_size as int);
            }
            block_keys.push(ha_bits[j * 256 + i].2.0);
            i = i + 1;
            assert(block_keys@ =~= ha_block_keys(ha_bits@, j as int).take(i as int));
        }
        assert(block_keys@ =~= ha_block_keys(ha_bits@, j as int));
        let k = lift_verifier_vole(&block_keys);
        keys.push(k);
        j = j + 1;
    }
    keys
}

/// The client's GF(3) output shares: its shares of the half-authenticated bits converted
/// under the opened values `c`, without the public bits, and `B` applied by its tables.
pub fn c_convert_client(shares: &Vec<F3>, batch_size: usize, b_tables: &Vec<F3>, c: &Vec<F256b>) -> (out: Vec<F3>)
    requires
        shares_ok(shares@, batch_size as nat),
        c.len() >= batch_size,
        b_tables.len() == 16 * 65536 * 82,
        all_wf(b_tables@),
    ensures
        out.len() == batch_size * 82,
        forall|p: int| 0 <= p < out.len() ==> (#[trigger] out[p]).wf() && out[p].val() == table_row_sum(
            b_tables@,
            semi_conv_seq(share_block(shares@, p / 82), c[p / 82], false),
            p % 82,
            16,
        ) % 3,
{
    convert_shares(shares, batch_size, b_tables, c, false)
}

/// The server's GF(3) output shares: its shares converted under the opened values `c`,
/// the public bits added, and `B` applied by its tables.
pub fn c_convert_server(shares: &Vec<F3>, batch_size: usize, b_tables: &Vec<F3>, c: &Vec<F256b>) -> (out: Vec<F3>)
    requires
        shares_ok(shares@, batch_size as nat),
        c.len() >= batch_size,
        b_tables.len() == 16 * 65536 * 82,
        all_wf(b_tables@),
    ensures
        out.len() == batch_size * 82,
        forall|p: int| 0 <= p < out.len() ==> (#[trigger] out[p]).wf() && out[p].val() == table_row_sum(
            b_tables@,
            semi_conv_seq(share_block(shares@, p / 82), c[p / 82], true),
            p % 82,
            16,
        ) % 3,
{
    convert_shares(shares, batch_size, b_tables, c, true)
}

} // verus!
