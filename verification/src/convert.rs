//! Conversion of a masked binary value into GF(3) shares with doubly-authenticated bits.
//!
//! For each position `i` the parties hold a doubly-authenticated bit `r`: GF(3) shares
//! `x_c + x_s = r`, each with a MAC in GF(3^82) under the other party's key. Once the bit
//! `c` of the masked value is public, `r xor c = c + r (1 + c)` modulo three, so the
//! client multiplies its share by `1 + c`, the server does the same and adds `c`, and the
//! MACs and keys follow. Applying the matrix `B` then gives shares of the weak PRF's
//! output.
use vstd::prelude::*;
use crate::f3::F3;
use crate::f82t::{F82t, f82t_polys, lemma_f82t_reduced};
use crate::f256b::F256b;
use crate::f64t::f3_vals;
use crate::gf3poly::{padd, pneg, pscale, plincomb};
use crate::oprf_types::{MacProver, MacVerifier, OPRFSharing, OPRFExtensionSharing};
use crate::matrix_util::{b_wf, b_times, poly_bits, table_row_sum, is_table_for, lemma_table_lookup_is_apply_b};
use crate::input_encoding::{dot, tvals};
use crate::input_encoding::all_wf;
use crate::f256b::red256;
use crate::gf2poly::{badd, bmul, lemma_badd_group, lemma_bmul_distributes};

verus! {

/// The GF(3) element of a bit.
pub open spec fn bit3(b: bool) -> nat {
    if b {
        1
    } else {
        0
    }
}

/// The client's converted share: `x + c x`.
pub open spec fn conv_val_client(x: nat, c: bool) -> nat {
    (x + bit3(c) * x) % 3
}

/// The server's converted share: `c + x + c x`.
pub open spec fn conv_val_server(x: nat, c: bool) -> nat {
    (bit3(c) + x + bit3(c) * x) % 3
}

/// A converted MAC: `M + c M`, on either side.
pub open spec fn conv_mac(m: Seq<nat>, c: bool) -> Seq<nat> {
    padd(m, pscale(bit3(c), m))
}

/// The client's converted key of the server's share: `-(c delta) + K + c K`.
pub open spec fn conv_key_client(k: Seq<nat>, delta: Seq<nat>, c: bool) -> Seq<nat> {
    padd(padd(pneg(pscale(bit3(c), delta)), k), pscale(bit3(c), k))
}

/// The server's converted key of the client's share: `K + c K`.
pub open spec fn conv_key_server(k: Seq<nat>, c: bool) -> Seq<nat> {
    padd(k, pscale(bit3(c), k))
}

/// The GF(3) element of a bit.
fn f3_of_bit(b: bool) -> (r: F3)
    ensures
        r.wf(),
        r.val() == bit3(b),
{
    if b {
        F3::one()
    } else {
        F3::zero()
    }
}

/// `x + c x`, the product `(1 + c) x`.
fn scaled_share(x: F3, ci: F3) -> (r: F3)
    requires
        x.wf(),
        ci.wf(),
    ensures
        r.wf(),
        r.val() == (x.val() + ci.val() * x.val()) % 3,
{
    let cx = ci.mul(&x);
    let r = x.add(&cx);
    proof {
        vstd::arithmetic::div_mod::lemma_add_mod_noop(x.val() as int, (ci.val() * x.val()) as int, 3);
        vstd::arithmetic::div_mod::lemma_small_mod(x.val(), 3);
        vstd::arithmetic::div_mod::lemma_mod_twice((ci.val() * x.val()) as int, 3);
    }
    r
}

/// Converts one of the client's doubly-authenticated bits under the public bit `c`: its
/// share and MAC are multiplied by `1 + c`, and its key of the server's share moves by
/// `-c delta` for the constant the server adds.
pub fn convert_bit_client(share: &OPRFSharing<F3, F82t>, c: bool, delta: &F82t) -> (r: (F3, F82t, F82t))
    requires
        share.0.wf(),
        share.1.1.wf(),
        share.2.0.wf(),
        delta.wf(),
    ensures
        r.0.wf(),
        r.1.wf(),
        r.2.wf(),
        r.0.val() == conv_val_client(share.0.val(), c),
        r.1.poly() == conv_mac(share.1.1.poly(), c),
        r.2.poly() == conv_key_client(share.2.0.poly(), delta.poly(), c),
{
    let ci = f3_of_bit(c);
    let val = scaled_share(share.0, ci);
    let mac = share.1.1.add(&F82t::scale(ci, &share.1.1));
    let key = F82t::scale(ci, delta).neg().add(&share.2.0).add(&F82t::scale(ci, &share.2.0));
    (val, mac, key)
}

/// Converts one of the server's doubly-authenticated bits under the public bit `c`: its
/// share becomes `c + (1 + c) x`, and its MAC and its key of the client's share are
/// multiplied by `1 + c`.
pub fn convert_bit_server(share: &OPRFSharing<F3, F82t>, c: bool) -> (r: (F3, F82t, F82t))
    requires
        share.0.wf(),
        share.1.1.wf(),
        share.2.0.wf(),
    ensures
        r.0.wf(),
        r.1.wf(),
        r.2.wf(),
        r.0.val() == conv_val_server(share.0.val(), c),
        r.1.poly() == conv_mac(share.1.1.poly(), c),
        r.2.poly() == conv_key_server(share.2.0.poly(), c),
{
    let ci = f3_of_bit(c);
    let cx = ci.mul(&share.0);
    let val = ci.add(&share.0).add(&cx);
    proof {
        let x = share.0.val() as int;
        let b = ci.val() as int;
        vstd::arithmetic::div_mod::lemma_add_mod_noop(b + x, b * x, 3);
        vstd::arithmetic::div_mod::lemma_mod_twice(b + x, 3);
        vstd::arithmetic::div_mod::lemma_mod_twice(b * x, 3);
    }
    let mac = share.1.1.add(&F82t::scale(ci, &share.1.1));
    let key = share.2.0.add(&F82t::scale(ci, &share.2.0));
    (val, mac, key)
}

/// The converted shares add up to `r xor c`: when the two shares of a bit `r` add up to
/// `r`, the converted ones add up to the exclusive or of `r` and the public bit `c`.
pub proof fn lemma_convert_values(xc: nat, xs: nat, r: bool, c: bool)
    requires
        xc < 3,
        xs < 3,
        (xc + xs) % 3 == bit3(r),
    ensures
        (conv_val_client(xc, c) + conv_val_server(xs, c)) % 3 == bit3(r != c),
{
    if c {
        assert(conv_val_client(xc, c) == (2 * xc) % 3);
        assert(conv_val_server(xs, c) == (1 + 2 * xs) % 3);
    } else {
        assert(conv_val_client(xc, c) == xc % 3);
        assert(conv_val_server(xs, c) == xs % 3);
    }
}

/// Coefficient-wise form of the MAC relations kept by the conversion.
proof fn lemma_convert_coef(m: nat, k: nat, d: nat, x: nat, b: nat)
    requires
        m < 3,
        k < 3,
        d < 3,
        x < 3,
        b <= 1,
        m == (k + (x * d) % 3) % 3,
    ensures
        (m + (b * m) % 3) % 3 == (((((2 * ((b * d) % 3)) % 3 + k) % 3) + (b * k) % 3) % 3 + (((b + x + b * x) % 3) * d) % 3) % 3,
        (m + (b * m) % 3) % 3 == ((k + (b * k) % 3) % 3 + (((x + b * x) % 3) * d) % 3) % 3,
{
    let sv = (b + x + b * x) % 3;
    let cv = (x + b * x) % 3;
    if b == 0 {
        assert((b * d) % 3 == 0 && (b * k) % 3 == 0 && (b * m) % 3 == 0 && b * x == 0);
        assert(sv == x && cv == x);
    } else {
        assert(b * d == d && b * k == k && b * m == m && b * x == x);
        if x == 0 {
            assert(sv == 1 && cv == 0);
        } else if x == 1 {
            assert(sv == 0 && cv == 2);
        } else {
            assert(sv == 2 && cv == 1);
        }
    }
    assert(x * d == d * x) by (nonlinear_arith);
    assert(sv * d == d * sv) by (nonlinear_arith);
    assert(cv * d == d * cv) by (nonlinear_arith);
    assert(d * 0 == 0 && d * 1 == d && d * 2 == 2 * d) by (nonlinear_arith);
}

/// The conversion keeps the MAC relation on both sides. When the server's MAC `M` is the
/// client's key `K` plus the server's share `x` times the client's `delta`, the converted
/// MAC is the client's converted key plus the converted share times `delta`; and when the
/// client's MAC is the server's key plus the client's share times the server's `delta`,
/// the same holds after conversion with the server's converted key.
pub proof fn lemma_convert_keeps_mac_relation(m: F82t, k: F82t, delta: F82t, x: F3, c: bool)
    requires
        m.wf(),
        k.wf(),
        delta.wf(),
        x.wf(),
        m.poly() == padd(k.poly(), pscale(x.val(), delta.poly())),
    ensures
        conv_mac(m.poly(), c) == padd(conv_key_client(k.poly(), delta.poly(), c), pscale(conv_val_server(x.val(), c), delta.poly())),
        conv_mac(m.poly(), c) == padd(conv_key_server(k.poly(), c), pscale(conv_val_client(x.val(), c), delta.poly())),
{
    lemma_f82t_reduced(m);
    lemma_f82t_reduced(k);
    lemma_f82t_reduced(delta);
    let b = bit3(c);
    assert forall|i: int| 0 <= i < 82 implies #[trigger] conv_mac(m.poly(), c)[i] == padd(
        conv_key_client(k.poly(), delta.poly(), c),
        pscale(conv_val_server(x.val(), c), delta.poly()),
    )[i] && conv_mac(m.poly(), c)[i] == padd(
        conv_key_server(k.poly(), c),
        pscale(conv_val_client(x.val(), c), delta.poly()),
    )[i] by {
        assert(m.poly()[i] == (k.poly()[i] + (x.val() * delta.poly()[i]) % 3) % 3);
        lemma_convert_coef(m.poly()[i], k.poly()[i], delta.poly()[i], x.val(), b);
    }
    assert(conv_mac(m.poly(), c) =~= padd(conv_key_client(k.poly(), delta.poly(), c), pscale(conv_val_server(x.val(), c), delta.poly())));
    assert(conv_mac(m.poly(), c) =~= padd(conv_key_server(k.poly(), c), pscale(conv_val_client(x.val(), c), delta.poly())));
}

/// Bit `i` of the public masked value: bit `i` of `low` below 128, of `high` from there.
fn mask_bit(c: &F256b, i: usize) -> (r: bool)
    requires
        i < 256,
    ensures
        r == c.poly()[i as int],
{
    if i < 128 {
        (c.low >> (i as u128)) & 1 == 1
    } else {
        (c.high >> ((i - 128) as u128)) & 1 == 1
    }
}

/// The doubly-authenticated bits of one batch entry are well formed.
pub open spec fn bits_wf(bits: Seq<OPRFSharing<F3, F82t>>) -> bool {
    &&& bits.len() >= 256
    &&& forall|i: int| 0 <= i < 256 ==> (#[trigger] bits[i]).0.wf() && bits[i].1.1.wf() && bits[i].2.0.wf()
}

/// The client's converted shares of one batch entry.
pub open spec fn conv_vals_client_seq(bits: Seq<OPRFSharing<F3, F82t>>, c: F256b) -> Seq<F3> {
    Seq::new(256, |i: int| F3::of_nat(conv_val_client(bits[i].0.val(), c.poly()[i])))
}

/// The server's converted shares of one batch entry.
pub open spec fn conv_vals_server_seq(bits: Seq<OPRFSharing<F3, F82t>>, c: F256b) -> Seq<F3> {
    Seq::new(256, |i: int| F3::of_nat(conv_val_server(bits[i].0.val(), c.poly()[i])))
}

/// The converted MACs of one batch entry.
pub open spec fn conv_macs_seq(bits: Seq<OPRFSharing<F3, F82t>>, c: F256b) -> Seq<Seq<nat>> {
    Seq::new(256, |i: int| conv_mac(bits[i].1.1.poly(), c.poly()[i]))
}

/// The client's converted keys of one batch entry.
pub open spec fn conv_keys_client_seq(bits: Seq<OPRFSharing<F3, F82t>>, delta: F82t, c: F256b) -> Seq<Seq<nat>> {
    Seq::new(256, |i: int| conv_key_client(bits[i].2.0.poly(), delta.poly(), c.poly()[i]))
}

/// The server's converted keys of one batch entry.
pub open spec fn conv_keys_server_seq(bits: Seq<OPRFSharing<F3, F82t>>, c: F256b) -> Seq<Seq<nat>> {
    Seq::new(256, |i: int| conv_key_server(bits[i].2.0.poly(), c.poly()[i]))
}

/// Row `i` of `B` applied to converted values, MACs and keys: the share is the table's
/// row sum over the converted shares, and the MAC and key are the row's combination of the
/// converted MACs and keys. The share's own authenticated value is that of row `vrow`.
pub open spec fn output_ok(
    o: OPRFSharing<F3, F82t>,
    b: Seq<[F3; 256]>,
    table: Seq<F3>,
    vals: Seq<F3>,
    macs: Seq<Seq<nat>>,
    keys: Seq<Seq<nat>>,
    i: int,
    vrow: int,
) -> bool {
    &&& o.0.wf()
    &&& o.1.0.wf()
    &&& o.1.1.wf()
    &&& o.2.0.wf()
    &&& o.0.val() == table_row_sum(table, vals, i, 16) % 3
    &&& o.1.0.val() == table_row_sum(table, vals, vrow, 16) % 3
    &&& o.1.1.poly() == plincomb(f3_vals(b[i]@), macs, 82, 256)
    &&& o.2.0.poly() == plincomb(f3_vals(b[i]@), keys, 82, 256)
}

/// What `convert_client` asks of its inputs.
pub open spec fn convert_inputs_ok(
    batch_size: nat,
    b: Seq<[F3; 256]>,
    b_tables: Seq<F3>,
    da_bits: Seq<(OPRFExtensionSharing<F256b>, Vec<OPRFSharing<F3, F82t>>)>,
    n: nat,
    t: nat,
    c: Seq<F256b>,
) -> bool {
    &&& n == 256
    &&& t <= 82
    &&& batch_size <= da_bits.len()
    &&& batch_size <= c.len()
    &&& forall|j: int| 0 <= j < batch_size ==> bits_wf((#[trigger] da_bits[j]).1@)
    &&& b_wf(b)
    &&& b_tables.len() == 16 * 65536 * 82
    &&& all_wf(b_tables)
}

proof fn lemma_flat_index(j: int, k: int, t: int)
    requires
        0 <= j,
        0 <= k < t,
    ensures
        (j * t + k) / t == j,
        (j * t + k) % t == k,
{
    vstd::arithmetic::div_mod::lemma_fundamental_div_mod_converse(j * t + k, t, j, k);
}

/// Converts the client's doubly-authenticated bits of one batch entry and applies the first
/// `t` rows of `B`.
fn convert_entry_client(
    b: &[[F3; 256]; 82],
    b_tables: &Vec<F3>,
    bits: &Vec<OPRFSharing<F3, F82t>>,
    delta: &F82t,
    t: usize,
    cj: &F256b,
) -> (out: Vec<OPRFSharing<F3, F82t>>)
    requires
        t <= 82,
        bits_wf(bits@),
        b_wf(b@),
        b_tables.len() == 16 * 65536 * 82,
        all_wf(b_tables@),
        delta.wf(),
    ensures
        out.len() == t,
        forall|i: int| 0 <= i < t ==> output_ok(
            #[trigger] out[i],
            b@,
            b_tables@,
            conv_vals_client_seq(bits@, *cj),
            conv_macs_seq(bits@, *cj),
            conv_keys_client_seq(bits@, *delta, *cj),
            i,
            i,
        ),
{
    let mut vals = [F3::zero(); 256];
    let mut macs: Vec<F82t> = Vec::new();
    let mut keys: Vec<F82t> = Vec::new();
    let mut i: usize = 0;
    while i < 256
        invariant
            i <= 256,
            bits_wf(bits@),
            delta.wf(),
            macs.len() == i,
            keys.len() == i,
            forall|k: int| 0 <= k < i ==> (#[trigger] vals@[k]) == conv_vals_client_seq(bits@, *cj)[k],
            forall|k: int| 0 <= k < i ==> (#[trigger] macs[k]).wf() && macs[k].poly() == conv_macs_seq(bits@, *cj)[k],
            forall|k: int| 0 <= k < i ==> (#[trigger] keys[k]).wf() && keys[k].poly() == conv_keys_client_seq(bits@, *delta, *cj)[k],
        decreases 256 - i,
    {
        let ci = mask_bit(cj, i);
        let (v, m, k) = convert_bit_client(&bits[i], ci, delta);
        proof {
            crate::f3::lemma_f3_of_nat(conv_val_client(bits@[i as int].0.val(), ci));
            crate::f3::lemma_f3_val_injective(v, F3::of_nat(conv_val_client(bits@[i as int].0.val(), ci)));
        }
        vals[i] = v;
        macs.push(m);
        keys.push(k);
        i = i + 1;
    }
    proof {
        assert(vals@ =~= conv_vals_client_seq(bits@, *cj));
        assert(f82t_polys(macs@) =~= conv_macs_seq(bits@, *cj));
        assert(f82t_polys(keys@) =~= conv_keys_client_seq(bits@, *delta, *cj));
        assert forall|k: int| 0 <= k < 256 implies (#[trigger] vals@[k]).wf() by {
            crate::f3::lemma_f3_of_nat(conv_val_client(bits@[k].0.val(), cj.poly()[k]));
        }
    }
    let outs = crate::matrix_util::compute_row_using_table(b_tables, vals);
    let mut out: Vec<OPRFSharing<F3, F82t>> = Vec::new();
    let mut r: usize = 0;
    while r < t
        invariant
            r <= t,
            t <= 82,
            b_wf(b@),
            outs.len() == 82,
            all_wf(outs@),
            forall|row: int| 0 <= row < 82 ==> (#[trigger] outs@[row]).val() == table_row_sum(b_tables@, vals@, row, 16) % 3,
            vals@ == conv_vals_client_seq(bits@, *cj),
            macs.len() == 256,
            keys.len() == 256,
            forall|k: int| 0 <= k < 256 ==> (#[trigger] macs[k]).wf(),
            forall|k: int| 0 <= k < 256 ==> (#[trigger] keys[k]).wf(),
            f82t_polys(macs@) == conv_macs_seq(bits@, *cj),
            f82t_polys(keys@) == conv_keys_client_seq(bits@, *delta, *cj),
            out.len() == r,
            forall|i: int| 0 <= i < r ==> output_ok(
                #[trigger] out[i],
                b@,
                b_tables@,
                conv_vals_client_seq(bits@, *cj),
                conv_macs_seq(bits@, *cj),
                conv_keys_client_seq(bits@, *delta, *cj),
                i,
                i,
            ),
        decreases t - r,
    {
        assert(forall|k: int| 0 <= k < 256 ==> (#[trigger] b@[r as int]@[k]).wf());
        let mac = F82t::compute_vector(b[r], &macs);
        let key = F82t::compute_vector(b[r], &keys);
        let v = outs[r];
        out.push(OPRFSharing(v, MacProver(v, mac), MacVerifier(key)));
        r = r + 1;
    }
    out
}

/// Converts the server's doubly-authenticated bits of one batch entry and applies the first
/// `t` rows of `B`; each share's authenticated value is taken from row 1.
fn convert_entry_server(
    b: &[[F3; 256]; 82],
    b_tables: &Vec<F3>,
    bits: &Vec<OPRFSharing<F3, F82t>>,
    t: usize,
    cj: &F256b,
) -> (out: Vec<OPRFSharing<F3, F82t>>)
    requires
        t <= 82,
        bits_wf(bits@),
        b_wf(b@),
        b_tables.len() == 16 * 65536 * 82,
        all_wf(b_tables@),
    ensures
        out.len() == t,
        forall|i: int| 0 <= i < t ==> output_ok(
            #[trigger] out[i],
            b@,
            b_tables@,
            conv_vals_server_seq(bits@, *cj),
            conv_macs_seq(bits@, *cj),
            conv_keys_server_seq(bits@, *cj),
            i,
            1,
        ),
{
    let mut vals = [F3::zero(); 256];
    let mut macs: Vec<F82t> = Vec::new();
    let mut keys: Vec<F82t> = Vec::new();
    let mut i: usize = 0;
    while i < 256
        invariant
            i <= 256,
            bits_wf(bits@),
            macs.len() == i,
            keys.len() == i,
            forall|k: int| 0 <= k < i ==> (#[trigger] vals@[k]) == conv_vals_server_seq(bits@, *cj)[k],
            forall|k: int| 0 <= k < i ==> (#[trigger] macs[k]).wf() && macs[k].poly() == conv_macs_seq(bits@, *cj)[k],
            forall|k: int| 0 <= k < i ==> (#[trigger] keys[k]).wf() && keys[k].poly() == conv_keys_server_seq(bits@, *cj)[k],
        decreases 256 - i,
    {
        let ci = mask_bit(cj, i);
        let (v, m, k) = convert_bit_server(&bits[i], ci);
        proof {
            crate::f3::lemma_f3_of_nat(conv_val_server(bits@[i as int].0.val(), ci));
            crate::f3::lemma_f3_val_injective(v, F3::of_nat(conv_val_server(bits@[i as int].0.val(), ci)));
        }
        vals[i] = v;
        macs.push(m);
        keys.push(k);
        i = i + 1;
    }
    proof {
        assert(vals@ =~= conv_vals_server_seq(bits@, *cj));
        assert(f82t_polys(macs@) =~= conv_macs_seq(bits@, *cj));
        assert(f82t_polys(keys@) =~= conv_keys_server_seq(bits@, *cj));
        assert forall|k: int| 0 <= k < 256 implies (#[trigger] vals@[k]).wf() by {
            crate::f3::lemma_f3_of_nat(conv_val_server(bits@[k].0.val(), cj.poly()[k]));
        }
    }
    let outs = crate::matrix_util::compute_row_using_table(b_tables, vals);
    let mut out: Vec<OPRFSharing<F3, F82t>> = Vec::new();
    let mut r: usize = 0;
    while r < t
        invariant
            r <= t,
            t <= 82,
            b_wf(b@),
            outs.len() == 82,
            all_wf(outs@),
            forall|row: int| 0 <= row < 82 ==> (#[trigger] outs@[row]).val() == table_row_sum(b_tables@, vals@, row, 16) % 3,
            vals@ == conv_vals_server_seq(bits@, *cj),
            macs.len() == 256,
            keys.len() == 256,
            forall|k: int| 0 <= k < 256 ==> (#[trigger] macs[k]).wf(),
            forall|k: int| 0 <= k < 256 ==> (#[trigger] keys[k]).wf(),
            f82t_polys(macs@) == conv_macs_seq(bits@, *cj),
            f82t_polys(keys@) == conv_keys_server_seq(bits@, *cj),
            out.len() == r,
            forall|i: int| 0 <= i < r ==> output_ok(
                #[trigger] out[i],
                b@,
                b_tables@,
                conv_vals_server_seq(bits@, *cj),
                conv_macs_seq(bits@, *cj),
                conv_keys_server_seq(bits@, *cj),
                i,
                1,
            ),
        decreases t - r,
    {
        assert(forall|k: int| 0 <= k < 256 ==> (#[trigger] b@[r as int]@[k]).wf());
        let mac = F82t::compute_vector(b[r], &macs);
        let key = F82t::compute_vector(b[r], &keys);
        let v = outs[r];
        out.push(OPRFSharing(v, MacProver(outs[1], mac), MacVerifier(key)));
        r = r + 1;
    }
    out
}

/// The client's conversion of a batch: for each entry `j`, its 256 doubly-authenticated
/// bits are converted under the bits of the public masked value `c[j]`, with `delta` the
/// client's MAC key offset, and the first `t` rows of `B` are applied. Entry `j`, row `i`
/// lands at `j * t + i`.
pub fn convert_client(
    batch_size: usize,
    b: &[[F3; 256]; 82],
    b_tables: &Vec<F3>,
    da_bits: &Vec<(OPRFExtensionSharing<F256b>, Vec<OPRFSharing<F3, F82t>>)>,
    delta: &F82t,
    n: usize,
    t: usize,
    c: &Vec<F256b>,
) -> (out: Vec<OPRFSharing<F3, F82t>>)
    requires
        convert_inputs_ok(batch_size as nat, b@, b_tables@, da_bits@, n as nat, t as nat, c@),
        delta.wf(),
    ensures
        out.len() == batch_size * t,
        forall|p: int| 0 <= p < out.len() ==> output_ok(
            #[trigger] out[p],
            b@,
            b_tables@,
            conv_vals_client_seq(da_bits[p / t as int].1@, c[p / t as int]),
            conv_macs_seq(da_bits[p / t as int].1@, c[p / t as int]),
            conv_keys_client_seq(da_bits[p / t as int].1@, *delta, c[p / t as int]),
            p % t as int,
            p % t as int,
        ),
{
    let mut out: Vec<OPRFSharing<F3, F82t>> = Vec::new();
    let mut j: usize = 0;
    while j < batch_size
        invariant
            j <= batch_size,
            convert_inputs_ok(batch_size as nat, b@, b_tables@, da_bits@, n as nat, t as nat, c@),
            delta.wf(),
            out.len() == j * t,
            forall|p: int| 0 <= p < out.len() ==> output_ok(
                #[trigger] out[p],
                b@,
                b_tables@,
                conv_vals_client_seq(da_bits[p / t as int].1@, c[p / t as int]),
                conv_macs_seq(da_bits[p / t as int].1@, c[p / t as int]),
                conv_keys_client_seq(da_bits[p / t as int].1@, *delta, c[p / t as int]),
                p % t as int,
                p % t as int,
            ),
        decreases batch_size - j,
    {
        assert(bits_wf(da_bits[j as int].1@));
        let entry = convert_entry_client(b, b_tables, &da_bits[j].1, delta, t, &c[j]);
        let mut k: usize = 0;
        while k < t
            invariant
                k <= t,
                j < batch_size,
                convert_inputs_ok(batch_size as nat, b@, b_tables@, da_bits@, n as nat, t as nat, c@),
                entry.len() == t,
                forall|i: int| 0 <= i < t ==> output_ok(
                    #[trigger] entry[i],
                    b@,
                    b_tables@,
                    conv_vals_client_seq(da_bits[j as int].1@, c[j as int]),
                    conv_macs_seq(da_bits[j as int].1@, c[j as int]),
                    conv_keys_client_seq(da_bits[j as int].1@, *delta, c[j as int]),
                    i,
                    i,
                ),
                out.len() == j * t + k,
                forall|p: int| 0 <= p < out.len() ==> output_ok(
                    #[trigger] out[p],
                    b@,
                    b_tables@,
                    conv_vals_client_seq(da_bits[p / t as int].1@, c[p / t as int]),
                    conv_macs_seq(da_bits[p / t as int].1@, c[p / t as int]),
                    conv_keys_client_seq(da_bits[p / t as int].1@, *delta, c[p / t as int]),
                    p % t as int,
                    p % t as int,
                ),
            decreases t - k,
        {
            proof {
                lemma_flat_index(j as int, k as int, t as int);
            }
            out.push(entry[k]);
            k = k + 1;
        }
        proof {
            assert((j + 1) * t == j * t + t) by (nonlinear_arith);
        }
        j = j + 1;
    }
    out
}

/// The server's conversion of a batch: for each entry `j`, its 256 doubly-authenticated
/// bits are converted under the bits of `c[j]` and the first `t` rows of `B` are applied;
/// the authenticated value of every share is the entry's row 1. Entry `j`, row `i` lands
/// at `j * t + i`.
///
/// Row 1, not row `i`, gives every share's authenticated value, unlike `convert_client`,
/// which takes row `i`; this looks like a slip but is what the server's conversion does.
/// The share's value (`.0`) is row `i`.
pub fn convert_server(
    batch_size: usize,
    b: &[[F3; 256]; 82],
    b_tables: &Vec<F3>,
    da_bits: &Vec<(OPRFExtensionSharing<F256b>, Vec<OPRFSharing<F3, F82t>>)>,
    n: usize,
    t: usize,
    c: &Vec<F256b>,
) -> (out: Vec<OPRFSharing<F3, F82t>>)
    requires
        convert_inputs_ok(batch_size as nat, b@, b_tables@, da_bits@, n as nat, t as nat, c@),
    ensures
        out.len() == batch_size * t,
        forall|p: int| 0 <= p < out.len() ==> output_ok(
            #[trigger] out[p],
            b@,
            b_tables@,
            conv_vals_server_seq(da_bits[p / t as int].1@, c[p / t as int]),
            conv_macs_seq(da_bits[p / t as int].1@, c[p / t as int]),
            conv_keys_server_seq(da_bits[p / t as int].1@, c[p / t as int]),
            p % t as int,
            1,
        ),
{
    let mut out: Vec<OPRFSharing<F3, F82t>> = Vec::new();
    let mut j: usize = 0;
    while j < batch_size
        invariant
            j <= batch_size,
            convert_inputs_ok(batch_size as nat, b@, b_tables@, da_bits@, n as nat, t as nat, c@),
            out.len() == j * t,
            forall|p: int| 0 <= p < out.len() ==> output_ok(
                #[trigger] out[p],
                b@,
                b_tables@,
                conv_vals_server_seq(da_bits[p / t as int].1@, c[p / t as int]),
                conv_macs_seq(da_bits[p / t as int].1@, c[p / t as int]),
                conv_keys_server_seq(da_bits[p / t as int].1@, c[p / t as int]),
                p % t as int,
                1,
            ),
        decreases batch_size - j,
    {
        assert(bits_wf(da_bits[j as int].1@));
        let entry = convert_entry_server(b, b_tables, &da_bits[j].1, t, &c[j]);
        let mut k: usize = 0;
        while k < t
            invariant
                k <= t,
                j < batch_size,
                convert_inputs_ok(batch_size as nat, b@, b_tables@, da_bits@, n as nat, t as nat, c@),
                entry.len() == t,
                forall|i: int| 0 <= i < t ==> output_ok(
                    #[trigger] entry[i],
                    b@,
                    b_tables@,
                    conv_vals_server_seq(da_bits[j as int].1@, c[j as int]),
                    conv_macs_seq(da_bits[j as int].1@, c[j as int]),
                    conv_keys_server_seq(da_bits[j as int].1@, c[j as int]),
                    i,
                    1,
                ),
                out.len() == j * t + k,
                forall|p: int| 0 <= p < out.len() ==> output_ok(
                    #[trigger] out[p],
                    b@,
                    b_tables@,
                    conv_vals_server_seq(da_bits[p / t as int].1@, c[p / t as int]),
                    conv_macs_seq(da_bits[p / t as int].1@, c[p / t as int]),
                    conv_keys_server_seq(da_bits[p / t as int].1@, c[p / t as int]),
                    p % t as int,
                    1,
                ),
            decreases t - k,
        {
            proof {
                lemma_flat_index(j as int, k as int, t as int);
            }
            out.push(entry[k]);
            k = k + 1;
        }
        proof {
            assert((j + 1) * t == j * t + t) by (nonlinear_arith);
        }
        j = j + 1;
    }
    out
}

/// Masks the shares of a batch with the binary halves of the doubly-authenticated bits:
/// for each entry `j`, the share value, its MAC and the key of the other party's share
/// each get the entry's bit value, MAC and key added. The masked values and MACs are then
/// opened, and the masked keys check the other party's opening.
pub fn open_c_mask(
    batch_size: usize,
    da_bits: &Vec<(OPRFExtensionSharing<F256b>, Vec<OPRFSharing<F3, F82t>>)>,
    values: &Vec<F256b>,
    macs: &Vec<F256b>,
    keys: &Vec<F256b>,
) -> (r: (Vec<F256b>, Vec<F256b>, Vec<F256b>))
    requires
        batch_size <= da_bits.len(),
        batch_size <= values.len(),
        batch_size <= macs.len(),
        batch_size <= keys.len(),
    ensures
        r.0.len() == batch_size,
        r.1.len() == batch_size,
        r.2.len() == batch_size,
        forall|j: int| 0 <= j < batch_size ==> (#[trigger] r.0[j]).poly() == badd(da_bits[j].0.0.poly(), values[j].poly()),
        forall|j: int| 0 <= j < batch_size ==> (#[trigger] r.1[j]).poly() == badd(da_bits[j].0.1.poly(), macs[j].poly()),
        forall|j: int| 0 <= j < batch_size ==> (#[trigger] r.2[j]).poly() == badd(da_bits[j].0.2.poly(), keys[j].poly()),
{
    let mut cv: Vec<F256b> = Vec::new();
    let mut cm: Vec<F256b> = Vec::new();
    let mut ck: Vec<F256b> = Vec::new();
    let mut j: usize = 0;
    while j < batch_size
        invariant
            j <= batch_size,
            batch_size <= da_bits.len(),
            batch_size <= values.len(),
            batch_size <= macs.len(),
            batch_size <= keys.len(),
            cv.len() == j,
            cm.len() == j,
            ck.len() == j,
            forall|i: int| 0 <= i < j ==> (#[trigger] cv[i]).poly() == badd(da_bits[i].0.0.poly(), values[i].poly()),
            forall|i: int| 0 <= i < j ==> (#[trigger] cm[i]).poly() == badd(da_bits[i].0.1.poly(), macs[i].poly()),
            forall|i: int| 0 <= i < j ==> (#[trigger] ck[i]).poly() == badd(da_bits[i].0.2.poly(), keys[i].poly()),
        decreases batch_size - j,
    {
        let d = &da_bits[j].0;
        cv.push(d.0.add(&values[j]));
        cm.push(d.1.add(&macs[j]));
        ck.push(d.2.add(&keys[j]));
        j = j + 1;
    }
    (cv, cm, ck)
}

/// Masking keeps the MAC relation: when the bit's MAC is its key plus `delta` times its
/// value, and likewise the share's, the masked MAC is the masked key plus `delta` times
/// the masked value.
pub proof fn lemma_open_c_keeps_mac_relation(
    bit_value: F256b, bit_mac: F256b, bit_key: F256b,
    value: F256b, mac: F256b, key: F256b,
    delta: F256b,
)
    requires
        bit_mac.poly() == badd(bit_key.poly(), bmul(delta.poly(), bit_value.poly(), red256())),
        mac.poly() == badd(key.poly(), bmul(delta.poly(), value.poly(), red256())),
    ensures
        badd(bit_mac.poly(), mac.poly()) == badd(
            badd(bit_key.poly(), key.poly()),
            bmul(delta.poly(), badd(bit_value.poly(), value.poly()), red256()),
        ),
{
    let dp = delta.poly();
    let x = bmul(dp, bit_value.poly(), red256());
    let y = bmul(dp, value.poly(), red256());
    crate::gf2poly::lemma_bmul_len(dp, bit_value.poly(), red256());
    crate::gf2poly::lemma_bmul_len(dp, value.poly(), red256());
    lemma_bmul_distributes(dp, bit_value.poly(), value.poly(), red256());
    let k1 = bit_key.poly();
    let k2 = key.poly();
    lemma_badd_group(k1, x, badd(k2, y));
    lemma_badd_group(x, k2, y);
    lemma_badd_group(k2, x, y);
    lemma_badd_group(k1, k2, badd(x, y));
}

/// The opened value: the sum of the party's masked share and the other party's opened
/// masked share, entry by entry.
pub fn open_c_combine(mine: &Vec<F256b>, theirs: &Vec<F256b>) -> (c: Vec<F256b>)
    requires
        theirs.len() >= mine.len(),
    ensures
        c.len() == mine.len(),
        forall|j: int| 0 <= j < c.len() ==> (#[trigger] c[j]).poly() == badd(mine[j].poly(), theirs[j].poly()),
{
    let mut c: Vec<F256b> = Vec::new();
    let mut j: usize = 0;
    while j < mine.len()
        invariant
            j <= mine.len(),
            theirs.len() >= mine.len(),
            c.len() == j,
            forall|i: int| 0 <= i < j ==> (#[trigger] c[i]).poly() == badd(mine[i].poly(), theirs[i].poly()),
        decreases mine.len() - j,
    {
        c.push(mine[j].add(&theirs[j]));
        j = j + 1;
    }
    c
}

/// The revealed outputs: the party's GF(3) output shares plus the other party's opened
/// ones.
pub fn reveal_outputs(mine: &Vec<F3>, theirs: &Vec<F3>) -> (out: Vec<F3>)
    requires
        theirs.len() >= mine.len(),
        all_wf(mine@),
        all_wf(theirs@),
    ensures
        out.len() == mine.len(),
        all_wf(out@),
        forall|j: int| 0 <= j < out.len() ==> (#[trigger] out[j]).val() == (mine[j].val() + theirs[j].val()) % 3,
{
    let mut out: Vec<F3> = Vec::new();
    let mut j: usize = 0;
    while j < mine.len()
        invariant
            j <= mine.len(),
            theirs.len() >= mine.len(),
            all_wf(mine@),
            all_wf(theirs@),
            out.len() == j,
            all_wf(out@),
            forall|i: int| 0 <= i < j ==> (#[trigger] out[i]).val() == (mine[i].val() + theirs[i].val()) % 3,
        decreases mine.len() - j,
    {
        assert(mine@[j as int].wf() && theirs@[j as int].wf());
        out.push(mine[j].add(&theirs[j]));
        j = j + 1;
    }
    out
}

/// Products with one row add up modulo three: when `x[i] + z[i] = w[i]` modulo three for
/// every `i < n`, `a . x + a . z = a . w` modulo three.
proof fn lemma_dot_add_mod3(a: Seq<F3>, x: Seq<nat>, z: Seq<nat>, w: Seq<nat>, n: nat)
    requires
        n <= x.len(),
        n <= z.len(),
        n <= w.len(),
        forall|i: int| 0 <= i < n ==> (#[trigger] x[i] + z[i]) % 3 == w[i] % 3,
    ensures
        (dot(a, x, n) + dot(a, z, n)) % 3 == dot(a, w, n) % 3,
    decreases n,
{
    if n > 0 {
        let m = (n - 1) as nat;
        lemma_dot_add_mod3(a, x, z, w, m);
        let c = a[m as int].val() as int;
        let xi = x[m as int] as int;
        let zi = z[m as int] as int;
        let wi = w[m as int] as int;
        assert((xi + zi) % 3 == wi % 3);
        let k = (xi + zi) / 3 - wi / 3;
        vstd::arithmetic::div_mod::lemma_fundamental_div_mod(xi + zi, 3);
        vstd::arithmetic::div_mod::lemma_fundamental_div_mod(wi, 3);
        assert(xi + zi == wi + 3 * k);
        assert(c * xi + c * zi == c * wi + 3 * (c * k)) by (nonlinear_arith)
            requires
                xi + zi == wi + 3 * k,
        ;
        let lhs = dot(a, x, n) + dot(a, z, n);
        let prev = dot(a, x, m) + dot(a, z, m);
        assert(lhs == prev + c * wi + 3 * (c * k));
        vstd::arithmetic::div_mod::lemma_mod_multiples_vanish(c * k, prev + c * wi, 3);
        vstd::arithmetic::div_mod::lemma_add_mod_noop(prev, c * wi, 3);
        vstd::arithmetic::div_mod::lemma_add_mod_noop(dot(a, w, m), c * wi, 3);
        assert(3 * (c * k) + (prev + c * wi) == lhs);
    }
}

/// Looking up two share vectors in the tables of `B` gives shares of `B w` when the
/// entries add up to `w` modulo three.
pub(crate) proof fn lemma_tables_add(table: Seq<F3>, b: Seq<[F3; 256]>, vc: Seq<F3>, vs: Seq<F3>, w: Seq<nat>, row: int)
    requires
        is_table_for(table, b),
        b.len() == 82,
        b_wf(b),
        vc.len() == 256,
        vs.len() == 256,
        all_wf(vc),
        all_wf(vs),
        w.len() >= 256,
        forall|i: int| 0 <= i < 256 ==> (#[trigger] vc[i].val() + vs[i].val()) % 3 == w[i] % 3,
        0 <= row < 82,
    ensures
        (table_row_sum(table, vc, row, 16) % 3 + table_row_sum(table, vs, row, 16) % 3) % 3 == b_times(b, w)[row],
{
    lemma_table_lookup_is_apply_b(table, b, vc);
    lemma_table_lookup_is_apply_b(table, b, vs);
    let x = tvals(vc);
    let z = tvals(vs);
    assert forall|i: int| 0 <= i < 256 implies (#[trigger] x[i] + z[i]) % 3 == w[i] % 3 by {
        assert(vc[i].val() + vs[i].val() == x[i] + z[i]);
    }
    lemma_dot_add_mod3(b[row]@, x, z, w, 256);
    vstd::arithmetic::div_mod::lemma_add_mod_noop(dot(b[row]@, x, 256), dot(b[row]@, z, 256), 3);
}

/// The conversion evaluates `B` on the unmasked value: when the parties' GF(3) shares of
/// each doubly-authenticated bit add up to bit `i` of `r`, the public value is `c = y + r`
/// in GF(2^256) and the tables are those of `B`, the client's and the server's outputs for
/// a row add up to that row of `B` times the bits of `y`. With `y` the product of key and
/// input, this is the weak PRF of [`crate::matrix_util::w_prf_clear`].
pub proof fn lemma_conversion_evaluates_b(
    client_bits: Seq<OPRFSharing<F3, F82t>>,
    server_bits: Seq<OPRFSharing<F3, F82t>>,
    r: F256b,
    y: F256b,
    c: F256b,
    b: Seq<[F3; 256]>,
    table: Seq<F3>,
    row: int,
)
    requires
        bits_wf(client_bits),
        bits_wf(server_bits),
        forall|i: int| 0 <= i < 256 ==> ((#[trigger] client_bits[i]).0.val() + server_bits[i].0.val()) % 3 == bit3(r.poly()[i]),
        c.poly() == badd(y.poly(), r.poly()),
        is_table_for(table, b),
        b.len() == 82,
        b_wf(b),
        0 <= row < 82,
    ensures
        (table_row_sum(table, conv_vals_client_seq(client_bits, c), row, 16) % 3 + table_row_sum(
            table,
            conv_vals_server_seq(server_bits, c),
            row,
            16,
        ) % 3) % 3 == b_times(b, poly_bits(y.poly()))[row],
{
    let vc = conv_vals_client_seq(client_bits, c);
    let vs = conv_vals_server_seq(server_bits, c);
    let w = poly_bits(y.poly());
    assert forall|i: int| 0 <= i < 256 implies (#[trigger] vc[i]).wf() && vs[i].wf() && (vc[i].val() + vs[i].val()) % 3 == w[i] % 3 by {
        let xc = client_bits[i].0.val();
        let xs = server_bits[i].0.val();
        let ci = c.poly()[i];
        let ri = r.poly()[i];
        assert(xc < 3 && xs < 3);
        lemma_convert_values(xc, xs, ri, ci);
        crate::f3::lemma_f3_of_nat(conv_val_client(xc, ci));
        crate::f3::lemma_f3_of_nat(conv_val_server(xs, ci));
        assert(ci == (y.poly()[i] != ri));
    }
    lemma_tables_add(table, b, vc, vs, w, row);
}

} // verus!
