//! Bits shared both over GF(2) and over GF(3).
//!
//! The client holds a bit `c` with MAC `M = K + c * delta` in GF(2^256); the server holds
//! the key `K`, `delta` and a bit `b`. From the masks of `K` and `K + delta` the server
//! sends `t = b + m0 - m1` and keeps `b - m0`; the client adds `m_c + c * t + c`. The two
//! GF(3) shares then add up to `b xor c`, the bit that the GF(2) shares add up to.
use vstd::prelude::*;
use crate::f3::F3;
use crate::f256b::{F256b, sum_words, lemma_poly_injective};
use crate::digest::{f3_mask, mask_f256b};
use crate::gf2poly::badd;

verus! {

/// The element of GF(3) standing for a bit.
pub open spec fn bit_val(b: bool) -> nat {
    if b {
        1
    } else {
        0
    }
}

/// The server's masks: those of `K` and of `K + delta`.
pub open spec fn ha_bit_masks(key: F256b, delta: F256b) -> (nat, nat) {
    (f3_mask(key.encoding()).val(), f3_mask(sum_words(key, delta).encoding()).val())
}

/// The server's message `t = b + m0 - m1` and its own share `b - m0`.
pub open spec fn ha_bit_server_of(b: bool, m: (nat, nat)) -> (nat, nat) {
    (((bit_val(b) + m.0 - m.1) % 3) as nat, ((bit_val(b) - m.0) % 3) as nat)
}

/// The client's share `m + c * t + c`, from the mask `m` of its MAC.
pub open spec fn ha_bit_client_of(c: bool, m: nat, t: nat) -> nat {
    ((m + bit_val(c) * t + bit_val(c)) % 3) as nat
}

/// The GF(3) element of a bit.
fn f3_of_bit(b: bool) -> (r: F3)
    ensures
        r.wf(),
        r.val() == bit_val(b),
{
    if b {
        F3::one()
    } else {
        F3::zero()
    }
}

/// The client's GF(3) shares: for each bit `c` with its MAC and the server's `t`, the mask
/// of the MAC plus `c * t + c`.
pub fn ha_bit_client_shares(macs: &Vec<F256b>, bits: &Vec<bool>, t: &Vec<F3>) -> (r: Vec<F3>)
    requires
        macs.len() == bits.len(),
        t.len() == bits.len(),
        forall|i: int| 0 <= i < t.len() ==> (#[trigger] t[i]).wf(),
    ensures
        r.len() == bits.len(),
        forall|i: int|
            0 <= i < r.len() ==> (#[trigger] r[i]).wf() && r[i].val() == ha_bit_client_of(
                bits[i],
                f3_mask(macs[i].encoding()).val(),
                t[i].val(),
            ),
{
    let mut r: Vec<F3> = Vec::new();
    let mut i: usize = 0;
    while i < bits.len()
        invariant
            i <= bits.len(),
            macs.len() == bits.len(),
            t.len() == bits.len(),
            forall|j: int| 0 <= j < t.len() ==> (#[trigger] t[j]).wf(),
            r.len() == i,
            forall|j: int|
                0 <= j < i ==> (#[trigger] r[j]).wf() && r[j].val() == ha_bit_client_of(
                    bits[j],
                    f3_mask(macs[j].encoding()).val(),
                    t[j].val(),
                ),
        decreases bits.len() - i,
    {
        let m = mask_f256b(&macs[i]);
        let c = f3_of_bit(bits[i]);
        let ct = c.mul(&t[i]);
        let s = m.add(&ct).add(&c);
        proof {
            let x = m.val() as int;
            let y = (bit_val(bits[i as int]) * t[i as int].val()) as int;
            let z = c.val() as int;
            vstd::arithmetic::div_mod::lemma_small_mod(m.val(), 3);
            vstd::arithmetic::div_mod::lemma_small_mod(c.val(), 3);
            vstd::arithmetic::div_mod::lemma_add_mod_noop(x, y, 3);
            vstd::arithmetic::div_mod::lemma_add_mod_noop(x + y, z, 3);
            vstd::arithmetic::div_mod::lemma_mod_twice(x + y, 3);
        }
        r.push(s);
        i = i + 1;
    }
    r
}

/// The server's messages and GF(3) shares: for each bit `b` and key `K`, `t = b + m0 - m1`
/// and `b - m0`, from the masks of `K` and `K + delta`.
pub fn ha_bit_server_shares(bits: &Vec<bool>, keys: &Vec<F256b>, delta: &F256b) -> (r: (Vec<F3>, Vec<F3>))
    requires
        keys.len() == bits.len(),
    ensures
        r.0.len() == bits.len(),
        r.1.len() == bits.len(),
        forall|i: int|
            0 <= i < bits.len() ==> (#[trigger] r.0[i]).wf() && r.1[i].wf() && (r.0[i].val(),
            r.1[i].val()) == ha_bit_server_of(bits[i], ha_bit_masks(keys[i], *delta)),
{
    let mut ts: Vec<F3> = Vec::new();
    let mut shares: Vec<F3> = Vec::new();
    let mut i: usize = 0;
    while i < bits.len()
        invariant
            i <= bits.len(),
            keys.len() == bits.len(),
            ts.len() == i,
            shares.len() == i,
            forall|j: int|
                0 <= j < i ==> (#[trigger] ts[j]).wf() && shares[j].wf() && (ts[j].val(),
                shares[j].val()) == ha_bit_server_of(bits[j], ha_bit_masks(keys[j], *delta)),
        decreases bits.len() - i,
    {
        let k1 = keys[i].add(delta);
        let m0 = mask_f256b(&keys[i]);
        let m1 = mask_f256b(&k1);
        let b = f3_of_bit(bits[i]);
        let t = b.add(&m0).sub(&m1);
        let s = b.sub(&m0);
        proof {
            let bv = b.val() as int;
            let x = m0.val() as int;
            let y = m1.val() as int;
            vstd::arithmetic::div_mod::lemma_small_mod(t.val(), 3);
            vstd::arithmetic::div_mod::lemma_small_mod(s.val(), 3);
            vstd::arithmetic::div_mod::lemma_small_mod(m1.val(), 3);
            vstd::arithmetic::div_mod::lemma_small_mod(m0.val(), 3);
            vstd::arithmetic::div_mod::lemma_sub_mod_noop(t.val() + y, y, 3);
            vstd::arithmetic::div_mod::lemma_sub_mod_noop(bv + x, y, 3);
            vstd::arithmetic::div_mod::lemma_sub_mod_noop(s.val() + x, x, 3);
        }
        ts.push(t);
        shares.push(s);
        i = i + 1;
    }
    (ts, shares)
}

/// The GF(3) shares add up to the bit: when the client's MAC is `K + c * delta`, its
/// share and the server's add up to `b xor c`.
pub proof fn lemma_ha_bit_shares_add_up(key: F256b, delta: F256b, mac: F256b, b: bool, c: bool)
    requires
        mac.poly() == (if c {
            badd(key.poly(), delta.poly())
        } else {
            key.poly()
        }),
    ensures
        ({
            let s = ha_bit_server_of(b, ha_bit_masks(key, delta));
            (ha_bit_client_of(c, f3_mask(mac.encoding()).val(), s.0) + s.1) % 3 == bit_val(b != c)
        }),
{
    let m = ha_bit_masks(key, delta);
    crate::f256b::lemma_sum_words(key, delta);
    let k1 = sum_words(key, delta);
    if c {
        lemma_poly_injective(mac, k1);
    } else {
        lemma_poly_injective(mac, key);
    }
    crate::f3::lemma_f3_of_nat(crate::bytes::le_value(crate::digest::blake3_digest(key.encoding()).subrange(0, 16)));
    crate::f3::lemma_f3_of_nat(crate::bytes::le_value(crate::digest::blake3_digest(k1.encoding()).subrange(0, 16)));
    assert(m.0 < 3 && m.1 < 3);
}

} // verus!
