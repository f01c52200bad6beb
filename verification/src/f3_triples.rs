//! Multiplication triples over GF(3) from authenticated values over GF(3^82).
//!
//! The client holds `a` with MAC `M = K + a * delta`; the server holds the key `K` and
//! `delta`. Hashing the three candidates `K`, `K + delta`, `K + 2 delta` gives the server
//! three masks, from which it derives the shares `(delta_i, b, c_s)`; the client derives
//! `c_c` from the mask of `M`, and then `a * b = c_c + c_s`. Buckets of such triples are
//! checked against each other ("sacrificed") and combined.
use vstd::prelude::*;
use crate::f3::F3;
use crate::f82t::{F82t, sum_words, lemma_sum_words, lemma_f82t_poly_injective, lemma_f82t_reduced};
use crate::digest::{f3_mask, mask_f82t};
use crate::gf3poly::{padd, pscale};

verus! {

/// How far a triple is from multiplying: `a * b - (c_c + c_s)` modulo three.
pub open spec fn triple_error(a: nat, b: nat, c_c: nat, c_s: nat) -> int {
    (a * b - (c_c + c_s)) % 3
}

/// The server's masks of a key: those of `K`, `K + delta` and `K + 2 delta`.
pub open spec fn server_masks(key: F82t, delta: F82t) -> (nat, nat, nat) {
    let k1 = sum_words(key, delta);
    let k2 = sum_words(k1, delta);
    (f3_mask(key.encoding()).val(), f3_mask(k1.encoding()).val(), f3_mask(k2.encoding()).val())
}

/// The server's shares from its masks: `delta_i = m0 + m1 + m2`, `b = 2 m1 + m2` and
/// `c_s = -m0`.
pub open spec fn server_shares_of(m: (nat, nat, nat)) -> (nat, nat, nat) {
    ((m.0 + m.1 + m.2) % 3, (2 * m.1 + m.2) % 3, (2 * m.0) % 3)
}

/// The client's share `c_c = m + delta_i * a * a` from the mask `m` of its MAC.
pub open spec fn client_share_of(m: nat, a: nat, delta_i: nat) -> nat {
    (m + delta_i * a * a) % 3
}

/// The client's share of one triple.
fn client_share(mac: &F82t, a: F3, delta_i: F3) -> (c: F3)
    requires
        a.wf(),
        delta_i.wf(),
    ensures
        c.wf(),
        c.val() == client_share_of(f3_mask(mac.encoding()).val(), a.val(), delta_i.val()),
{
    let m = mask_f82t(mac);
    let da = delta_i.mul(&a);
    let daa = da.mul(&a);
    let c = m.add(&daa);
    proof {
        let x = delta_i.val() as int;
        let y = a.val() as int;
        vstd::arithmetic::div_mod::lemma_mul_mod_noop_left(x * y, y, 3);
        vstd::arithmetic::div_mod::lemma_add_mod_noop(m.val() as int, x * y * y, 3);
        vstd::arithmetic::div_mod::lemma_mod_twice(m.val() as int, 3);
        vstd::arithmetic::div_mod::lemma_mod_twice(x * y * y, 3);
        vstd::arithmetic::div_mod::lemma_small_mod(m.val(), 3);
    }
    c
}

/// The client's shares `c_c` of the triples: for each value `a` with its MAC and the
/// `delta_i` the server sent, the mask of the MAC plus `delta_i * a * a`.
pub fn triple_client_shares(macs: &Vec<F82t>, values: &Vec<F3>, deltas: &Vec<F3>) -> (c: Vec<F3>)
    requires
        macs.len() == values.len(),
        deltas.len() == values.len(),
        forall|i: int| 0 <= i < values.len() ==> (#[trigger] values[i]).wf(),
        forall|i: int| 0 <= i < deltas.len() ==> (#[trigger] deltas[i]).wf(),
    ensures
        c.len() == values.len(),
        forall|i: int|
            0 <= i < c.len() ==> (#[trigger] c[i]).wf() && c[i].val() == client_share_of(
                f3_mask(macs[i].encoding()).val(),
                values[i].val(),
                deltas[i].val(),
            ),
{
    let mut c: Vec<F3> = Vec::new();
    let mut i: usize = 0;
    while i < values.len()
        invariant
            i <= values.len(),
            macs.len() == values.len(),
            deltas.len() == values.len(),
            forall|j: int| 0 <= j < values.len() ==> (#[trigger] values[j]).wf(),
            forall|j: int| 0 <= j < deltas.len() ==> (#[trigger] deltas[j]).wf(),
            c.len() == i,
            forall|j: int|
                0 <= j < i ==> (#[trigger] c[j]).wf() && c[j].val() == client_share_of(
                    f3_mask(macs[j].encoding()).val(),
                    values[j].val(),
                    deltas[j].val(),
                ),
        decreases values.len() - i,
    {
        let ci = client_share(&macs[i], values[i], deltas[i]);
        c.push(ci);
        i = i + 1;
    }
    c
}

/// The server's shares of one triple: `(delta_i, b, c_s)`.
fn server_shares(key: &F82t, delta: &F82t) -> (r: (F3, F3, F3))
    requires
        key.wf(),
        delta.wf(),
    ensures
        r.0.wf(),
        r.1.wf(),
        r.2.wf(),
        (r.0.val(), r.1.val(), r.2.val()) == server_shares_of(server_masks(*key, *delta)),
{
    let k1 = key.add(delta);
    let k2 = k1.add(delta);
    let m0 = mask_f82t(key);
    let m1 = mask_f82t(&k1);
    let m2 = mask_f82t(&k2);
    let b = m1.add(&m1).add(&m2);
    let c = m0.neg();
    let d = m0.add(&m1).add(&m2);
    proof {
        lemma_sum_words(*key, *delta);
        vstd::arithmetic::div_mod::lemma_add_mod_noop((m1.val() + m1.val()) as int, m2.val() as int, 3);
        vstd::arithmetic::div_mod::lemma_mod_twice(m2.val() as int, 3);
        vstd::arithmetic::div_mod::lemma_small_mod(m2.val(), 3);
        vstd::arithmetic::div_mod::lemma_add_mod_noop((m0.val() + m1.val()) as int, m2.val() as int, 3);
    }
    (d, b, c)
}

/// The server's shares of the triples: for each key, `delta_i`, `b` and `c_s` from the
/// masks of `K`, `K + delta` and `K + 2 delta`.
pub fn triple_server_shares(keys: &Vec<F82t>, delta: &F82t) -> (r: (Vec<F3>, Vec<F3>, Vec<F3>))
    requires
        delta.wf(),
        forall|i: int| 0 <= i < keys.len() ==> (#[trigger] keys[i]).wf(),
    ensures
        r.0.len() == keys.len(),
        r.1.len() == keys.len(),
        r.2.len() == keys.len(),
        forall|i: int|
            0 <= i < keys.len() ==> (#[trigger] r.0[i]).wf() && r.1[i].wf() && r.2[i].wf() && (
            r.0[i].val(), r.1[i].val(), r.2[i].val()) == server_shares_of(
                server_masks(keys[i], *delta),
            ),
{
    let mut ds: Vec<F3> = Vec::new();
    let mut bs: Vec<F3> = Vec::new();
    let mut cs: Vec<F3> = Vec::new();
    let mut i: usize = 0;
    while i < keys.len()
        invariant
            i <= keys.len(),
            delta.wf(),
            forall|j: int| 0 <= j < keys.len() ==> (#[trigger] keys[j]).wf(),
            ds.len() == i,
            bs.len() == i,
            cs.len() == i,
            forall|j: int|
                0 <= j < i ==> (#[trigger] ds[j]).wf() && bs[j].wf() && cs[j].wf() && (
                ds[j].val(), bs[j].val(), cs[j].val()) == server_shares_of(
                    server_masks(keys[j], *delta),
                ),
        decreases keys.len() - i,
    {
        let (d, b, c) = server_shares(&keys[i], delta);
        ds.push(d);
        bs.push(b);
        cs.push(c);
        i = i + 1;
    }
    (ds, bs, cs)
}

/// The MAC of `a` under `delta` is one of the server's three candidates: `K`, `K + delta`
/// or `K + 2 delta`, for `a` = 0, 1, 2.
proof fn lemma_mac_is_candidate(key: F82t, delta: F82t, mac: F82t, a: nat)
    requires
        key.wf(),
        delta.wf(),
        mac.wf(),
        a < 3,
        mac.poly() == padd(key.poly(), pscale(a, delta.poly())),
    ensures
        a == 0 ==> mac == key,
        a == 1 ==> mac == sum_words(key, delta),
        a == 2 ==> mac == sum_words(sum_words(key, delta), delta),
{
    lemma_f82t_reduced(key);
    lemma_f82t_reduced(delta);
    lemma_sum_words(key, delta);
    let k1 = sum_words(key, delta);
    lemma_sum_words(k1, delta);
    let k2 = sum_words(k1, delta);
    if a == 0 {
        assert forall|i: int| 0 <= i < 82 implies #[trigger] mac.poly()[i] == key.poly()[i] by {
            assert(key.poly()[i] < 3);
            assert(pscale(a, delta.poly())[i] == 0);
        }
        assert(mac.poly() =~= key.poly());
        lemma_f82t_poly_injective(mac, key);
    } else if a == 1 {
        assert forall|i: int| 0 <= i < 82 implies #[trigger] mac.poly()[i] == k1.poly()[i] by {
            assert(delta.poly()[i] < 3);
            assert(pscale(a, delta.poly())[i] == delta.poly()[i]);
        }
        assert(mac.poly() =~= k1.poly());
        lemma_f82t_poly_injective(mac, k1);
    } else {
        assert forall|i: int| 0 <= i < 82 implies #[trigger] mac.poly()[i] == k2.poly()[i] by {
            let k = key.poly()[i] as int;
            let d = delta.poly()[i] as int;
            assert(k < 3 && d < 3);
            assert(pscale(a, delta.poly())[i] == (2 * d) % 3);
            assert(mac.poly()[i] == (k + (2 * d) % 3) % 3);
            assert(k1.poly()[i] == (k + d) % 3);
            assert(k2.poly()[i] == ((k + d) % 3 + d) % 3);
        }
        assert(mac.poly() =~= k2.poly());
        lemma_f82t_poly_injective(mac, k2);
    }
}

/// The shares multiply: when the client's MAC is `K + a * delta`, its share `c_c` and the
/// server's shares `(delta_i, b, c_s)` satisfy `a * b = c_c + c_s`.
pub proof fn lemma_triple_shares_multiply(key: F82t, delta: F82t, mac: F82t, a: F3)
    requires
        key.wf(),
        delta.wf(),
        mac.wf(),
        a.wf(),
        mac.poly() == padd(key.poly(), pscale(a.val(), delta.poly())),
    ensures
        ({
            let s = server_shares_of(server_masks(key, delta));
            let c_c = client_share_of(f3_mask(mac.encoding()).val(), a.val(), s.0);
            triple_error(a.val(), s.1, c_c, s.2) == 0
        }),
{
    lemma_mac_is_candidate(key, delta, mac, a.val());
    let m = server_masks(key, delta);
    lemma_masks_in_field(key, delta);
    let s = server_shares_of(m);
    let ma = f3_mask(mac.encoding()).val();
    if a.val() == 0 {
        assert(ma == m.0);
        assert(client_share_of(ma, 0, s.0) == m.0 % 3);
    } else if a.val() == 1 {
        assert(ma == m.1);
        assert(client_share_of(ma, 1, s.0) == (m.1 + s.0) % 3);
    } else {
        assert(ma == m.2);
        assert(s.0 * 2 * 2 == 4 * s.0) by (nonlinear_arith);
        assert(client_share_of(ma, 2, s.0) == (m.2 + 4 * s.0) % 3);
        assert(2 * s.1 == s.1 * 2);
    }
}

/// The three masks of a key are values of GF(3).
proof fn lemma_masks_in_field(key: F82t, delta: F82t)
    ensures
        server_masks(key, delta).0 < 3,
        server_masks(key, delta).1 < 3,
        server_masks(key, delta).2 < 3,
{
    let k1 = sum_words(key, delta);
    let k2 = sum_words(k1, delta);
    crate::f3::lemma_f3_of_nat(crate::bytes::le_value(crate::digest::blake3_digest(key.encoding()).subrange(0, 16)));
    crate::f3::lemma_f3_of_nat(crate::bytes::le_value(crate::digest::blake3_digest(k1.encoding()).subrange(0, 16)));
    crate::f3::lemma_f3_of_nat(crate::bytes::le_value(crate::digest::blake3_digest(k2.encoding()).subrange(0, 16)));
}

/// The client's half of the check of triple `j` against triple `0` of a bucket, once
/// `d = a_j - a_0` and `e = b_j - b_0` are open: `c_0 - c_j + e * a_0 + d * e`.
pub open spec fn sacrifice_client_of(a0: nat, c0: nat, cj: nat, d: nat, e: nat) -> int {
    (c0 - cj + e * a0 + d * e) % 3
}

/// The server's half of the same check: `c_s0 - c_sj + d * b_0`.
pub open spec fn sacrifice_server_of(cs0: nat, csj: nat, b0: nat, d: nat) -> int {
    (cs0 - csj + d * b0) % 3
}

/// The client's half of the check of triple `j` against triple `0`.
pub fn sacrifice_client_value(a0: F3, c0: F3, cj: F3, d: F3, e: F3) -> (f: F3)
    requires
        a0.wf(),
        c0.wf(),
        cj.wf(),
        d.wf(),
        e.wf(),
    ensures
        f.wf(),
        f.val() == sacrifice_client_of(a0.val(), c0.val(), cj.val(), d.val(), e.val()),
{
    let diff = c0.sub(&cj);
    let ea = e.mul(&a0);
    let de = d.mul(&e);
    let f = ea.add(&diff).add(&de);
    proof {
        lemma_mod3_sum3(ea.val() as int, diff.val() as int, de.val() as int, (e.val() * a0.val()) as int,
            c0.val() - cj.val(), (d.val() * e.val()) as int);
    }
    f
}

/// The server's half of the check of triple `j` against triple `0`.
pub fn sacrifice_server_value(cs0: F3, csj: F3, b0: F3, d: F3) -> (f: F3)
    requires
        cs0.wf(),
        csj.wf(),
        b0.wf(),
        d.wf(),
    ensures
        f.wf(),
        f.val() == sacrifice_server_of(cs0.val(), csj.val(), b0.val(), d.val()),
{
    let diff = cs0.sub(&csj);
    let db = d.mul(&b0);
    let f = db.add(&diff);
    proof {
        lemma_mod3_sum3(db.val() as int, diff.val() as int, 0, (d.val() * b0.val()) as int,
            cs0.val() - csj.val(), 0);
    }
    f
}

/// Three residues that stand for `x`, `y` and `z` add up to the residue of `x + y + z`.
proof fn lemma_mod3_sum3(p: int, q: int, r: int, x: int, y: int, z: int)
    requires
        0 <= p < 3,
        0 <= q < 3,
        0 <= r < 3,
        p == x % 3,
        q == y % 3,
        r == z % 3,
    ensures
        ((p + q) % 3 + r) % 3 == (x + y + z) % 3,
        (p + q) % 3 == (x + y) % 3,
{
    vstd::arithmetic::div_mod::lemma_add_mod_noop(x, y, 3);
    vstd::arithmetic::div_mod::lemma_add_mod_noop(x + y, z, 3);
    vstd::arithmetic::div_mod::lemma_mod_twice(x + y, 3);
}

/// `x` and `y` leave the same residue when they differ by a multiple of three.
proof fn lemma_mod3_shift(x: int, y: int, k: int)
    requires
        x == y + 3 * k,
    ensures
        x % 3 == y % 3,
{
    vstd::arithmetic::div_mod::lemma_mod_multiples_vanish(k, y, 3);
    assert(3 * k + y == x);
}

/// The check of triple `j` against triple `0` measures their errors: with `d = a_j - a_0`
/// and `e = b_j - b_0`, the two halves add up to the error of triple `j` minus that of
/// triple `0`. So two good triples pass, and a good triple `j` passes only with a good
/// triple `0`.
pub proof fn lemma_sacrifice_measures_errors(
    a0: nat, b0: nat, c0: nat, cs0: nat,
    aj: nat, bj: nat, cj: nat, csj: nat,
    d: nat, e: nat,
)
    requires
        d == (aj - a0) % 3,
        e == (bj - b0) % 3,
    ensures
        (sacrifice_client_of(a0, c0, cj, d, e) + sacrifice_server_of(cs0, csj, b0, d)) % 3
            == (triple_error(aj, bj, cj, csj) - triple_error(a0, b0, c0, cs0)) % 3,
{
    let k1 = (aj - a0) / 3;
    let k2 = (bj - b0) / 3;
    vstd::arithmetic::div_mod::lemma_fundamental_div_mod(aj - a0, 3);
    vstd::arithmetic::div_mod::lemma_fundamental_div_mod(bj - b0, 3);
    let di = d as int;
    let ei = e as int;
    assert(di == aj - a0 - 3 * k1);
    assert(ei == bj - b0 - 3 * k2);
    let x = c0 - cj + ei * a0 + di * ei;
    let y = cs0 - csj + di * b0;
    let err0 = a0 * b0 - (c0 + cs0);
    let errj = aj * bj - (cj + csj);
    let u = aj - a0;
    let v = bj - b0;
    assert(ei * a0 == v * a0 - 3 * (k2 * a0)) by (nonlinear_arith)
        requires
            ei == v - 3 * k2,
    ;
    assert(di * b0 == u * b0 - 3 * (k1 * b0)) by (nonlinear_arith)
        requires
            di == u - 3 * k1,
    ;
    assert(di * ei == u * v - 3 * (k1 * v) - 3 * (k2 * u) + 9 * (k1 * k2)) by (nonlinear_arith)
        requires
            di == u - 3 * k1,
            ei == v - 3 * k2,
    ;
    assert(v * a0 + u * v + u * b0 == aj * bj - a0 * b0) by (nonlinear_arith)
        requires
            u == aj - a0,
            v == bj - b0,
    ;
    let q = -(k2 * a0) - k1 * v - k2 * u + 3 * (k1 * k2) - k1 * b0;
    assert(x + y == errj - err0 + 3 * q);
    lemma_mod3_shift(x + y, errj - err0, q);
    vstd::arithmetic::div_mod::lemma_add_mod_noop(x, y, 3);
    vstd::arithmetic::div_mod::lemma_sub_mod_noop(errj, err0, 3);
}

/// Folding triple `k` into triple `0` of a bucket, once `d = b_k + b_0` is open: the
/// client's new `a` is `a_k + a_0` and its new share `d * a_k + c_0 - c_k`.
pub open spec fn combine_client_of(a0: nat, ak: nat, c0: nat, ck: nat, d: nat) -> (nat, nat) {
    (((ak + a0) % 3) as nat, ((d * ak + c0 - ck) % 3) as nat)
}

/// The server's new share when triple `k` is folded into triple `0`: `c_s0 - c_sk`.
pub open spec fn combine_server_of(cs0: nat, csk: nat) -> nat {
    ((cs0 - csk) % 3) as nat
}

/// The client's side of folding triple `k` into triple `0`: the new `a` and `c_c`.
pub fn combine_client(a0: F3, ak: F3, c0: F3, ck: F3, d: F3) -> (r: (F3, F3))
    requires
        a0.wf(),
        ak.wf(),
        c0.wf(),
        ck.wf(),
        d.wf(),
    ensures
        r.0.wf(),
        r.1.wf(),
        (r.0.val(), r.1.val()) == combine_client_of(a0.val(), ak.val(), c0.val(), ck.val(), d.val()),
{
    let a = ak.add(&a0);
    let da = d.mul(&ak);
    let c = da.add(&c0).sub(&ck);
    proof {
        lemma_mod3_sum3(da.val() as int, c0.val() as int, 0, (d.val() * ak.val()) as int, c0.val() as int, 0);
        vstd::arithmetic::div_mod::lemma_sub_mod_noop((d.val() * ak.val() + c0.val()) as int, ck.val() as int, 3);
        vstd::arithmetic::div_mod::lemma_small_mod(ck.val(), 3);
        vstd::arithmetic::div_mod::lemma_small_mod(c.val(), 3);
        vstd::arithmetic::div_mod::lemma_add_mod_noop(c.val() as int, ck.val() as int, 3);
        vstd::arithmetic::div_mod::lemma_sub_mod_noop((c.val() + ck.val()) as int, ck.val() as int, 3);
    }
    (a, c)
}

/// The server's side of folding triple `k` into triple `0`: the new `c_s`.
pub fn combine_server(cs0: F3, csk: F3) -> (r: F3)
    requires
        cs0.wf(),
        csk.wf(),
    ensures
        r.wf(),
        r.val() == combine_server_of(cs0.val(), csk.val()),
{
    let r = cs0.sub(&csk);
    proof {
        vstd::arithmetic::div_mod::lemma_small_mod(r.val(), 3);
        vstd::arithmetic::div_mod::lemma_sub_mod_noop((r.val() + csk.val()) as int, csk.val() as int, 3);
        vstd::arithmetic::div_mod::lemma_small_mod(csk.val(), 3);
    }
    r
}

/// Folding keeps the error accounted: once `d = b_k + b_0` is open, the folded triple,
/// with `b_0` as its `b`, is off by the error of triple `0` minus that of triple `k`.
pub proof fn lemma_combine_error(
    a0: nat, b0: nat, c0: nat, cs0: nat,
    ak: nat, bk: nat, ck: nat, csk: nat,
    d: nat,
)
    requires
        d == (bk + b0) % 3,
    ensures
        ({
            let r = combine_client_of(a0, ak, c0, ck, d);
            triple_error(r.0, b0, r.1, combine_server_of(cs0, csk))
                == (triple_error(a0, b0, c0, cs0) - triple_error(ak, bk, ck, csk)) % 3
        }),
{
    let r = combine_client_of(a0, ak, c0, ck, d);
    let s = combine_server_of(cs0, csk);
    let k = (bk + b0) / 3;
    vstd::arithmetic::div_mod::lemma_fundamental_div_mod((bk + b0) as int, 3);
    let ka = (ak + a0) / 3;
    vstd::arithmetic::div_mod::lemma_fundamental_div_mod((ak + a0) as int, 3);
    let kc = (d * ak + c0 - ck) / 3;
    vstd::arithmetic::div_mod::lemma_fundamental_div_mod(d * ak + c0 - ck, 3);
    let ks = (cs0 - csk) / 3;
    vstd::arithmetic::div_mod::lemma_fundamental_div_mod(cs0 - csk, 3);
    let di = d as int;
    let r0 = r.0 as int;
    let r1 = r.1 as int;
    let si = s as int;
    assert(r0 == ak + a0 - 3 * ka);
    assert(r1 == di * ak + c0 - ck - 3 * kc);
    assert(si == cs0 - csk - 3 * ks);
    assert(di == bk + b0 - 3 * k);
    let lhs = r0 * b0 - (r1 + si);
    let err0 = a0 * b0 - (c0 + cs0);
    let errk = ak * bk - (ck + csk);
    assert(r0 * b0 == ak * b0 + a0 * b0 - 3 * (ka * b0)) by (nonlinear_arith)
        requires
            r0 == ak + a0 - 3 * ka,
    ;
    assert(di * ak == ak * bk + ak * b0 - 3 * (k * ak)) by (nonlinear_arith)
        requires
            di == bk + b0 - 3 * k,
    ;
    let q = -(ka * b0) + kc + ks + k * ak;
    assert(lhs == err0 - errk + 3 * q);
    lemma_mod3_shift(lhs, err0 - errk, q);
    vstd::arithmetic::div_mod::lemma_sub_mod_noop(err0, errk, 3);
}

/// The client's `(a, c_c)` after folding triples `1..=n` of a bucket into triple `0`, the
/// `k`-th fold using the opened `d[k - 1]`.
pub open spec fn fold_client(a: Seq<F3>, c: Seq<F3>, d: Seq<F3>, n: nat) -> (nat, nat)
    decreases n,
{
    if n == 0 {
        (a[0].val(), c[0].val())
    } else {
        let p = fold_client(a, c, d, (n - 1) as nat);
        combine_client_of(p.0, a[n as int].val(), p.1, c[n as int].val(), d[n - 1].val())
    }
}

/// The server's `c_s` after folding triples `1..=n` of a bucket into triple `0`.
pub open spec fn fold_server(cs: Seq<F3>, n: nat) -> nat
    decreases n,
{
    if n == 0 {
        cs[0].val()
    } else {
        combine_server_of(fold_server(cs, (n - 1) as nat), cs[n as int].val())
    }
}

/// The errors of triples `1..=n`, added up.
pub open spec fn errors_sum(a: Seq<F3>, b: Seq<F3>, c: Seq<F3>, cs: Seq<F3>, n: nat) -> int
    decreases n,
{
    if n == 0 {
        0
    } else {
        errors_sum(a, b, c, cs, (n - 1) as nat) + triple_error(
            a[n as int].val(),
            b[n as int].val(),
            c[n as int].val(),
            cs[n as int].val(),
        )
    }
}

/// All entries are elements of GF(3).
pub open spec fn all_wf(s: Seq<F3>) -> bool {
    forall|i: int| 0 <= i < s.len() ==> (#[trigger] s[i]).wf()
}

/// The client's side of folding a whole bucket into its first triple: `a` and `c_c` hold
/// the bucket's triples, `d[k - 1]` the opened `b_k + b_0`.
pub fn combine_bucket_client(a: &Vec<F3>, c: &Vec<F3>, d: &Vec<F3>) -> (r: (F3, F3))
    requires
        a.len() >= 1,
        c.len() == a.len(),
        d.len() + 1 == a.len(),
        all_wf(a@),
        all_wf(c@),
        all_wf(d@),
    ensures
        r.0.wf(),
        r.1.wf(),
        (r.0.val(), r.1.val()) == fold_client(a@, c@, d@, (a.len() - 1) as nat),
{
    let mut acc_a = a[0];
    let mut acc_c = c[0];
    let mut k: usize = 1;
    while k < a.len()
        invariant
            1 <= k <= a.len(),
            c.len() == a.len(),
            d.len() + 1 == a.len(),
            all_wf(a@),
            all_wf(c@),
            all_wf(d@),
            acc_a.wf(),
            acc_c.wf(),
            (acc_a.val(), acc_c.val()) == fold_client(a@, c@, d@, (k - 1) as nat),
        decreases a.len() - k,
    {
        let (na, nc) = combine_client(acc_a, a[k], acc_c, c[k], d[k - 1]);
        acc_a = na;
        acc_c = nc;
        k = k + 1;
    }
    (acc_a, acc_c)
}

/// The server's side of folding a whole bucket into its first triple.
pub fn combine_bucket_server(cs: &Vec<F3>) -> (r: F3)
    requires
        cs.len() >= 1,
        all_wf(cs@),
    ensures
        r.wf(),
        r.val() == fold_server(cs@, (cs.len() - 1) as nat),
{
    let mut acc = cs[0];
    let mut k: usize = 1;
    while k < cs.len()
        invariant
            1 <= k <= cs.len(),
            all_wf(cs@),
            acc.wf(),
            acc.val() == fold_server(cs@, (k - 1) as nat),
        decreases cs.len() - k,
    {
        acc = combine_server(acc, cs[k]);
        k = k + 1;
    }
    acc
}

/// Folding a bucket: when every opened `d[k - 1]` is `b_k + b_0`, the folded triple, with
/// `b_0` as its `b`, is off by the error of the first triple minus the errors of the
/// others. A bucket of good triples folds into a good triple.
pub proof fn lemma_bucket_error(a: Seq<F3>, b: Seq<F3>, c: Seq<F3>, cs: Seq<F3>, d: Seq<F3>, n: nat)
    requires
        a.len() > n,
        b.len() > n,
        c.len() > n,
        cs.len() > n,
        d.len() >= n,
        forall|k: int| 1 <= k <= n ==> (#[trigger] d[k - 1]).val() == (b[k].val() + b[0].val()) % 3,
    ensures
        triple_error(fold_client(a, c, d, n).0, b[0].val(), fold_client(a, c, d, n).1, fold_server(cs, n))
            == (triple_error(a[0].val(), b[0].val(), c[0].val(), cs[0].val()) - errors_sum(a, b, c, cs, n)) % 3,
    decreases n,
{
    let e0 = triple_error(a[0].val(), b[0].val(), c[0].val(), cs[0].val());
    if n == 0 {
        vstd::arithmetic::div_mod::lemma_mod_twice(a[0].val() * b[0].val() - (c[0].val() + cs[0].val()), 3);
    } else {
        lemma_bucket_error(a, b, c, cs, d, (n - 1) as nat);
        let p = fold_client(a, c, d, (n - 1) as nat);
        let ps = fold_server(cs, (n - 1) as nat);
        let ni = n as int;
        assert(d[ni - 1].val() == (b[ni].val() + b[0].val()) % 3);
        lemma_combine_error(p.0, b[0].val(), p.1, ps, a[ni].val(), b[ni].val(), c[ni].val(), cs[ni].val(), d[ni - 1].val());
        let prev = triple_error(p.0, b[0].val(), p.1, ps);
        let en = triple_error(a[ni].val(), b[ni].val(), c[ni].val(), cs[ni].val());
        let sp = errors_sum(a, b, c, cs, (n - 1) as nat);
        assert(prev == (e0 - sp) % 3);
        vstd::arithmetic::div_mod::lemma_sub_mod_noop(e0 - sp, en, 3);
        vstd::arithmetic::div_mod::lemma_sub_mod_noop((e0 - sp) % 3, en, 3);
        vstd::arithmetic::div_mod::lemma_mod_twice(e0 - sp, 3);
        assert(e0 - sp - en == e0 - errors_sum(a, b, c, cs, n));
    }
}

/// The position of the first triple of the bucket that check `p` belongs to, buckets of
/// `pb` triples having `pb - 1` checks each.
pub open spec fn head_slot(slots: Seq<usize>, p: int, pb: int) -> int {
    slots[(p / (pb - 1)) * pb] as int
}

/// The position of the triple that check `p` compares with its bucket's first.
pub open spec fn other_slot(slots: Seq<usize>, p: int, pb: int) -> int {
    slots[(p / (pb - 1)) * pb + p % (pb - 1) + 1] as int
}

/// The buckets are `buckets` runs of `pb` positions of `slots`, each below `len`.
pub open spec fn slots_ok(slots: Seq<usize>, buckets: nat, pb: nat, len: nat) -> bool {
    &&& pb >= 1
    &&& slots.len() == buckets * pb
    &&& forall|t: int| 0 <= t < slots.len() ==> (#[trigger] slots[t]) < len
}

proof fn lemma_check_index(j: int, k: int, buckets: int, pb: int)
    requires
        0 <= j < buckets,
        0 <= k < pb - 1,
    ensures
        (j * (pb - 1) + k) / (pb - 1) == j,
        (j * (pb - 1) + k) % (pb - 1) == k,
        j * pb + k + 1 < buckets * pb,
        j * pb >= 0,
        j * (pb - 1) + k < buckets * (pb - 1),
{
    vstd::arithmetic::div_mod::lemma_fundamental_div_mod_converse(j * (pb - 1) + k, pb - 1, j, k);
    assert(j * pb + pb <= buckets * pb) by (nonlinear_arith)
        requires
            j < buckets,
            pb >= 1,
    ;
    assert(j * (pb - 1) + (pb - 1) <= buckets * (pb - 1)) by (nonlinear_arith)
        requires
            j < buckets,
            pb >= 1,
    ;
    assert(j * pb >= 0) by (nonlinear_arith)
        requires
            j >= 0,
            pb >= 1,
    ;
}

/// The differences opened in the sacrifice step: for each bucket and each triple after
/// the first, its value minus that of the bucket's first triple (`d` from the `a` values,
/// `e` from the `b` values).
pub fn bucket_differences(v: &Vec<F3>, slots: &Vec<usize>, buckets: usize, pb: usize) -> (r: Vec<F3>)
    requires
        slots_ok(slots@, buckets as nat, pb as nat, v.len() as nat),
        forall|i: int| 0 <= i < v.len() ==> (#[trigger] v[i]).wf(),
    ensures
        r.len() == buckets * (pb - 1),
        forall|p: int|
            0 <= p < r.len() ==> (#[trigger] r[p]).wf() && (r[p].val() + v[head_slot(slots@, p, pb as int)].val())
                % 3 == v[other_slot(slots@, p, pb as int)].val(),
{
    let mut r: Vec<F3> = Vec::new();
    let mut j: usize = 0;
    while j < buckets
        invariant
            j <= buckets,
            slots_ok(slots@, buckets as nat, pb as nat, v.len() as nat),
            forall|i: int| 0 <= i < v.len() ==> (#[trigger] v[i]).wf(),
            r.len() == j * (pb - 1),
            forall|p: int|
                0 <= p < r.len() ==> (#[trigger] r[p]).wf() && (r[p].val() + v[head_slot(slots@, p, pb as int)].val())
                    % 3 == v[other_slot(slots@, p, pb as int)].val(),
        decreases buckets - j,
    {
        let mut k: usize = 0;
        while k + 1 < pb
            invariant
                j < buckets,
                k + 1 <= pb,
                slots_ok(slots@, buckets as nat, pb as nat, v.len() as nat),
                forall|i: int| 0 <= i < v.len() ==> (#[trigger] v[i]).wf(),
                r.len() == j * (pb - 1) + k,
                forall|p: int|
                    0 <= p < r.len() ==> (#[trigger] r[p]).wf() && (r[p].val() + v[head_slot(slots@, p, pb as int)].val())
                        % 3 == v[other_slot(slots@, p, pb as int)].val(),
            decreases pb - k,
        {
            let n_slots = slots.len();
            proof {
                lemma_check_index(j as int, k as int, buckets as int, pb as int);
                assert(j * pb + k + 1 < n_slots);
            }
            let head = slots[j * pb];
            let other = slots[j * pb + k + 1];
            let d = v[other].sub(&v[head]);
            r.push(d);
            k = k + 1;
        }
        proof {
            assert((j + 1) * (pb - 1) == j * (pb - 1) + (pb - 1)) by (nonlinear_arith);
        }
        j = j + 1;
    }
    r
}

/// The client's halves of the sacrifice checks of all buckets, from its `a` values and
/// `c_c` shares and the opened differences `d` and `e`.
pub fn sacrifice_client_values(
    a: &Vec<F3>,
    c: &Vec<F3>,
    slots: &Vec<usize>,
    d: &Vec<F3>,
    e: &Vec<F3>,
    buckets: usize,
    pb: usize,
) -> (r: Vec<F3>)
    requires
        slots_ok(slots@, buckets as nat, pb as nat, a.len() as nat),
        c.len() == a.len(),
        d.len() == buckets * (pb - 1),
        e.len() == d.len(),
        forall|i: int| 0 <= i < a.len() ==> (#[trigger] a[i]).wf() && c[i].wf(),
        forall|i: int| 0 <= i < d.len() ==> (#[trigger] d[i]).wf() && e[i].wf(),
    ensures
        r.len() == d.len(),
        forall|p: int|
            0 <= p < r.len() ==> (#[trigger] r[p]).wf() && r[p].val() == sacrifice_client_of(
                a[head_slot(slots@, p, pb as int)].val(),
                c[head_slot(slots@, p, pb as int)].val(),
                c[other_slot(slots@, p, pb as int)].val(),
                d[p].val(),
                e[p].val(),
            ),
{
    let mut r: Vec<F3> = Vec::new();
    let mut j: usize = 0;
    while j < buckets
        invariant
            j <= buckets,
            slots_ok(slots@, buckets as nat, pb as nat, a.len() as nat),
            c.len() == a.len(),
            d.len() == buckets * (pb - 1),
            e.len() == d.len(),
            forall|i: int| 0 <= i < a.len() ==> (#[trigger] a[i]).wf() && c[i].wf(),
            forall|i: int| 0 <= i < d.len() ==> (#[trigger] d[i]).wf() && e[i].wf(),
            r.len() == j * (pb - 1),
            forall|p: int|
                0 <= p < r.len() ==> (#[trigger] r[p]).wf() && r[p].val() == sacrifice_client_of(
                    a[head_slot(slots@, p, pb as int)].val(),
                    c[head_slot(slots@, p, pb as int)].val(),
                    c[other_slot(slots@, p, pb as int)].val(),
                    d[p].val(),
                    e[p].val(),
                ),
        decreases buckets - j,
    {
        let mut k: usize = 0;
        while k + 1 < pb
            invariant
                j < buckets,
                k + 1 <= pb,
                slots_ok(slots@, buckets as nat, pb as nat, a.len() as nat),
                c.len() == a.len(),
                d.len() == buckets * (pb - 1),
                e.len() == d.len(),
                forall|i: int| 0 <= i < a.len() ==> (#[trigger] a[i]).wf() && c[i].wf(),
                forall|i: int| 0 <= i < d.len() ==> (#[trigger] d[i]).wf() && e[i].wf(),
                r.len() == j * (pb - 1) + k,
                forall|p: int|
                    0 <= p < r.len() ==> (#[trigger] r[p]).wf() && r[p].val() == sacrifice_client_of(
                        a[head_slot(slots@, p, pb as int)].val(),
                        c[head_slot(slots@, p, pb as int)].val(),
                        c[other_slot(slots@, p, pb as int)].val(),
                        d[p].val(),
                        e[p].val(),
                    ),
            decreases pb - k,
        {
            let n_slots = slots.len();
            proof {
                lemma_check_index(j as int, k as int, buckets as int, pb as int);
                assert(j * pb + k + 1 < n_slots);
            }
            let head = slots[j * pb];
            let other = slots[j * pb + k + 1];
            let q = j * (pb - 1) + k;
            assert(a[other as int].wf() && a[head as int].wf());
            let f = sacrifice_client_value(a[head], c[head], c[other], d[q], e[q]);
            r.push(f);
            k = k + 1;
        }
        proof {
            assert((j + 1) * (pb - 1) == j * (pb - 1) + (pb - 1)) by (nonlinear_arith);
        }
        j = j + 1;
    }
    r
}

/// The server's halves of the sacrifice checks of all buckets, from its `c_s` shares and
/// `b` values and the opened differences `d`.
pub fn sacrifice_server_values(
    cs: &Vec<F3>,
    b: &Vec<F3>,
    slots: &Vec<usize>,
    d: &Vec<F3>,
    buckets: usize,
    pb: usize,
) -> (r: Vec<F3>)
    requires
        slots_ok(slots@, buckets as nat, pb as nat, cs.len() as nat),
        b.len() == cs.len(),
        d.len() == buckets * (pb - 1),
        forall|i: int| 0 <= i < cs.len() ==> (#[trigger] cs[i]).wf() && b[i].wf(),
        forall|i: int| 0 <= i < d.len() ==> (#[trigger] d[i]).wf(),
    ensures
        r.len() == d.len(),
        forall|p: int|
            0 <= p < r.len() ==> (#[trigger] r[p]).wf() && r[p].val() == sacrifice_server_of(
                cs[head_slot(slots@, p, pb as int)].val(),
                cs[other_slot(slots@, p, pb as int)].val(),
                b[head_slot(slots@, p, pb as int)].val(),
                d[p].val(),
            ),
{
    let mut r: Vec<F3> = Vec::new();
    let mut j: usize = 0;
    while j < buckets
        invariant
            j <= buckets,
            slots_ok(slots@, buckets as nat, pb as nat, cs.len() as nat),
            b.len() == cs.len(),
            d.len() == buckets * (pb - 1),
            forall|i: int| 0 <= i < cs.len() ==> (#[trigger] cs[i]).wf() && b[i].wf(),
            forall|i: int| 0 <= i < d.len() ==> (#[trigger] d[i]).wf(),
            r.len() == j * (pb - 1),
            forall|p: int|
                0 <= p < r.len() ==> (#[trigger] r[p]).wf() && r[p].val() == sacrifice_server_of(
                    cs[head_slot(slots@, p, pb as int)].val(),
                    cs[other_slot(slots@, p, pb as int)].val(),
                    b[head_slot(slots@, p, pb as int)].val(),
                    d[p].val(),
                ),
        decreases buckets - j,
    {
        let mut k: usize = 0;
        while k + 1 < pb
            invariant
                j < buckets,
                k + 1 <= pb,
                slots_ok(slots@, buckets as nat, pb as nat, cs.len() as nat),
                b.len() == cs.len(),
                d.len() == buckets * (pb - 1),
                forall|i: int| 0 <= i < cs.len() ==> (#[trigger] cs[i]).wf() && b[i].wf(),
                forall|i: int| 0 <= i < d.len() ==> (#[trigger] d[i]).wf(),
                r.len() == j * (pb - 1) + k,
                forall|p: int|
                    0 <= p < r.len() ==> (#[trigger] r[p]).wf() && r[p].val() == sacrifice_server_of(
                        cs[head_slot(slots@, p, pb as int)].val(),
                        cs[other_slot(slots@, p, pb as int)].val(),
                        b[head_slot(slots@, p, pb as int)].val(),
                        d[p].val(),
                    ),
            decreases pb - k,
        {
            let n_slots = slots.len();
            proof {
                lemma_check_index(j as int, k as int, buckets as int, pb as int);
                assert(j * pb + k + 1 < n_slots);
            }
            let head = slots[j * pb];
            let other = slots[j * pb + k + 1];
            let q = j * (pb - 1) + k;
            assert(cs[other as int].wf() && cs[head as int].wf());
            let f = sacrifice_server_value(cs[head], cs[other], b[head], d[q]);
            r.push(f);
            k = k + 1;
        }
        proof {
            assert((j + 1) * (pb - 1) == j * (pb - 1) + (pb - 1)) by (nonlinear_arith);
        }
        j = j + 1;
    }
    r
}

/// The first triple of every bucket, which survives the sacrifice step.
pub fn bucket_heads<T: Copy>(v: &Vec<T>, slots: &Vec<usize>, buckets: usize, pb: usize) -> (r: Vec<T>)
    requires
        slots_ok(slots@, buckets as nat, pb as nat, v.len() as nat),
    ensures
        r.len() == buckets,
        forall|j: int| 0 <= j < buckets ==> #[trigger] r[j] == v[slots[j * pb] as int],
{
    let mut r: Vec<T> = Vec::new();
    let mut j: usize = 0;
    while j < buckets
        invariant
            j <= buckets,
            slots_ok(slots@, buckets as nat, pb as nat, v.len() as nat),
            r.len() == j,
            forall|i: int| 0 <= i < j ==> #[trigger] r[i] == v[slots[i * pb] as int],
        decreases buckets - j,
    {
        let n_slots = slots.len();
        proof {
            assert(j * pb + pb <= buckets * pb) by (nonlinear_arith)
                requires
                    j < buckets,
                    pb >= 1,
            ;
            assert(j * pb >= 0) by (nonlinear_arith)
                requires
                    pb >= 1,
            ;
        }
        r.push(v[slots[j * pb]]);
        j = j + 1;
    }
    r
}

} // verus!
