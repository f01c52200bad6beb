//! Authenticated values over GF(2^256): lifting `N` authenticated bits to one element,
//! batched opening with random challenges, and the weak equality test that commits to a
//! list of elements with a BLAKE3 digest.
use vstd::prelude::*;
use crate::f256b::{F256b, red256, lemma_word_bits, lemma_poly_injective};
use crate::gf2poly::{
    badd, bmul, bmono, bxtimes, bzero, bxpow, lemma_bmul_mono, lemma_bmul_distributes, lemma_bmul_distributes_left,
    lemma_bmul_zero_one, lemma_bmul_len, lemma_bmul_commutative, lemma_bmul_associative,
    lemma_badd_group,
};
use crate::f82t::F82t;
use crate::f3::F3;
use crate::oprf_types::OPRFSharing;
use crate::digest::{blake3_digest, f256b_encodings, commit_f256b};
use crate::bytes::take16;

verus! {

/// `v[0] + v[1] x + ... + v[n - 1] x^(n - 1)` in GF(2^256).
pub open spec fn lifted(v: Seq<F256b>, n: nat) -> Seq<bool>
    decreases n,
{
    if n <= 1 {
        v[0].poly()
    } else {
        badd(lifted(v, (n - 1) as nat), bmul(v[n - 1].poly(), bmono(256, n - 1), red256()))
    }
}

/// Multiplying `x^k` by `x` gives `x^(k + 1)` below the top degree.
pub(crate) proof fn lemma_mono_times_x(k: int)
    requires
        0 <= k < 255,
    ensures
        bxtimes(bmono(256, k), red256()) == bmono(256, k + 1),
{
    assert(bxtimes(bmono(256, k), red256()) =~= bmono(256, k + 1));
}

/// Lifts `N` values, MACs and keys: each is combined as `v[0] + v[1] x + ... +
/// v[N - 1] x^(N - 1)`.
pub fn lift_array<const N: usize>(values: Vec<F256b>, macs: Vec<F256b>, keys: Vec<F256b>) -> (r: (F256b, F256b, F256b))
    requires
        1 <= N <= 256,
        values.len() >= N,
        macs.len() >= N,
        keys.len() >= N,
    ensures
        r.0.poly() == lifted(values@, N as nat),
        r.1.poly() == lifted(macs@, N as nat),
        r.2.poly() == lifted(keys@, N as nat),
{
    let mut value = values[0];
    let mut mac = macs[0];
    let mut key = keys[0];
    let mut pow = F256b::one();
    let mut i: usize = 1;
    while i < N
        invariant
            1 <= i <= N,
            N <= 256,
            values.len() >= N,
            macs.len() >= N,
            keys.len() >= N,
            pow.poly() == bmono(256, i - 1),
            value.poly() == lifted(values@, i as nat),
            mac.poly() == lifted(macs@, i as nat),
            key.poly() == lifted(keys@, i as nat),
        decreases N - i,
    {
        proof {
            lemma_mono_times_x(i - 1);
        }
        pow.shift_left_once();
        value.add_assign(&values[i].mul(&pow));
        let mut m = macs[i];
        mac.add_assign(&m.pow_mul(i));
        let mut k = keys[i];
        key.add_assign(&k.pow_mul(i));
        i = i + 1;
    }
    (value, mac, key)
}

/// The polynomial whose coefficient `k` is `bits[k]` for `k < n`, zero above: the bits
/// `bits[0] + bits[1] x + ...` lifted to GF(2^256).
pub open spec fn bits_poly(bits: Seq<bool>, n: nat) -> Seq<bool> {
    Seq::new(256, |k: int| k < n && bits[k])
}

/// Lifts `values.len()` random authenticated bits to one authenticated element of
/// GF(2^256): the value `values[0] + values[1] x + ...` and the MAC
/// `macs[0] + macs[1] x + ...`.
pub fn lift_prover_vole(values: &Vec<bool>, macs: &Vec<F256b>) -> (r: (F256b, F256b))
    requires
        1 <= values.len() <= 256,
        macs.len() == values.len(),
    ensures
        r.0.poly() == bits_poly(values@, values.len() as nat),
        r.1.poly() == lifted(macs@, macs.len() as nat),
{
    let n = values.len();
    let mut out = macs[0];
    let mut value = if values[0] {
        F256b::one()
    } else {
        F256b::zero()
    };
    proof {
        assert(value.poly() =~= bits_poly(values@, 1));
    }
    let mut pow = F256b::one();
    let mut i: usize = 1;
    while i < n
        invariant
            1 <= i <= n,
            n <= 256,
            n == values.len(),
            macs.len() == n,
            pow.poly() == bmono(256, i - 1),
            value.poly() == bits_poly(values@, i as nat),
            out.poly() == lifted(macs@, i as nat),
        decreases n - i,
    {
        proof {
            lemma_mono_times_x(i - 1);
        }
        pow.shift_left_once();
        let mut m = macs[i];
        out.add_assign(&m.pow_mul(i));
        let ghost before = value.poly();
        if values[i] {
            value.add_assign(&pow);
            proof {
                assert(value.poly() =~= bits_poly(values@, (i + 1) as nat));
            }
        } else {
            proof {
                assert(before =~= bits_poly(values@, (i + 1) as nat));
            }
        }
        i = i + 1;
    }
    (value, out)
}

/// Lifts the keys of `keys.len()` random authenticated bits: `keys[0] + keys[1] x + ...`.
pub fn lift_verifier_vole(keys: &Vec<F256b>) -> (r: F256b)
    requires
        1 <= keys.len() <= 256,
    ensures
        r.poly() == lifted(keys@, keys.len() as nat),
{
    let n = keys.len();
    let mut out = keys[0];
    let mut i: usize = 1;
    while i < n
        invariant
            1 <= i <= n,
            n <= 256,
            n == keys.len(),
            out.poly() == lifted(keys@, i as nat),
        decreases n - i,
    {
        let mut k = keys[i];
        out.add_assign(&k.pow_mul(i));
        i = i + 1;
    }
    out
}

proof fn lemma_lifted_len(v: Seq<F256b>, n: nat)
    ensures
        lifted(v, n).len() == 256,
    decreases n,
{
    if n > 1 {
        lemma_lifted_len(v, (n - 1) as nat);
    }
}

/// Lifting keeps the MAC relation: when every MAC is its key plus `delta` times its bit,
/// the lifted MAC is the lifted key plus `delta` times the lifted bits.
pub proof fn lemma_lift_keeps_mac_relation(
    keys: Seq<F256b>,
    macs: Seq<F256b>,
    bits: Seq<bool>,
    delta: F256b,
    n: nat,
)
    requires
        1 <= n <= 256,
        keys.len() >= n,
        macs.len() >= n,
        bits.len() >= n,
        forall|i: int|
            0 <= i < n ==> (#[trigger] macs[i]).poly() == if bits[i] {
                badd(keys[i].poly(), delta.poly())
            } else {
                keys[i].poly()
            },
    ensures
        lifted(macs, n) == badd(lifted(keys, n), bmul(delta.poly(), bits_poly(bits, n), red256())),
    decreases n,
{
    let d = delta.poly();
    lemma_bmul_zero_one(d, bzero(256), red256());
    if n == 1 {
        assert(macs[0].poly() == if bits[0] { badd(keys[0].poly(), d) } else { keys[0].poly() });
        if bits[0] {
            assert(bits_poly(bits, 1) =~= bmono(256, 0));
        } else {
            assert(bits_poly(bits, 1) =~= bzero(256));
            assert(badd(keys[0].poly(), bzero(256)) =~= keys[0].poly());
        }
    } else {
        let j = (n - 1) as nat;
        lemma_lift_keeps_mac_relation(keys, macs, bits, delta, j);
        let x = bmono(256, j as int);
        let kk = lifted(keys, j);
        let bb = bits_poly(bits, j);
        let kn = keys[j as int].poly();
        assert(macs[j as int].poly() == if bits[j as int] { badd(kn, d) } else { kn });
        let lm = lifted(macs, j);
        assert(lm == badd(kk, bmul(d, bb, red256())));
        assert(lifted(macs, n) == badd(lm, bmul(macs[j as int].poly(), x, red256())));
        assert(lifted(keys, n) == badd(kk, bmul(kn, x, red256())));
        if bits[j as int] {
            lemma_bmul_distributes_left(kn, d, x, red256());
            assert(bits_poly(bits, n) =~= badd(bb, x));
            lemma_bmul_distributes(d, bb, x, red256());
            assert(bmul(macs[j as int].poly(), x, red256()) == badd(bmul(kn, x, red256()), bmul(d, x, red256())));
            assert(bmul(d, bits_poly(bits, n), red256()) == badd(bmul(d, bb, red256()), bmul(d, x, red256())));
        } else {
            assert(bits_poly(bits, n) =~= bb);
        }
        lemma_lifted_len(macs, n);
        lemma_lifted_len(keys, n);
        lemma_lifted_len(keys, j);
        lemma_lifted_len(macs, j);
        lemma_bmul_len(d, bits_poly(bits, n), red256());
        lemma_bmul_len(d, bb, red256());
        lemma_bmul_len(d, x, red256());
        lemma_bmul_len(kn, x, red256());
        lemma_bmul_len(macs[j as int].poly(), x, red256());
        assert(lifted(macs, n) =~= badd(lifted(keys, n), bmul(d, bits_poly(bits, n), red256())));
    }
}

/// Lifting keeps the MAC relation for values of the field too: when every MAC is its
/// key plus `delta` times its value, the lifted MAC is the lifted key plus `delta` times
/// the lifted value.
pub proof fn lemma_lift_values_keep_mac_relation(
    keys: Seq<F256b>,
    macs: Seq<F256b>,
    values: Seq<F256b>,
    delta: F256b,
    n: nat,
)
    requires
        1 <= n <= 256,
        keys.len() >= n,
        macs.len() >= n,
        values.len() >= n,
        forall|i: int|
            0 <= i < n ==> (#[trigger] macs[i]).poly() == badd(
                keys[i].poly(),
                bmul(delta.poly(), values[i].poly(), red256()),
            ),
    ensures
        lifted(macs, n) == badd(lifted(keys, n), bmul(delta.poly(), lifted(values, n), red256())),
    decreases n,
{
    let d = delta.poly();
    if n == 1 {
        assert(macs[0].poly() == badd(keys[0].poly(), bmul(d, values[0].poly(), red256())));
    } else {
        let j = (n - 1) as nat;
        lemma_lift_values_keep_mac_relation(keys, macs, values, delta, j);
        let x = bmono(256, j as int);
        let kk = lifted(keys, j);
        let vv = lifted(values, j);
        let kn = keys[j as int].poly();
        let vn = values[j as int].poly();
        let dv = bmul(d, vn, red256());
        assert(macs[j as int].poly() == badd(kn, dv));
        lemma_bmul_len(d, vn, red256());
        lemma_bmul_len(d, vv, red256());
        lemma_bmul_len(vn, x, red256());
        lemma_bmul_len(kn, x, red256());
        lemma_bmul_len(dv, x, red256());
        lemma_lifted_len(keys, j);
        lemma_lifted_len(values, j);
        // (k + d v) x = k x + (d v) x = k x + d (v x)
        lemma_bmul_distributes_left(kn, dv, x, red256());
        lemma_bmul_associative(d, vn, x, red256());
        // d (vv + v x) = d vv + d (v x)
        lemma_bmul_distributes(d, vv, bmul(vn, x, red256()), red256());
        let a = kk;
        let b = bmul(d, vv, red256());
        let c = bmul(kn, x, red256());
        let e = bmul(d, bmul(vn, x, red256()), red256());
        lemma_bmul_len(d, bmul(vn, x, red256()), red256());
        lemma_badd_group(a, b, badd(c, e));
        lemma_badd_group(b, c, e);
        lemma_badd_group(c, b, e);
        lemma_badd_group(a, c, badd(b, e));
        assert(badd(badd(a, b), badd(c, e)) == badd(badd(a, c), badd(b, e)));
    }
}

/// `x^k` is `x` multiplied `k` times by `x`, below the top degree.
proof fn lemma_xpow_mono(k: nat)
    requires
        k < 256,
    ensures
        bxpow(bmono(256, 0), red256(), k) == bmono(256, k as int),
    decreases k,
{
    if k > 0 {
        lemma_xpow_mono((k - 1) as nat);
        lemma_mono_times_x(k - 1);
    }
}

/// The embedded bit is one or zero.
proof fn lemma_bit_element(b: bool)
    ensures
        bit_element(b).poly() == if b { bmono(256, 0) } else { bzero(256) },
{
    let e = bit_element(b);
    assert forall|i: int| 0 <= i < 256 implies #[trigger] e.poly()[i] == (if b { bmono(256, 0) } else { bzero(256) })[i] by {
        let t = (if i < 128 { i } else { i - 128 }) as u128;
        lemma_word_bits(0, 0, t);
    }
    assert(e.poly() =~= if b { bmono(256, 0) } else { bzero(256) });
}

/// Lifting embedded bits gives the polynomial with the bits as coefficients.
pub proof fn lemma_lifted_bits(bits: Seq<bool>, n: nat)
    requires
        1 <= n <= 256,
        bits.len() >= n,
    ensures
        lifted(Seq::new(n, |i: int| bit_element(bits[i])), n) == bits_poly(bits, n),
    decreases n,
{
    let v = Seq::new(n, |i: int| bit_element(bits[i]));
    if n == 1 {
        lemma_bit_element(bits[0]);
        assert(bits_poly(bits, 1) =~= v[0].poly());
    } else {
        let j = (n - 1) as nat;
        lemma_lifted_bits(bits, j);
        let w = Seq::new(j, |i: int| bit_element(bits[i]));
        assert forall|m: nat| 1 <= m <= j implies #[trigger] lifted(v, m) == lifted(w, m) by {
            lemma_lifted_prefix(v, w, m);
        }
        lemma_bit_element(bits[j as int]);
        let x = bmono(256, j as int);
        assert(lifted(v, j) == lifted(w, j));
        assert(lifted(v, j) == bits_poly(bits, j));
        assert(v[j as int] == bit_element(bits[j as int]));
        assert(lifted(v, n) == badd(lifted(v, j), bmul(v[j as int].poly(), x, red256())));
        if bits[j as int] {
            lemma_bmul_mono(bmono(256, 0), red256(), j);
            lemma_xpow_mono(j);
            assert(bmul(v[j as int].poly(), x, red256()) == x);
        } else {
            lemma_bmul_zero_one(x, x, red256());
            assert(bmul(v[j as int].poly(), x, red256()) == bzero(256));
        }
        assert(lifted(v, n) =~= bits_poly(bits, n));
    }
}

/// Lifting looks only at the first `m` elements.
proof fn lemma_lifted_prefix(v: Seq<F256b>, w: Seq<F256b>, m: nat)
    requires
        1 <= m,
        m <= v.len(),
        m <= w.len(),
        forall|i: int| 0 <= i < m ==> v[i] == w[i],
    ensures
        lifted(v, m) == lifted(w, m),
    decreases m,
{
    if m > 1 {
        lemma_lifted_prefix(v, w, (m - 1) as nat);
    }
}

/// `a[0] b[0] + ... + a[n - 1] b[n - 1]` in GF(2^256).
pub open spec fn inner_product(a: Seq<F256b>, b: Seq<F256b>, n: int) -> Seq<bool>
    decreases n,
{
    if n <= 0 {
        bzero(256)
    } else {
        badd(inner_product(a, b, n - 1), bmul(a[n - 1].poly(), b[n - 1].poly(), red256()))
    }
}

/// The prover's answer when opening values with MACs in GF(2^256): the MACs combined with
/// the challenges `chis` (one per MAC, drawn from a generator seeded by the hash of the
/// opened values), `chis[0] macs[0] + chis[1] macs[1] + ...`.
pub fn open_extension_mac_prover(chis: &Vec<F256b>, macs: &Vec<F256b>) -> (m: F256b)
    requires
        chis.len() == macs.len(),
    ensures
        m.poly() == inner_product(chis@, macs@, macs.len() as int),
{
    let mut m = F256b::zero();
    let mut i: usize = 0;
    while i < macs.len()
        invariant
            i <= macs.len(),
            chis.len() == macs.len(),
            m.poly() == inner_product(chis@, macs@, i as int),
        decreases macs.len() - i,
    {
        m.add_assign(&chis[i].mul(&macs[i]));
        i = i + 1;
    }
    m
}

/// The verifier's check of opened values `values` against its keys, the challenges
/// `chis` and the prover's answer `m`: the keys combined with the challenges plus `delta`
/// times the values combined with the challenges must be `m`.
pub fn open_extension_mac_verifier(
    chis: &Vec<F256b>,
    keys: &Vec<F256b>,
    values: &Vec<F256b>,
    delta: F256b,
    m: F256b,
) -> (ok: bool)
    requires
        chis.len() == keys.len(),
        values.len() == keys.len(),
    ensures
        ok == (badd(
            inner_product(chis@, keys@, keys.len() as int),
            bmul(delta.poly(), inner_product(values@, chis@, keys.len() as int), red256()),
        ) == m.poly()),
{
    let mut key_chi = F256b::zero();
    let mut x_chi = F256b::zero();
    let mut i: usize = 0;
    while i < keys.len()
        invariant
            i <= keys.len(),
            chis.len() == keys.len(),
            values.len() == keys.len(),
            key_chi.poly() == inner_product(chis@, keys@, i as int),
            x_chi.poly() == inner_product(values@, chis@, i as int),
        decreases keys.len() - i,
    {
        key_chi.add_assign(&chis[i].mul(&keys[i]));
        x_chi.add_assign(&values[i].mul(&chis[i]));
        i = i + 1;
    }
    let expected = key_chi.add(&delta.mul(&x_chi));
    proof {
        if expected.poly() == m.poly() {
            lemma_poly_injective(expected, m);
        }
    }
    expected == m
}

proof fn lemma_inner_product_len(a: Seq<F256b>, b: Seq<F256b>, n: int)
    ensures
        inner_product(a, b, n).len() == 256,
    decreases n,
{
    if n > 0 {
        lemma_inner_product_len(a, b, n - 1);
    }
}

/// An honest opening is accepted: when every MAC is its key plus `delta` times its value,
/// the MACs combined with any challenges equal the keys combined with the challenges
/// plus `delta` times the values combined with the challenges.
pub proof fn lemma_open_extension_mac_complete(
    chis: Seq<F256b>,
    keys: Seq<F256b>,
    values: Seq<F256b>,
    macs: Seq<F256b>,
    delta: F256b,
    n: int,
)
    requires
        0 <= n,
        n <= chis.len(),
        n <= keys.len(),
        n <= values.len(),
        n <= macs.len(),
        forall|i: int|
            0 <= i < n ==> (#[trigger] macs[i]).poly() == badd(
                keys[i].poly(),
                bmul(delta.poly(), values[i].poly(), red256()),
            ),
    ensures
        inner_product(chis, macs, n) == badd(
            inner_product(chis, keys, n),
            bmul(delta.poly(), inner_product(values, chis, n), red256()),
        ),
    decreases n,
{
    let d = delta.poly();
    if n == 0 {
        lemma_bmul_zero_one(d, bzero(256), red256());
        assert(badd(bzero(256), bzero(256)) =~= bzero(256));
    } else {
        let j = n - 1;
        lemma_open_extension_mac_complete(chis, keys, values, macs, delta, j);
        let ch = chis[j].poly();
        let k = keys[j].poly();
        let x = values[j].poly();
        let dx = bmul(d, x, red256());
        lemma_bmul_len(d, x, red256());
        lemma_bmul_distributes(ch, k, dx, red256());
        lemma_bmul_commutative(ch, dx, red256());
        lemma_bmul_associative(d, x, ch, red256());
        let ipv = inner_product(values, chis, j);
        lemma_inner_product_len(values, chis, j);
        lemma_inner_product_len(chis, keys, j);
        lemma_inner_product_len(chis, macs, j);
        lemma_bmul_len(x, ch, red256());
        lemma_bmul_distributes(d, ipv, bmul(x, ch, red256()), red256());
        lemma_bmul_len(d, ipv, red256());
        lemma_bmul_len(d, bmul(x, ch, red256()), red256());
        lemma_bmul_len(ch, k, red256());
        lemma_bmul_len(ch, dx, red256());
        lemma_bmul_len(d, inner_product(values, chis, n), red256());
        lemma_inner_product_len(chis, keys, n);
        lemma_inner_product_len(chis, macs, n);
        assert(inner_product(chis, macs, n) =~= badd(
            inner_product(chis, keys, n),
            bmul(d, inner_product(values, chis, n), red256()),
        ));
    }
}

/// The element of GF(2^256) that a bit embeds to: one or zero.
pub open spec fn bit_element(b: bool) -> F256b {
    F256b { high: 0, low: if b { 1 } else { 0 } }
}

/// The values of the binary shares of group `index` of `n` pairs, embedded in GF(2^256).
pub open spec fn group_values(sharing: Seq<(OPRFSharing<bool, F256b>, OPRFSharing<F3, F82t>)>, index: int, n: int) -> Seq<F256b> {
    Seq::new(n as nat, |i: int| bit_element(sharing[n * index + i].0.0))
}

/// The MACs of the binary shares of group `index`.
pub open spec fn group_macs(sharing: Seq<(OPRFSharing<bool, F256b>, OPRFSharing<F3, F82t>)>, index: int, n: int) -> Seq<F256b> {
    Seq::new(n as nat, |i: int| sharing[n * index + i].0.1.1)
}

/// The keys of the other party's binary shares of group `index`.
pub open spec fn group_keys(sharing: Seq<(OPRFSharing<bool, F256b>, OPRFSharing<F3, F82t>)>, index: int, n: int) -> Seq<F256b> {
    Seq::new(n as nat, |i: int| sharing[n * index + i].0.2.0)
}

/// Lifts the binary shares of group `index` (pairs `N * index` to `N * index + N - 1`)
/// to one authenticated element of GF(2^256): value, MAC and key.
pub fn lift_sharing<const N: usize>(
    index: usize,
    sharing: &Vec<(OPRFSharing<bool, F256b>, OPRFSharing<F3, F82t>)>,
) -> (r: (F256b, F256b, F256b))
    requires
        1 <= N <= 256,
        N * index + N <= sharing.len(),
    ensures
        r.0.poly() == lifted(group_values(sharing@, index as int, N as int), N as nat),
        r.1.poly() == lifted(group_macs(sharing@, index as int, N as int), N as nat),
        r.2.poly() == lifted(group_keys(sharing@, index as int, N as int), N as nat),
{
    let start = N * index;
    let mut values: Vec<F256b> = Vec::new();
    let mut macs: Vec<F256b> = Vec::new();
    let mut keys: Vec<F256b> = Vec::new();
    let mut i: usize = 0;
    while i < N
        invariant
            i <= N,
            start == N * index,
            start + N <= sharing.len(),
            values@ =~= group_values(sharing@, index as int, N as int).subrange(0, i as int),
            macs@ =~= group_macs(sharing@, index as int, N as int).subrange(0, i as int),
            keys@ =~= group_keys(sharing@, index as int, N as int).subrange(0, i as int),
        decreases N - i,
    {
        let share = &sharing[start + i].0;
        let v = if share.0 {
            F256b { high: 0, low: 1 }
        } else {
            F256b { high: 0, low: 0 }
        };
        values.push(v);
        macs.push(share.1.1);
        keys.push(share.2.0);
        i = i + 1;
    }
    proof {
        assert(values@ =~= group_values(sharing@, index as int, N as int));
        assert(macs@ =~= group_macs(sharing@, index as int, N as int));
        assert(keys@ =~= group_keys(sharing@, index as int, N as int));
    }
    lift_array::<N>(values, macs, keys)
}

/// The seed of the challenges for opening `values`: the first sixteen bytes of the
/// BLAKE3 digest of their encodings.
pub fn open_extension_seed(values: &Vec<F256b>) -> (seed: [u8; 16])
    ensures
        seed@ == blake3_digest(f256b_encodings(values@)).subrange(0, 16),
{
    let digest = commit_f256b(values);
    take16(&digest, 0)
}

/// Why a weak equality test fails.
#[derive(Clone, Copy, Debug, PartialEq, Eq, Structural)]
pub enum WeakEqualityError {
    /// The opened values do not match the commitment.
    CommitmentDoesNotOpen,
    /// The two parties' values differ.
    ValuesDiffer,
}

/// The verdict of the party that received a commitment, sent its own `values` and got
/// `opened` back: the opening must match the commitment, and the values must agree.
pub open spec fn weak_equality_verdict(commitment: Seq<u8>, values: Seq<F256b>, opened: Seq<F256b>) -> Result<(), WeakEqualityError> {
    if commitment != blake3_digest(f256b_encodings(opened)) {
        Err(WeakEqualityError::CommitmentDoesNotOpen)
    } else if values != opened {
        Err(WeakEqualityError::ValuesDiffer)
    } else {
        Ok(())
    }
}

/// The two lists hold the same elements.
fn same_values(a: &Vec<F256b>, b: &Vec<F256b>) -> (r: bool)
    requires
        a.len() == b.len(),
    ensures
        r == (a@ == b@),
{
    let mut i: usize = 0;
    while i < a.len()
        invariant
            i <= a.len(),
            a.len() == b.len(),
            forall|j: int| 0 <= j < i ==> a[j] == b[j],
        decreases a.len() - i,
    {
        if a[i] != b[i] {
            return false;
        }
        i = i + 1;
    }
    assert(a@ =~= b@);
    true
}

/// The answer of the committing party once the other party's `received` values are in:
/// its own values when they agree with `received`, as many zeros otherwise, with the
/// outcome of the test.
pub fn weak_equality_first(values: &Vec<F256b>, received: &Vec<F256b>) -> (r: (
    Vec<F256b>,
    Result<(), WeakEqualityError>,
))
    requires
        received.len() == values.len(),
    ensures
        received@ == values@ ==> r.0@ == values@ && r.1 == Ok::<(), WeakEqualityError>(()),
        received@ != values@ ==> r.0@ == Seq::new(values.len() as nat, |i: int| F256b { high: 0, low: 0 })
            && r.1 == Err::<(), WeakEqualityError>(WeakEqualityError::ValuesDiffer),
{
    if same_values(values, received) {
        (values.clone(), Ok(()))
    } else {
        let mut zeros: Vec<F256b> = Vec::new();
        let mut i: usize = 0;
        while i < values.len()
            invariant
                i <= values.len(),
                zeros@ == Seq::new(i as nat, |j: int| F256b { high: 0, low: 0 }),
            decreases values.len() - i,
        {
            zeros.push(F256b { high: 0, low: 0 });
            i = i + 1;
        }
        (zeros, Err(WeakEqualityError::ValuesDiffer))
    }
}

/// The verdict of the party that received the commitment: `opened` must be what was
/// committed to, and must equal its own `values`.
pub fn weak_equality_second(commitment: &[u8; 32], values: &Vec<F256b>, opened: &Vec<F256b>) -> (r: Result<(), WeakEqualityError>)
    requires
        opened.len() == values.len(),
    ensures
        r == weak_equality_verdict(commitment@, values@, opened@),
{
    let digest = commit_f256b(opened);
    let mut i: usize = 0;
    while i < 32
        invariant
            i <= 32,
            digest@ == blake3_digest(f256b_encodings(opened@)),
            forall|j: int| 0 <= j < i ==> commitment@[j] == digest@[j],
        decreases 32 - i,
    {
        if commitment[i] != digest[i] {
            assert(commitment@[i as int] != digest@[i as int]);
            assert(commitment@ != digest@);
            return Err(WeakEqualityError::CommitmentDoesNotOpen);
        }
        i = i + 1;
    }
    assert(commitment@ =~= digest@);
    if same_values(values, opened) {
        Ok(())
    } else {
        Err(WeakEqualityError::ValuesDiffer)
    }
}

/// An honest run of the weak equality test: the committing party answers equal values
/// with its own values and accepts, and the other party, given the commitment to those
/// values, accepts exactly when its values are equal; different values are refused by
/// the committing party.
pub proof fn lemma_weak_equality_complete(a: Seq<F256b>, b: Seq<F256b>)
    requires
        a.len() == b.len(),
    ensures
        weak_equality_verdict(blake3_digest(f256b_encodings(b)), a, b) == (if a == b {
            Ok::<(), WeakEqualityError>(())
        } else {
            Err(WeakEqualityError::ValuesDiffer)
        }),
{
}

} // verus!
