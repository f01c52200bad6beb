//! Range checks of authenticated values with the high-degree QuickSilver check: a range
//! `0 .. 2^bits` checked in chunks of at most `max_chunk_size` bits, and a range
//! `lower_bound .. upper_bound` reduced to two power-of-two ranges.
use vstd::prelude::*;
use vstd::arithmetic::div_mod::*;
use vstd::arithmetic::power2::*;
use vstd::bits::*;
use vstd::arithmetic::power::*;
use crate::f61p::{F61p, p61, lemma_f61p_val_bound};
use crate::poly61::{
    pp, pc, padd, pscale, pshift, pzero_from, peval, preduced, vals, GeneralPolynomial,
    lemma_mod_sub_congr, lemma_mod_add_congr, lemma_mod_mul_congr, lemma_peval_resize,
    lemma_vals_reduced,
};
use crate::hd_quicksilver::{
    HDMacProver, HDMacVerifier, QSStateProver, QSStateVerifier, hd_comb, comb_at, mac_comb, top,
    range_poly, range_mac, hd_add_const, mac_add_const, ceil_log2, qs_range_check_prepare,
    lemma_qs_check_zero_consistent, lemma_hd_range_consistent, lemma_hd_comb_value,
    lemma_qs_complete,
};

verus! {

/// The number of chunks of at most `max` bits that cover `bits` bits.
pub open spec fn num_chunks(bits: nat, max: nat) -> nat {
    ((bits + max - 1) / (max as int)) as nat
}

/// The width of the last chunk: `max`, or what is left of `bits` after the full chunks.
pub open spec fn last_chunk_bits(bits: nat, max: nat) -> nat {
    if bits % max == 0 {
        max
    } else {
        bits % max
    }
}

/// The chunks of `v`: chunk `i` is `max` bits of `v` from bit `i * max`, except the last,
/// which takes all of `v` from there.
pub open spec fn chunk_seq(v: nat, max: nat, n: nat) -> Seq<int> {
    Seq::new(
        n,
        |i: int|
            if i + 1 < n {
                ((v as int) / (pow2((i * max) as nat) as int)) % (pow2(max) as int)
            } else {
                (v as int) / (pow2((i * max) as nat) as int)
            },
    )
}

/// `c[0] + c[1] 2^max + ... + c[k - 1] 2^((k - 1) max)`.
pub open spec fn weighted_sum(c: Seq<int>, max: nat, k: int) -> int
    decreases k,
{
    if k <= 0 {
        0
    } else {
        weighted_sum(c, max, k - 1) + c[k - 1] * pow2(((k - 1) * max) as nat)
    }
}

/// The layout of the chunks: `bits` bits take `n` chunks, the last of `last` bits.
proof fn lemma_layout(bits: nat, max: nat)
    requires
        bits > 0,
        max > 0,
    ensures
        num_chunks(bits, max) >= 1,
        0 < last_chunk_bits(bits, max) <= max,
        last_chunk_bits(bits, max) == bits - (num_chunks(bits, max) - 1) * max,
        (num_chunks(bits, max) - 1) * max < bits,
        bits <= max ==> num_chunks(bits, max) == 1,
{
    let m = max as int;
    let b = bits as int;
    lemma_fundamental_div_mod(b, m);
    lemma_mod_bound(b, m);
    let q = b / m;
    let r = b % m;
    assert(m * q == q * m) by (nonlinear_arith);
    if r == 0 {
        lemma_fundamental_div_mod_converse(b + m - 1, m, q, m - 1);
        assert(q >= 1) by (nonlinear_arith)
            requires
                b == q * m,
                b > 0,
                m > 0,
        ;
        assert((q - 1) * m == q * m - m) by (nonlinear_arith);
    } else {
        assert((q + 1) * m == q * m + m) by (nonlinear_arith);
        lemma_fundamental_div_mod_converse(b + m - 1, m, q + 1, r - 1);
        assert(q >= 0) by (nonlinear_arith)
            requires
                b == q * m + r,
                r < m,
                b > 0,
                m > 0,
        ;
    }
    if bits <= max {
        if r == 0 {
            assert(q == 1) by (nonlinear_arith)
                requires
                    b == q * m,
                    0 < b <= m,
            ;
        } else {
            assert(q == 0) by (nonlinear_arith)
                requires
                    b == q * m + r,
                    0 < b <= m,
                    0 < r,
                    q >= 0,
            ;
        }
    }
}

/// The number of chunks and the width of the last chunk for `bits` bits in chunks of at
/// most `max_chunk_size` bits.
pub fn chunk_layout(bits: u32, max_chunk_size: u32) -> (r: (usize, u32))
    requires
        bits > 0,
        max_chunk_size > 0,
        bits + max_chunk_size - 1 <= u32::MAX,
    ensures
        r.0 == num_chunks(bits as nat, max_chunk_size as nat),
        r.1 == last_chunk_bits(bits as nat, max_chunk_size as nat),
        r.0 >= 1,
        0 < r.1 <= max_chunk_size,
        r.1 == bits - (r.0 - 1) * max_chunk_size,
{
    proof {
        lemma_layout(bits as nat, max_chunk_size as nat);
    }
    let n = ((bits + (max_chunk_size - 1)) / max_chunk_size) as usize;
    let last = if bits % max_chunk_size == 0 {
        max_chunk_size
    } else {
        bits % max_chunk_size
    };
    (n, last)
}

/// The chunks add up to the value again: `v` is the sum of its chunks, chunk `i` weighted
/// by `2^(i max)`.
pub proof fn lemma_chunks_recombine(v: nat, max: nat, n: nat)
    requires
        max > 0,
        n >= 1,
    ensures
        weighted_sum(chunk_seq(v, max, n), max, n as int) == v,
{
    let c = chunk_seq(v, max, n);
    let k = (n - 1) as int;
    lemma_recombine_prefix(v, max, n, k);
    let a = pow2((k * max) as nat);
    lemma_pow2_pos((k * max) as nat);
    assert(c[k] == (v as int) / (a as int));
    assert(c[k] * a == a * ((v as int) / (a as int))) by (nonlinear_arith)
        requires
            c[k] == (v as int) / (a as int),
    ;
    assert(weighted_sum(c, max, n as int) == weighted_sum(c, max, k) + c[k] * a);
}

/// Up to chunk `k`, the weighted chunks plus what is above bit `k max` give `v`.
proof fn lemma_recombine_prefix(v: nat, max: nat, n: nat, k: int)
    requires
        max > 0,
        0 <= k < n,
    ensures
        weighted_sum(chunk_seq(v, max, n), max, k) + pow2((k * max) as nat) * ((v as int) / (pow2(
            (k * max) as nat,
        ) as int)) == v,
    decreases k,
{
    let c = chunk_seq(v, max, n);
    if k == 0 {
        assert(pow2(0) == 1) by {
            lemma2_to64();
        }
        assert((v as int) / 1 == v);
        assert(k * max == 0) by (nonlinear_arith)
            requires
                k == 0,
        ;
        assert(pow2((k * max) as nat) == 1);
        assert(weighted_sum(c, max, k) == 0);
        assert(pow2((k * max) as nat) * ((v as int) / (pow2((k * max) as nat) as int)) == v);
    } else {
        let j = k - 1;
        lemma_recombine_prefix(v, max, n, j);
        let a = pow2((j * max) as nat);
        let b = pow2(max);
        lemma_pow2_pos((j * max) as nat);
        lemma_pow2_pos(max);
        assert(j * max + max == k * max) by (nonlinear_arith)
            requires
                j == k - 1,
        ;
        assert(0 <= j * max) by (nonlinear_arith)
            requires
                0 <= j,
                0 < max,
        ;
        lemma_pow2_adds((j * max) as nat, max);
        let w = v as int / a as int;
        lemma_div_pos_is_pos(v as int, a as int);
        lemma_fundamental_div_mod(w, b as int);
        lemma_div_denominator(v as int, a as int, b as int);
        assert(c[j] == w % (b as int));
        assert(a * w == (w % (b as int)) * a + (a * b) * (w / (b as int))) by (nonlinear_arith)
            requires
                w == b * (w / (b as int)) + w % (b as int),
        ;
        assert(pow2((k * max) as nat) == a * b);
        assert((v as int) / (pow2((k * max) as nat) as int) == w / (b as int));
        assert(weighted_sum(c, max, k) == weighted_sum(c, max, j) + c[j] * a);
        assert(weighted_sum(c, max, j) + a * w == v);
        let pk = pow2((k * max) as nat);
        assert(pk * (w / (b as int)) == (a * b) * (w / (b as int)));
        assert(pk * ((v as int) / (pk as int)) == (a * b) * (w / (b as int)));
        assert(weighted_sum(c, max, k) + pk * ((v as int) / (pk as int)) == v);
    }
}

/// The last chunk of a value below `2^bits` has at most `last_chunk_bits` bits.
pub proof fn lemma_last_chunk_bound(v: nat, bits: nat, max: nat)
    requires
        max > 0,
        bits > 0,
        v < pow2(bits),
    ensures
        chunk_seq(v, max, num_chunks(bits, max))[num_chunks(bits, max) - 1] < pow2(
            last_chunk_bits(bits, max),
        ),
{
    lemma_layout(bits, max);
    let n = num_chunks(bits, max);
    let s = ((n - 1) * max) as nat;
    let l = last_chunk_bits(bits, max);
    assert(s + l == bits);
    lemma_pow2_adds(s, l);
    lemma_pow2_pos(s);
    lemma_multiply_divide_lt(v as int, pow2(s) as int, pow2(l) as int);
}

/// The chunks of `value`: chunk `i` is the `max_chunk_size` bits from bit
/// `i * max_chunk_size`, the last one everything from there. They recombine to the value,
/// all but the last have at most `max_chunk_size` bits, and the last has at most the bits
/// left over when the value lies below `2^bits`.
pub fn chunk_values(value: u64, bits: u32, max_chunk_size: u32) -> (chunks: Vec<u64>)
    requires
        0 < max_chunk_size < bits < 64,
    ensures
        chunks@.map_values(|x: u64| x as int) == chunk_seq(
            value as nat,
            max_chunk_size as nat,
            num_chunks(bits as nat, max_chunk_size as nat),
        ),
        weighted_sum(
            chunks@.map_values(|x: u64| x as int),
            max_chunk_size as nat,
            chunks.len() as int,
        ) == value,
        forall|i: int| 0 <= i < chunks.len() - 1 ==> #[trigger] chunks[i] < pow2(max_chunk_size as nat),
        value < pow2(bits as nat) ==> chunks[chunks.len() - 1] < pow2(
            last_chunk_bits(bits as nat, max_chunk_size as nat),
        ),
{
    let (n, _last) = chunk_layout(bits, max_chunk_size);
    let ghost target = chunk_seq(value as nat, max_chunk_size as nat, n as nat);
    proof {
        lemma_u64_pow2_no_overflow(max_chunk_size as nat);
        lemma_u64_shl_is_mul(1, max_chunk_size as u64);
        lemma_pow2_pos(max_chunk_size as nat);
    }
    let full: u64 = 1u64 << (max_chunk_size as u64);
    let mask: u64 = full - 1;
    proof {
        assert(mask == low_bits_mask(max_chunk_size as nat));
    }
    let mut chunks: Vec<u64> = Vec::new();
    let mut i: usize = 0;
    while i + 1 < n
        invariant
            i + 1 <= n,
            n == num_chunks(bits as nat, max_chunk_size as nat),
            (n - 1) * max_chunk_size < bits < 64,
            0 < max_chunk_size < 64,
            mask == low_bits_mask(max_chunk_size as nat),
            target == chunk_seq(value as nat, max_chunk_size as nat, n as nat),
            chunks@.map_values(|x: u64| x as int) =~= target.subrange(0, i as int),
        decreases n - i,
    {
        proof {
            assert(i * max_chunk_size <= (n - 1) * max_chunk_size) by (nonlinear_arith)
                requires
                    i <= n - 1,
                    0 <= max_chunk_size,
            ;
        }
        let shift: u32 = i as u32 * max_chunk_size;
        let part = (value >> (shift as u64)) & mask;
        proof {
            lemma_u64_shr_is_div(value, shift as u64);
            lemma_u64_low_bits_mask_is_mod(value >> (shift as u64), max_chunk_size as nat);
            lemma_u64_pow2_no_overflow(max_chunk_size as nat);
            assert(part == target[i as int]);
        }
        let ghost before = chunks@;
        chunks.push(part);
        proof {
            assert(chunks@.map_values(|x: u64| x as int) =~= before.map_values(|x: u64| x as int).push(part as int));
        }
        i = i + 1;
    }
    proof {
        assert(i * max_chunk_size <= (n - 1) * max_chunk_size) by (nonlinear_arith)
            requires
                i <= n - 1,
                0 <= max_chunk_size,
        ;
    }
    let shift: u32 = i as u32 * max_chunk_size;
    let top = value >> (shift as u64);
    proof {
        lemma_u64_shr_is_div(value, shift as u64);
        assert(top == target[i as int]);
    }
    let ghost before = chunks@;
    chunks.push(top);
    proof {
        assert(chunks@.map_values(|x: u64| x as int) =~= before.map_values(|x: u64| x as int).push(top as int));
        assert(i + 1 == n);
        assert(chunks@.map_values(|x: u64| x as int) =~= target);
        lemma_layout(bits as nat, max_chunk_size as nat);
        lemma_chunks_recombine(value as nat, max_chunk_size as nat, n as nat);
        assert forall|j: int| 0 <= j < chunks.len() - 1 implies #[trigger] chunks[j] < pow2(
            max_chunk_size as nat,
        ) by {
            assert(chunks@.map_values(|x: u64| x as int)[j] == target[j]);
            lemma_pow2_pos(max_chunk_size as nat);
            lemma_mod_bound(value as int / pow2((j * max_chunk_size) as nat) as int, pow2(max_chunk_size as nat) as int);
        }
        if value < pow2(bits as nat) {
            lemma_last_chunk_bound(value as nat, bits as nat, max_chunk_size as nat);
            assert(chunks@.map_values(|x: u64| x as int)[n - 1] == target[n - 1]);
        }
    }
    chunks
}

/// `2^e` as a field element.
fn pow2_elem(e: u32) -> (r: F61p)
    requires
        e <= 60,
    ensures
        r.val() == pow2(e as nat),
{
    proof {
        lemma_u64_pow2_no_overflow(e as nat);
        lemma_u64_shl_is_mul(1, e as u64);
        lemma2_to64();
        lemma2_to64_rest();
        if e < 60 {
            lemma_pow2_strictly_increases(e as nat, 60);
        }
    }
    let x: u64 = 1u64 << (e as u64);
    assert(x < p61());
    match F61p::try_from(x as u128) {
        Ok(f) => f,
        Err(_) => F61p::zero(),
    }
}

/// Coefficient `d` of the prover's chunks `start .. start + count`.
pub open spec fn coeff_column(chunks: Seq<HDMacProver>, start: int, count: int, d: int) -> Seq<int> {
    Seq::new(count as nat, |i: int| pc(chunks[start + i].poly.coeffs(), d))
}

/// The verifier's MACs of the chunks `start .. start + count`.
pub open spec fn mac_column(chunks: Seq<HDMacVerifier>, start: int, count: int) -> Seq<int> {
    Seq::new(count as nat, |i: int| chunks[start + i].mac.val() as int)
}

/// One step of the difference: subtracting `pw * c` from a coefficient that is congruent
/// to `x` gives one congruent to `x - c pw`, reduced.
proof fn lemma_sub_step(prev: int, x: int, pw: int, c: int)
    requires
        prev % pp() == x % pp(),
    ensures
        comb_at(prev, (pw * c) % pp(), false) == (x - c * pw) % pp(),
        0 <= comb_at(prev, (pw * c) % pp(), false) < pp(),
{
    lemma_mod_twice(pw * c, pp());
    lemma_mod_sub_congr(prev, x, (pw * c) % pp(), pw * c);
    assert(pw * c == c * pw) by (nonlinear_arith);
    lemma_mod_bound(prev - (pw * c) % pp(), pp());
}

/// The weighted sums are linear: if every `c0[i] + d c1[i]` is congruent to `cm[i]`, the
/// weighted sums are congruent in the same way.
proof fn lemma_weighted_sum_linear(c0: Seq<int>, c1: Seq<int>, cm: Seq<int>, d: int, max: nat, k: int)
    requires
        0 <= k,
        forall|i: int| 0 <= i < k ==> (#[trigger] c0[i] + d * c1[i]) % pp() == cm[i] % pp(),
    ensures
        (weighted_sum(c0, max, k) + d * weighted_sum(c1, max, k)) % pp() == weighted_sum(cm, max, k)
            % pp(),
    decreases k,
{
    if k > 0 {
        let j = k - 1;
        lemma_weighted_sum_linear(c0, c1, cm, d, max, j);
        let w = pow2((j * max) as nat) as int;
        let a0 = weighted_sum(c0, max, j);
        let a1 = weighted_sum(c1, max, j);
        let am = weighted_sum(cm, max, j);
        assert((c0[j] + d * c1[j]) % pp() == cm[j] % pp());
        assert((a0 + c0[j] * w) + d * (a1 + c1[j] * w) == (a0 + d * a1) + (c0[j] + d * c1[j]) * w)
            by (nonlinear_arith);
        lemma_mod_mul_congr(c0[j] + d * c1[j], cm[j], w, w);
        lemma_mod_add_congr(a0 + d * a1, am, (c0[j] + d * c1[j]) * w, cm[j] * w);
    }
}

/// The differences keep the MAC relation: when the prover's value and chunks, as
/// polynomials `x0 + x1 delta` of degree one, evaluate at `delta` to the verifier's MACs,
/// the prover's difference evaluates at `delta` to the verifier's difference.
pub proof fn lemma_chunk_difference_consistent(
    delta: int,
    mp: HDMacProver,
    mv: HDMacVerifier,
    pchunks: Seq<HDMacProver>,
    vchunks: Seq<HDMacVerifier>,
    start: int,
    count: int,
    max: nat,
)
    requires
        0 <= start,
        0 <= count,
        start + count <= pchunks.len(),
        start + count <= vchunks.len(),
        (pc(mp.poly.coeffs(), 0) + delta * pc(mp.poly.coeffs(), 1)) % pp() == mv.mac.val(),
        forall|i: int|
            start <= i < start + count ==> (pc((#[trigger] pchunks[i]).poly.coeffs(), 0) + delta
                * pc(pchunks[i].poly.coeffs(), 1)) % pp() == vchunks[i].mac.val(),
    ensures
        (diff_poly(mp.poly.coeffs(), pchunks, start, count, max)[0] + delta * diff_poly(
            mp.poly.coeffs(),
            pchunks,
            start,
            count,
            max,
        )[1]) % pp() == diff_mac(mv.mac.val() as int, vchunks, start, count, max),
{
    let c0 = coeff_column(pchunks, start, count, 0);
    let c1 = coeff_column(pchunks, start, count, 1);
    let cm = mac_column(vchunks, start, count);
    assert forall|i: int| 0 <= i < count implies (#[trigger] c0[i] + delta * c1[i]) % pp() == cm[i]
        % pp() by {
        assert(pchunks[start + i] == pchunks[start + i]);
        lemma_f61p_val_bound(vchunks[start + i].mac);
        lemma_small_mod(vchunks[start + i].mac.val(), p61());
    }
    lemma_weighted_sum_linear(c0, c1, cm, delta, max, count);
    let x0 = pc(mp.poly.coeffs(), 0);
    let x1 = pc(mp.poly.coeffs(), 1);
    let w0 = weighted_sum(c0, max, count);
    let w1 = weighted_sum(c1, max, count);
    let wm = weighted_sum(cm, max, count);
    let m = mv.mac.val() as int;
    lemma_mod_twice(x0 - w0, pp());
    lemma_mod_twice(x1 - w1, pp());
    lemma_mod_mul_congr(delta, delta, (x1 - w1) % pp(), x1 - w1);
    lemma_mod_add_congr((x0 - w0) % pp(), x0 - w0, delta * ((x1 - w1) % pp()), delta * (x1 - w1));
    assert((x0 - w0) + delta * (x1 - w1) == (x0 + delta * x1) - (w0 + delta * w1)) by (nonlinear_arith);
    lemma_f61p_val_bound(mv.mac);
    lemma_small_mod(m as nat, p61());
    lemma_mod_sub_congr(x0 + delta * x1, m, w0 + delta * w1, wm);
}

/// The prover's difference between `mp` and the chunks `start .. start + count`: each
/// coefficient minus the chunks' coefficients weighted by `2^(i max)`.
pub open spec fn diff_poly(vp: Seq<int>, chunks: Seq<HDMacProver>, start: int, count: int, max: nat) -> Seq<int> {
    seq![
        (pc(vp, 0) - weighted_sum(coeff_column(chunks, start, count, 0), max, count)) % pp(),
        (pc(vp, 1) - weighted_sum(coeff_column(chunks, start, count, 1), max, count)) % pp(),
    ]
}

/// The verifier's difference between `mv` and the chunks `start .. start + count`.
pub open spec fn diff_mac(vm: int, chunks: Seq<HDMacVerifier>, start: int, count: int, max: nat) -> int {
    (vm - weighted_sum(mac_column(chunks, start, count), max, count)) % pp()
}

/// The prover's polynomials of the values.
pub open spec fn prover_polys(mps: Seq<HDMacProver>) -> Seq<Seq<int>> {
    mps.map_values(|mp: HDMacProver| mp.poly.coeffs())
}

/// The verifier's MACs of the values.
pub open spec fn verifier_macs(mvs: Seq<HDMacVerifier>) -> Seq<int> {
    mvs.map_values(|mv: HDMacVerifier| mv.mac.val() as int)
}

/// The prover's difference between a value and its chunks: `mp` minus chunk `i` of
/// `start .. start + count` times `2^(i max_chunk_size)`, coefficient by coefficient. It
/// authenticates zero when the chunks recombine to the value.
pub fn chunk_difference_prover(
    mp: &HDMacProver,
    chunks: &Vec<HDMacProver>,
    start: usize,
    count: usize,
    max_chunk_size: u32,
) -> (acc: HDMacProver)
    requires
        mp.wf(),
        mp.qs_degree == 1,
        1 <= count,
        0 < max_chunk_size,
        start + count <= chunks.len(),
        (count - 1) * max_chunk_size <= 60,
        forall|i: int|
            start <= i < start + count ==> (#[trigger] chunks[i]).wf() && chunks[i].qs_degree == 1,
    ensures
        acc.wf(),
        acc.qs_degree == 1,
        acc.poly.coeffs() == diff_poly(mp.poly.coeffs(), chunks@, start as int, count as int, max_chunk_size as nat),
{
    let ghost col0 = coeff_column(chunks@, start as int, count as int, 0);
    let ghost col1 = coeff_column(chunks@, start as int, count as int, 1);
    let ghost m0 = pc(mp.poly.coeffs(), 0);
    let ghost m1 = pc(mp.poly.coeffs(), 1);
    let mut acc = mp.duplicate();
    let mut i: usize = 0;
    while i < count
        invariant
            i <= count,
            1 <= count,
            0 < max_chunk_size,
            start + count <= chunks.len(),
            (count - 1) * max_chunk_size <= 60,
            forall|q: int|
                start <= q < start + count ==> (#[trigger] chunks[q]).wf() && chunks[q].qs_degree
                    == 1,
            col0 == coeff_column(chunks@, start as int, count as int, 0),
            col1 == coeff_column(chunks@, start as int, count as int, 1),
            acc.wf(),
            acc.qs_degree == 1,
            pc(acc.poly.coeffs(), 0) % pp() == (m0 - weighted_sum(col0, max_chunk_size as nat, i as int)) % pp(),
            pc(acc.poly.coeffs(), 1) % pp() == (m1 - weighted_sum(col1, max_chunk_size as nat, i as int)) % pp(),
            i >= 1 ==> 0 <= pc(acc.poly.coeffs(), 0) < pp() && 0 <= pc(acc.poly.coeffs(), 1) < pp(),
            i >= 1 ==> acc.poly.coeffs().len() == 2,
        decreases count - i,
    {
        proof {
            assert(i <= i * max_chunk_size <= (count - 1) * max_chunk_size) by (nonlinear_arith)
                requires
                    i <= count - 1,
                    1 <= max_chunk_size,
            ;
        }
        let e: u32 = i as u32 * max_chunk_size;
        let pw = pow2_elem(e);
        let mut t = chunks[start + i].duplicate();
        let ghost c = t.poly.coeffs();
        let ghost a = acc.poly.coeffs();
        t.mul_assign_constant(pw);
        acc.sub_assign(&t);
        proof {
            let w = pw.val() as int;
            let tc = pscale(w, c);
            assert(pshift(a, 0) =~= a);
            assert(pshift(tc, 0) =~= tc);
            assert(pc(tc, 0) == (w * pc(c, 0)) % pp()) by {
                if c.len() == 0 {
                    lemma_small_mod(0, p61());
                    assert(w * 0 == 0) by (nonlinear_arith);
                }
            }
            assert(pc(tc, 1) == (w * pc(c, 1)) % pp()) by {
                if c.len() <= 1 {
                    lemma_small_mod(0, p61());
                    assert(w * 0 == 0) by (nonlinear_arith);
                }
            }
            assert(col0[i as int] == pc(c, 0));
            assert(col1[i as int] == pc(c, 1));
            lemma_mod_twice(m0 - weighted_sum(col0, max_chunk_size as nat, i as int), pp());
            lemma_mod_twice(m1 - weighted_sum(col1, max_chunk_size as nat, i as int), pp());
            if i == 0 {
                lemma_mod_twice(pc(a, 0), pp());
                lemma_mod_twice(pc(a, 1), pp());
            }
            lemma_sub_step(pc(a, 0), m0 - weighted_sum(col0, max_chunk_size as nat, i as int), w, pc(c, 0));
            lemma_sub_step(pc(a, 1), m1 - weighted_sum(col1, max_chunk_size as nat, i as int), w, pc(c, 1));
            let na = acc.poly.coeffs();
            assert(pc(na, 0) == comb_at(pc(a, 0), pc(tc, 0), false));
            assert(pc(na, 1) == comb_at(pc(a, 1), pc(tc, 1), false));
            lemma_mod_twice(pc(na, 0), pp());
            lemma_mod_twice(pc(na, 1), pp());
            lemma_small_mod(pc(na, 0) as nat, p61());
            lemma_small_mod(pc(na, 1) as nat, p61());
        }
        i = i + 1;
    }
    proof {
        lemma_small_mod(pc(acc.poly.coeffs(), 0) as nat, p61());
        lemma_small_mod(pc(acc.poly.coeffs(), 1) as nat, p61());
        assert(acc.poly.coeffs() =~= diff_poly(mp.poly.coeffs(), chunks@, start as int, count as int, max_chunk_size as nat));
    }
    acc
}

/// The verifier's difference between a value and its chunks: the MAC of `mv` minus the
/// MAC of chunk `i` of `start .. start + count` times `2^(i max_chunk_size)`.
pub fn chunk_difference_verifier(
    delta: F61p,
    mv: &HDMacVerifier,
    chunks: &Vec<HDMacVerifier>,
    start: usize,
    count: usize,
    max_chunk_size: u32,
) -> (acc: HDMacVerifier)
    requires
        mv.qs_degree == 1,
        1 <= count,
        0 < max_chunk_size,
        start + count <= chunks.len(),
        (count - 1) * max_chunk_size <= 60,
        forall|i: int| start <= i < start + count ==> (#[trigger] chunks[i]).qs_degree == 1,
    ensures
        acc.qs_degree == 1,
        acc.mac.val() == diff_mac(mv.mac.val() as int, chunks@, start as int, count as int, max_chunk_size as nat),
{
    let ghost col = mac_column(chunks@, start as int, count as int);
    let ghost m = mv.mac.val() as int;
    let mut acc = *mv;
    let mut i: usize = 0;
    proof {
        lemma_f61p_val_bound(mv.mac);
        lemma_small_mod(m as nat, p61());
    }
    while i < count
        invariant
            i <= count,
            1 <= count,
            0 < max_chunk_size,
            start + count <= chunks.len(),
            (count - 1) * max_chunk_size <= 60,
            forall|q: int| start <= q < start + count ==> (#[trigger] chunks[q]).qs_degree == 1,
            col == mac_column(chunks@, start as int, count as int),
            acc.qs_degree == 1,
            acc.mac.val() == (m - weighted_sum(col, max_chunk_size as nat, i as int)) % pp(),
        decreases count - i,
    {
        proof {
            assert(i <= i * max_chunk_size <= (count - 1) * max_chunk_size) by (nonlinear_arith)
                requires
                    i <= count - 1,
                    1 <= max_chunk_size,
            ;
        }
        let e: u32 = i as u32 * max_chunk_size;
        let pw = pow2_elem(e);
        let mut t = chunks[start + i];
        let ghost c = t.mac.val() as int;
        let ghost prev = acc.mac.val() as int;
        t.mul_assign_constant(pw);
        acc.sub_assign(delta, &t);
        proof {
            let d = delta.val() as int;
            let w = pw.val() as int;
            lemma_pow0(d);
            assert(col[i as int] == c);
            assert((c * w) % pp() == (w * c) % pp()) by {
                assert(c * w == w * c) by (nonlinear_arith);
            }
            lemma_mod_twice(m - weighted_sum(col, max_chunk_size as nat, i as int), pp());
            lemma_sub_step(prev, m - weighted_sum(col, max_chunk_size as nat, i as int), w, c);
            assert(acc.mac.val() == comb_at(prev * pow(d, 0), t.mac.val() * pow(d, 0), false));
        }
        i = i + 1;
    }
    acc
}

/// The prover's accumulator after the checks `checks` (each a polynomial with its degree),
/// one after the other: each turns the accumulator into `chi * (accumulator + check)`,
/// the one of lower degree lifted to the higher.
pub open spec fn qs_fold_poly(state: Seq<int>, q: nat, chi: int, checks: Seq<(Seq<int>, nat)>) -> Seq<int>
    decreases checks.len(),
{
    if checks.len() == 0 {
        state
    } else {
        qs_fold_poly(
            pscale(chi, hd_comb(state, q, checks[0].0, checks[0].1, true)),
            top(q, checks[0].1),
            chi,
            checks.drop_first(),
        )
    }
}

/// The degree of the accumulator after the checks `checks`.
pub open spec fn qs_fold_degree<A>(q: nat, checks: Seq<(A, nat)>) -> nat
    decreases checks.len(),
{
    if checks.len() == 0 {
        q
    } else {
        qs_fold_degree(top(q, checks[0].1), checks.drop_first())
    }
}

/// The verifier's accumulated MAC after the checks `checks` (each a MAC with its degree),
/// under the key `d`.
pub open spec fn qs_fold_mac(mac: int, q: nat, chi: int, d: int, checks: Seq<(int, nat)>) -> int
    decreases checks.len(),
{
    if checks.len() == 0 {
        mac
    } else {
        qs_fold_mac(
            (mac_comb(mac, q, checks[0].0, checks[0].1, d, true) * chi) % pp(),
            top(q, checks[0].1),
            chi,
            d,
            checks.drop_first(),
        )
    }
}

/// The width of chunk `i` of a value: `max`, the last one `last_chunk_bits`.
pub open spec fn chunk_width(bits: nat, max: nat, i: int) -> nat {
    if i + 1 < num_chunks(bits, max) {
        max
    } else {
        last_chunk_bits(bits, max)
    }
}

/// The prover's checks of a range check in chunks: without chunks, the range polynomial of
/// each value; with chunks, first the difference of each value and its chunks, then the
/// range polynomial of each chunk.
pub open spec fn chunk_checks_prover(bits: nat, max: nat, vps: Seq<Seq<int>>, chunks: Seq<HDMacProver>) -> Seq<(Seq<int>, nat)> {
    if max >= bits {
        Seq::new(vps.len(), |j: int| (range_poly(vps[j], pow2(bits)), pow2(bits)))
    } else {
        let n = num_chunks(bits, max) as int;
        Seq::new(vps.len(), |j: int| (diff_poly(vps[j], chunks, j * n, n, max), 1nat)) + Seq::new(
            chunks.len(),
            |i: int|
                (
                    range_poly(chunks[i].poly.coeffs(), pow2(chunk_width(bits, max, i % n))),
                    pow2(chunk_width(bits, max, i % n)),
                ),
        )
    }
}

/// The verifier's checks of a range check in chunks, in the prover's order.
pub open spec fn chunk_checks_verifier(bits: nat, max: nat, d: int, vms: Seq<int>, chunks: Seq<HDMacVerifier>) -> Seq<(int, nat)> {
    if max >= bits {
        Seq::new(vms.len(), |j: int| (range_mac(vms[j], d, pow2(bits)), pow2(bits)))
    } else {
        let n = num_chunks(bits, max) as int;
        Seq::new(vms.len(), |j: int| (diff_mac(vms[j], chunks, j * n, n, max), 1nat)) + Seq::new(
            chunks.len(),
            |i: int|
                (
                    range_mac(chunks[i].mac.val() as int, d, pow2(chunk_width(bits, max, i % n))),
                    pow2(chunk_width(bits, max, i % n)),
                ),
        )
    }
}

/// The conditions on the prover's input of a range check in chunks, for the values' polynomials
/// `vps` of degree one: without chunks, values below `2^bits`; with chunks, `num_chunks`
/// degree-one chunks per value, each below `2^` its width, that recombine to the value.
/// Each range check covers at most 60 bits, so that its `2^width` candidates stay distinct
/// below the characteristic, and its polynomial fits a `usize`-indexed vector.
pub open spec fn chunk_input_ok(bits: nat, max: nat, vps: Seq<Seq<int>>, chunks: Seq<HDMacProver>) -> bool {
    let n = num_chunks(bits, max) as int;
    &&& forall|j: int| 0 <= j < vps.len() ==> pzero_from(#[trigger] vps[j], 2)
    &&& max >= bits ==> {
        &&& bits <= 60
        &&& vps.len() < usize::MAX
        &&& forall|j: int|
            0 <= j < vps.len() ==> pc(#[trigger] vps[j], 1) < pow2(bits) && vps[j].len() + pow2(bits)
                + 1 <= usize::MAX
    }
    &&& max < bits ==> {
        &&& bits <= 61
        &&& max <= 60
        &&& chunks.len() == vps.len() * n
        &&& vps.len() + chunks.len() < usize::MAX
        &&& forall|i: int|
            0 <= i < chunks.len() ==> (#[trigger] chunks[i]).wf() && chunks[i].qs_degree == 1
                && chunks[i].value_spec() < pow2(chunk_width(bits, max, i % n))
                && chunks[i].poly.coefficients.len() + pow2(max) + 2 <= usize::MAX
        &&& forall|j: int|
            0 <= j < vps.len() ==> weighted_sum(coeff_column(chunks, j * n, n, 1), max, n) % pp()
                == pc(#[trigger] vps[j], 1)
    }
}

/// The prover's range check that every value of `mps` lies in `0 .. 2^bits`, with the
/// challenge `chi`. When `max_chunk_size` is at least `bits` each value is checked
/// directly; otherwise `chunks` holds, for each value in turn, the commitments to its
/// `num_chunks` chunks (from `chunk_values`): each value minus its recombined chunks is
/// checked to be zero, then each chunk is checked to lie in the range of its width.
pub fn qs_prover_check_pow2_range_in_chunks(
    chi: F61p,
    bits: u32,
    max_chunk_size: u32,
    mps: &Vec<HDMacProver>,
    chunks: &Vec<HDMacProver>,
) -> (qs: QSStateProver)
    requires
        0 < bits,
        0 < max_chunk_size,
        bits + max_chunk_size - 1 <= u32::MAX,
        forall|j: int| 0 <= j < mps.len() ==> (#[trigger] mps[j]).wf() && mps[j].qs_degree == 1,
        chunk_input_ok(bits as nat, max_chunk_size as nat, prover_polys(mps@), chunks@),
    ensures
        qs.wf(),
        qs.chi_spec() == chi,
        qs.count_spec() == (if max_chunk_size >= bits {
            mps.len() as int
        } else {
            mps.len() + chunks.len()
        }),
        qs.state_spec().poly.coeffs() == qs_fold_poly(
            seq![0int],
            1,
            chi.val() as int,
            chunk_checks_prover(bits as nat, max_chunk_size as nat, prover_polys(mps@), chunks@),
        ),
        qs.state_spec().qs_degree == qs_fold_degree(
            1,
            chunk_checks_prover(bits as nat, max_chunk_size as nat, prover_polys(mps@), chunks@),
        ),
{
    let mut qs = QSStateProver::init_with_chi(chi);
    let ghost checks = chunk_checks_prover(bits as nat, max_chunk_size as nat, prover_polys(mps@), chunks@);
    let ghost c = chi.val() as int;
    proof {
        assert(checks.skip(0) =~= checks);
    }
    if max_chunk_size >= bits {
        let mut j: usize = 0;
        while j < mps.len()
            invariant
                j <= mps.len(),
                0 < bits,
                max_chunk_size >= bits,
                forall|q: int| 0 <= q < mps.len() ==> (#[trigger] mps[q]).wf() && mps[q].qs_degree == 1,
                chunk_input_ok(bits as nat, max_chunk_size as nat, prover_polys(mps@), chunks@),
                checks == chunk_checks_prover(bits as nat, max_chunk_size as nat, prover_polys(mps@), chunks@),
                c == chi.val(),
                qs.wf(),
                qs.chi_spec() == chi,
                qs.count_spec() == j,
                qs_fold_poly(seq![0int], 1, c, checks) == qs_fold_poly(
                    qs.state_spec().poly.coeffs(),
                    qs.state_spec().qs_degree as nat,
                    c,
                    checks.skip(j as int),
                ),
                qs_fold_degree(1, checks) == qs_fold_degree(
                    qs.state_spec().qs_degree as nat,
                    checks.skip(j as int),
                ),
            decreases mps.len() - j,
        {
            assert(mps[j as int].wf());
            assert(prover_polys(mps@)[j as int] == mps[j as int].poly.coeffs());
            qs.check_pow2_range(bits, &mps[j]);
            proof {
                assert(checks.skip(j as int).drop_first() =~= checks.skip(j + 1));
                assert(checks.skip(j as int)[0] == checks[j as int]);
            }
            j = j + 1;
        }
        proof {
            assert(checks.skip(j as int) =~= Seq::<(Seq<int>, nat)>::empty());
        }
        return qs;
    }
    let (n, last) = chunk_layout(bits, max_chunk_size);
    let m = mps.len();
    let mut j: usize = 0;
    while j < m
        invariant
            j <= m,
            m == mps.len(),
            0 < max_chunk_size < bits,
            n == num_chunks(bits as nat, max_chunk_size as nat),
            last == last_chunk_bits(bits as nat, max_chunk_size as nat),
            1 <= n,
            (n - 1) * max_chunk_size < bits,
            forall|q: int| 0 <= q < mps.len() ==> (#[trigger] mps[q]).wf() && mps[q].qs_degree == 1,
            chunk_input_ok(bits as nat, max_chunk_size as nat, prover_polys(mps@), chunks@),
            checks == chunk_checks_prover(bits as nat, max_chunk_size as nat, prover_polys(mps@), chunks@),
            c == chi.val(),
            qs.wf(),
            qs.chi_spec() == chi,
            qs.count_spec() == j,
            qs_fold_poly(seq![0int], 1, c, checks) == qs_fold_poly(
                qs.state_spec().poly.coeffs(),
                qs.state_spec().qs_degree as nat,
                c,
                checks.skip(j as int),
            ),
            qs_fold_degree(1, checks) == qs_fold_degree(
                qs.state_spec().qs_degree as nat,
                checks.skip(j as int),
            ),
        decreases m - j,
    {
        proof {
            assert(j * n + n <= m * n) by (nonlinear_arith)
                requires
                    j + 1 <= m,
                    0 <= n,
            ;
        }
        let start = j * n;
        assert(mps[j as int].wf());
        let acc = chunk_difference_prover(&mps[j], chunks, start, n, max_chunk_size);
        proof {
            assert(prover_polys(mps@)[j as int] == mps[j as int].poly.coeffs());
            let v = mps[j as int].value_spec();
            let w = weighted_sum(coeff_column(chunks@, start as int, n as int, 1), max_chunk_size as nat, n as int);
            assert(w % pp() == v);
            crate::poly61::lemma_vals_reduced(mps[j as int].poly.coefficients@);
            assert(0 <= v < pp());
            lemma_small_mod(v as nat, p61());
            lemma_mod_sub_congr(v, v, w, v);
            lemma_small_mod(0, p61());
            assert(acc.value_spec() == 0);
        }
        qs.check_zero(&acc);
        proof {
            assert(checks.skip(j as int).drop_first() =~= checks.skip(j + 1));
            assert(checks.skip(j as int)[0] == checks[j as int]);
        }
        j = j + 1;
    }
    let len = chunks.len();
    let mut i: usize = 0;
    while i < len
        invariant
            i <= len,
            len == chunks.len(),
            m == mps.len(),
            max_chunk_size < bits,
            n == num_chunks(bits as nat, max_chunk_size as nat),
            last == last_chunk_bits(bits as nat, max_chunk_size as nat),
            1 <= n,
            0 < last <= max_chunk_size,
            forall|q: int| 0 <= q < mps.len() ==> (#[trigger] mps[q]).wf() && mps[q].qs_degree == 1,
            chunk_input_ok(bits as nat, max_chunk_size as nat, prover_polys(mps@), chunks@),
            checks == chunk_checks_prover(bits as nat, max_chunk_size as nat, prover_polys(mps@), chunks@),
            c == chi.val(),
            qs.wf(),
            qs.chi_spec() == chi,
            qs.count_spec() == m + i,
            qs_fold_poly(seq![0int], 1, c, checks) == qs_fold_poly(
                qs.state_spec().poly.coeffs(),
                qs.state_spec().qs_degree as nat,
                c,
                checks.skip(m + i),
            ),
            qs_fold_degree(1, checks) == qs_fold_degree(
                qs.state_spec().qs_degree as nat,
                checks.skip(m + i),
            ),
        decreases len - i,
    {
        let width = if i % n == n - 1 {
            last
        } else {
            max_chunk_size
        };
        proof {
            assert(width == chunk_width(bits as nat, max_chunk_size as nat, i as int % n as int));
            assert(chunks[i as int].wf());
            if width < max_chunk_size {
                lemma_pow2_strictly_increases(width as nat, max_chunk_size as nat);
            }
        }
        qs.check_pow2_range(width, &chunks[i]);
        proof {
            assert(checks.skip(m + i).drop_first() =~= checks.skip(m + i + 1));
            assert(checks.skip(m + i)[0] == checks[m + i]);
        }
        i = i + 1;
    }
    proof {
        assert(checks.skip(m + i) =~= Seq::<(Seq<int>, nat)>::empty());
    }
    qs
}

/// The conditions on the verifier's input of a range check in chunks, for `count` values:
/// with chunks, `num_chunks` degree-one chunks per value. Each range check covers at most
/// 60 bits, as on the prover's side, and its degree `2^width` fits a `usize`.
pub open spec fn chunk_input_ok_verifier(bits: nat, max: nat, count: nat, chunks: Seq<HDMacVerifier>) -> bool {
    &&& max >= bits ==> bits <= 60 && pow2(bits) < usize::MAX && count < usize::MAX
    &&& max < bits ==> {
        &&& bits <= 61
        &&& max <= 60
        &&& pow2(max) < usize::MAX
        &&& chunks.len() == count * num_chunks(bits, max)
        &&& count + chunks.len() < usize::MAX
        &&& forall|i: int| 0 <= i < chunks.len() ==> (#[trigger] chunks[i]).qs_degree == 1
    }
}

/// The verifier's range check that every value of `mvs` lies in `0 .. 2^bits`, with the
/// key `delta` and the challenge `chi`, in the prover's order: directly when
/// `max_chunk_size` is at least `bits`, otherwise by the differences of each value and its
/// `num_chunks` chunks in `chunks`, then the range of each chunk.
pub fn qs_verifier_check_pow2_range_in_chunks(
    delta: F61p,
    chi: F61p,
    bits: u32,
    max_chunk_size: u32,
    mvs: &Vec<HDMacVerifier>,
    chunks: &Vec<HDMacVerifier>,
) -> (qs: QSStateVerifier)
    requires
        0 < bits,
        0 < max_chunk_size,
        bits + max_chunk_size - 1 <= u32::MAX,
        forall|j: int| 0 <= j < mvs.len() ==> (#[trigger] mvs[j]).qs_degree == 1,
        chunk_input_ok_verifier(bits as nat, max_chunk_size as nat, mvs.len() as nat, chunks@),
    ensures
        qs.delta_spec() == delta,
        qs.chi_spec() == chi,
        qs.count_spec() == (if max_chunk_size >= bits {
            mvs.len() as int
        } else {
            mvs.len() + chunks.len()
        }),
        qs.state_spec().mac.val() == qs_fold_mac(
            0,
            1,
            chi.val() as int,
            delta.val() as int,
            chunk_checks_verifier(bits as nat, max_chunk_size as nat, delta.val() as int, verifier_macs(mvs@), chunks@),
        ),
        qs.state_spec().qs_degree == qs_fold_degree(
            1,
            chunk_checks_verifier(bits as nat, max_chunk_size as nat, delta.val() as int, verifier_macs(mvs@), chunks@),
        ),
{
    let mut qs = QSStateVerifier::init_with_delta_and_chi(delta, chi);
    let ghost d = delta.val() as int;
    let ghost checks = chunk_checks_verifier(bits as nat, max_chunk_size as nat, d, verifier_macs(mvs@), chunks@);
    let ghost c = chi.val() as int;
    proof {
        assert(checks.skip(0) =~= checks);
    }
    if max_chunk_size >= bits {
        let mut j: usize = 0;
        while j < mvs.len()
            invariant
                j <= mvs.len(),
                0 < bits,
                max_chunk_size >= bits,
                forall|q: int| 0 <= q < mvs.len() ==> (#[trigger] mvs[q]).qs_degree == 1,
                chunk_input_ok_verifier(bits as nat, max_chunk_size as nat, mvs.len() as nat, chunks@),
                checks == chunk_checks_verifier(bits as nat, max_chunk_size as nat, d, verifier_macs(mvs@), chunks@),
                c == chi.val(),
                d == delta.val(),
                qs.delta_spec() == delta,
                qs.chi_spec() == chi,
                qs.count_spec() == j,
                qs_fold_mac(0, 1, c, d, checks) == qs_fold_mac(
                    qs.state_spec().mac.val() as int,
                    qs.state_spec().qs_degree as nat,
                    c,
                    d,
                    checks.skip(j as int),
                ),
                qs_fold_degree(1, checks) == qs_fold_degree(
                    qs.state_spec().qs_degree as nat,
                    checks.skip(j as int),
                ),
            decreases mvs.len() - j,
        {
            assert(mvs[j as int].qs_degree == 1);
            assert(verifier_macs(mvs@)[j as int] == mvs[j as int].mac.val());
            qs.check_pow2_range(bits, &mvs[j]);
            proof {
                assert(checks.skip(j as int).drop_first() =~= checks.skip(j + 1));
                assert(checks.skip(j as int)[0] == checks[j as int]);
            }
            j = j + 1;
        }
        proof {
            assert(checks.skip(j as int) =~= Seq::<(int, nat)>::empty());
        }
        return qs;
    }
    let (n, last) = chunk_layout(bits, max_chunk_size);
    let m = mvs.len();
    let mut j: usize = 0;
    while j < m
        invariant
            j <= m,
            m == mvs.len(),
            0 < max_chunk_size < bits,
            n == num_chunks(bits as nat, max_chunk_size as nat),
            1 <= n,
            (n - 1) * max_chunk_size < bits,
            forall|q: int| 0 <= q < mvs.len() ==> (#[trigger] mvs[q]).qs_degree == 1,
                chunk_input_ok_verifier(bits as nat, max_chunk_size as nat, mvs.len() as nat, chunks@),
            checks == chunk_checks_verifier(bits as nat, max_chunk_size as nat, d, verifier_macs(mvs@), chunks@),
            c == chi.val(),
            d == delta.val(),
            qs.delta_spec() == delta,
            qs.chi_spec() == chi,
            qs.count_spec() == j,
            qs_fold_mac(0, 1, c, d, checks) == qs_fold_mac(
                qs.state_spec().mac.val() as int,
                qs.state_spec().qs_degree as nat,
                c,
                d,
                checks.skip(j as int),
            ),
            qs_fold_degree(1, checks) == qs_fold_degree(
                qs.state_spec().qs_degree as nat,
                checks.skip(j as int),
            ),
        decreases m - j,
    {
        proof {
            assert(j * n + n <= m * n) by (nonlinear_arith)
                requires
                    j + 1 <= m,
                    0 <= n,
            ;
        }
        let start = j * n;
        assert(mvs[j as int].qs_degree == 1);
        let acc = chunk_difference_verifier(delta, &mvs[j], chunks, start, n, max_chunk_size);
        qs.check_zero(&acc);
        proof {
            assert(verifier_macs(mvs@)[j as int] == mvs[j as int].mac.val());
            assert(checks.skip(j as int).drop_first() =~= checks.skip(j + 1));
            assert(checks.skip(j as int)[0] == checks[j as int]);
        }
        j = j + 1;
    }
    let len = chunks.len();
    let mut i: usize = 0;
    while i < len
        invariant
            i <= len,
            len == chunks.len(),
            m == mvs.len(),
            max_chunk_size < bits,
            n == num_chunks(bits as nat, max_chunk_size as nat),
            last == last_chunk_bits(bits as nat, max_chunk_size as nat),
            1 <= n,
            0 < last <= max_chunk_size,
            forall|q: int| 0 <= q < mvs.len() ==> (#[trigger] mvs[q]).qs_degree == 1,
                chunk_input_ok_verifier(bits as nat, max_chunk_size as nat, mvs.len() as nat, chunks@),
            checks == chunk_checks_verifier(bits as nat, max_chunk_size as nat, d, verifier_macs(mvs@), chunks@),
            c == chi.val(),
            d == delta.val(),
            qs.delta_spec() == delta,
            qs.chi_spec() == chi,
            qs.count_spec() == m + i,
            qs_fold_mac(0, 1, c, d, checks) == qs_fold_mac(
                qs.state_spec().mac.val() as int,
                qs.state_spec().qs_degree as nat,
                c,
                d,
                checks.skip(m + i),
            ),
            qs_fold_degree(1, checks) == qs_fold_degree(
                qs.state_spec().qs_degree as nat,
                checks.skip(m + i),
            ),
        decreases len - i,
    {
        let width = if i % n == n - 1 {
            last
        } else {
            max_chunk_size
        };
        proof {
            assert(width == chunk_width(bits as nat, max_chunk_size as nat, i as int % n as int));
            assert(chunks[i as int].qs_degree == 1);
            if width < max_chunk_size {
                lemma_pow2_strictly_increases(width as nat, max_chunk_size as nat);
            }
        }
        qs.check_pow2_range(width, &chunks[i]);
        proof {
            assert(checks.skip(m + i).drop_first() =~= checks.skip(m + i + 1));
            assert(checks.skip(m + i)[0] == checks[m + i]);
        }
        i = i + 1;
    }
    proof {
        assert(checks.skip(m + i) =~= Seq::<(int, nat)>::empty());
    }
    qs
}

/// The bounds that a range check `lower_bound < x < upper_bound` accepts: both well inside
/// the field, with a power of two `2^m > upper_bound - lower_bound`, `m > 0`, below a
/// quarter of the modulus.
pub open spec fn range_bounds_ok(lower_bound: int, upper_bound: int) -> bool {
    &&& -1152921504606846974 < lower_bound < upper_bound < 1152921504606846974
    &&& upper_bound - lower_bound < pow2(ceil_log2((upper_bound - lower_bound) as nat))
    &&& pow2(ceil_log2((upper_bound - lower_bound) as nat)) < 1152921504606846974
    &&& ceil_log2((upper_bound - lower_bound) as nat) > 0
}

/// The number of bits of the power-of-two ranges of a range check.
pub open spec fn range_bits(lower_bound: int, upper_bound: int) -> nat {
    ceil_log2((upper_bound - lower_bound) as nat)
}

/// The constant subtracted for the lower bound: `lower_bound` as a field element.
pub open spec fn range_low(lower_bound: int) -> int {
    lower_bound % pp()
}

/// The constant added for the upper bound: `2^m - upper_bound - 1` as a field element.
pub open spec fn range_high(lower_bound: int, upper_bound: int) -> int {
    (pow2(range_bits(lower_bound, upper_bound)) - upper_bound - 1) % pp()
}

/// The prover's values of the two power-of-two checks of each value: the value minus `a`,
/// then the value plus `c`.
pub open spec fn shifted_polys(mps: Seq<HDMacProver>, a: int, c: int) -> Seq<Seq<int>> {
    Seq::new(
        2 * mps.len(),
        |k: int|
            if k % 2 == 0 {
                hd_add_const(mps[k / 2].poly.coeffs(), 1, a, false)
            } else {
                hd_add_const(mps[k / 2].poly.coeffs(), 1, c, true)
            },
    )
}

/// The verifier's MACs of the two power-of-two checks of each value.
pub open spec fn shifted_macs(mvs: Seq<HDMacVerifier>, a: int, c: int, d: int) -> Seq<int> {
    Seq::new(
        2 * mvs.len(),
        |k: int|
            if k % 2 == 0 {
                mac_add_const(mvs[k / 2].mac.val() as int, 1, a, d, false)
            } else {
                mac_add_const(mvs[k / 2].mac.val() as int, 1, c, d, true)
            },
    )
}

/// A value strictly between the bounds gives two values in `0 .. 2^m`: the value minus
/// `lower_bound`, and the value plus `2^m - upper_bound - 1`, computed in the field.
pub proof fn lemma_range_shifts_in_pow2(x: int, lower_bound: int, upper_bound: int)
    requires
        range_bounds_ok(lower_bound, upper_bound),
        lower_bound < x < upper_bound,
    ensures
        comb_at(x % pp(), range_low(lower_bound), false) == x - lower_bound,
        comb_at(x % pp(), range_high(lower_bound, upper_bound), true) == x + pow2(
            range_bits(lower_bound, upper_bound),
        ) - upper_bound - 1,
        0 <= x - lower_bound < pow2(range_bits(lower_bound, upper_bound)),
        0 <= x + pow2(range_bits(lower_bound, upper_bound)) - upper_bound - 1 < pow2(
            range_bits(lower_bound, upper_bound),
        ),
{
    let w = pow2(range_bits(lower_bound, upper_bound)) as int;
    let k = w - upper_bound - 1;
    lemma_mod_twice(x, pp());
    lemma_mod_twice(lower_bound, pp());
    lemma_mod_twice(k, pp());
    lemma_mod_sub_congr(x % pp(), x, lower_bound % pp(), lower_bound);
    lemma_mod_add_congr(x % pp(), x, k % pp(), k);
    lemma_small_mod((x - lower_bound) as nat, p61());
    lemma_small_mod((x + k) as nat, p61());
}

/// The prover's range check that every value of `mps` lies strictly between `lower_bound`
/// and `upper_bound`, with the challenge `chi`: each value minus `lower_bound` and each
/// value plus `2^m - upper_bound - 1` (in this order, value by value) are checked to lie
/// in `0 .. 2^m`, in chunks of at most `max_chunk_size` bits; `chunks` holds the
/// commitments to the chunks of those shifted values.
pub fn qs_prover_check_range(
    chi: F61p,
    lower_bound: i128,
    upper_bound: i128,
    max_chunk_size: u32,
    mps: &Vec<HDMacProver>,
    chunks: &Vec<HDMacProver>,
) -> (qs: QSStateProver)
    requires
        range_bounds_ok(lower_bound as int, upper_bound as int),
        0 < max_chunk_size,
        range_bits(lower_bound as int, upper_bound as int) + max_chunk_size - 1 <= u32::MAX,
        2 * mps.len() <= usize::MAX,
        forall|j: int| 0 <= j < mps.len() ==> (#[trigger] mps[j]).wf() && mps[j].qs_degree == 1,
        chunk_input_ok(
            range_bits(lower_bound as int, upper_bound as int),
            max_chunk_size as nat,
            shifted_polys(
                mps@,
                range_low(lower_bound as int),
                range_high(lower_bound as int, upper_bound as int),
            ),
            chunks@,
        ),
    ensures
        qs.wf(),
        qs.chi_spec() == chi,
        qs.count_spec() == (if max_chunk_size >= range_bits(lower_bound as int, upper_bound as int) {
            2 * mps.len()
        } else {
            2 * mps.len() + chunks.len()
        }),
        qs.state_spec().poly.coeffs() == qs_fold_poly(
            seq![0int],
            1,
            chi.val() as int,
            chunk_checks_prover(
                range_bits(lower_bound as int, upper_bound as int),
                max_chunk_size as nat,
                shifted_polys(
                    mps@,
                    range_low(lower_bound as int),
                    range_high(lower_bound as int, upper_bound as int),
                ),
                chunks@,
            ),
        ),
        qs.state_spec().qs_degree == qs_fold_degree(
            1,
            chunk_checks_prover(
                range_bits(lower_bound as int, upper_bound as int),
                max_chunk_size as nat,
                shifted_polys(
                    mps@,
                    range_low(lower_bound as int),
                    range_high(lower_bound as int, upper_bound as int),
                ),
                chunks@,
            ),
        ),
{
    let (m, a, c) = qs_range_check_prepare(lower_bound, upper_bound);
    let ghost target = shifted_polys(
        mps@,
        range_low(lower_bound as int),
        range_high(lower_bound as int, upper_bound as int),
    );
    let mut new_mps: Vec<HDMacProver> = Vec::new();
    let mut j: usize = 0;
    while j < mps.len()
        invariant
            j <= mps.len(),
            2 * mps.len() <= usize::MAX,
            forall|q: int| 0 <= q < mps.len() ==> (#[trigger] mps[q]).wf() && mps[q].qs_degree == 1,
            a.val() == range_low(lower_bound as int),
            c.val() == range_high(lower_bound as int, upper_bound as int),
            target == shifted_polys(
                mps@,
                range_low(lower_bound as int),
                range_high(lower_bound as int, upper_bound as int),
            ),
            new_mps.len() == 2 * j,
            forall|k: int|
                0 <= k < new_mps.len() ==> (#[trigger] new_mps[k]).wf() && new_mps[k].qs_degree == 1
                    && new_mps[k].poly.coeffs() == target[k],
        decreases mps.len() - j,
    {
        assert(mps[j as int].wf());
        let mut t = mps[j].duplicate();
        t.sub_assign_constant(a);
        new_mps.push(t);
        let mut u = mps[j].duplicate();
        u.add_assign_constant(c);
        new_mps.push(u);
        proof {
            assert((2 * j) / 2 == j && (2 * j) % 2 == 0) by (nonlinear_arith);
            assert((2 * j + 1) / 2 == j && (2 * j + 1) % 2 == 1) by (nonlinear_arith);
        }
        j = j + 1;
    }
    proof {
        assert(prover_polys(new_mps@) =~= target);
    }
    qs_prover_check_pow2_range_in_chunks(chi, m, max_chunk_size, &new_mps, chunks)
}

/// The verifier's range check that every value of `mvs` lies strictly between
/// `lower_bound` and `upper_bound`, with the key `delta` and the challenge `chi`, in the
/// prover's order.
pub fn qs_verifier_check_range(
    delta: F61p,
    chi: F61p,
    lower_bound: i128,
    upper_bound: i128,
    max_chunk_size: u32,
    mvs: &Vec<HDMacVerifier>,
    chunks: &Vec<HDMacVerifier>,
) -> (qs: QSStateVerifier)
    requires
        range_bounds_ok(lower_bound as int, upper_bound as int),
        0 < max_chunk_size,
        range_bits(lower_bound as int, upper_bound as int) + max_chunk_size - 1 <= u32::MAX,
        2 * mvs.len() <= usize::MAX,
        forall|j: int| 0 <= j < mvs.len() ==> (#[trigger] mvs[j]).qs_degree == 1,
        chunk_input_ok_verifier(
            range_bits(lower_bound as int, upper_bound as int),
            max_chunk_size as nat,
            2 * mvs.len() as nat,
            chunks@,
        ),
    ensures
        qs.delta_spec() == delta,
        qs.chi_spec() == chi,
        qs.count_spec() == (if max_chunk_size >= range_bits(lower_bound as int, upper_bound as int) {
            2 * mvs.len()
        } else {
            2 * mvs.len() + chunks.len()
        }),
        qs.state_spec().mac.val() == qs_fold_mac(
            0,
            1,
            chi.val() as int,
            delta.val() as int,
            chunk_checks_verifier(
                range_bits(lower_bound as int, upper_bound as int),
                max_chunk_size as nat,
                delta.val() as int,
                shifted_macs(
                    mvs@,
                    range_low(lower_bound as int),
                    range_high(lower_bound as int, upper_bound as int),
                    delta.val() as int,
                ),
                chunks@,
            ),
        ),
        qs.state_spec().qs_degree == qs_fold_degree(
            1,
            chunk_checks_verifier(
                range_bits(lower_bound as int, upper_bound as int),
                max_chunk_size as nat,
                delta.val() as int,
                shifted_macs(
                    mvs@,
                    range_low(lower_bound as int),
                    range_high(lower_bound as int, upper_bound as int),
                    delta.val() as int,
                ),
                chunks@,
            ),
        ),
{
    let (m, a, c) = qs_range_check_prepare(lower_bound, upper_bound);
    let ghost d = delta.val() as int;
    let ghost target = shifted_macs(
        mvs@,
        range_low(lower_bound as int),
        range_high(lower_bound as int, upper_bound as int),
        d,
    );
    let mut new_mvs: Vec<HDMacVerifier> = Vec::new();
    let mut j: usize = 0;
    while j < mvs.len()
        invariant
            j <= mvs.len(),
            2 * mvs.len() <= usize::MAX,
            forall|q: int| 0 <= q < mvs.len() ==> (#[trigger] mvs[q]).qs_degree == 1,
            a.val() == range_low(lower_bound as int),
            c.val() == range_high(lower_bound as int, upper_bound as int),
            d == delta.val(),
            target == shifted_macs(
                mvs@,
                range_low(lower_bound as int),
                range_high(lower_bound as int, upper_bound as int),
                d,
            ),
            new_mvs.len() == 2 * j,
            forall|k: int|
                0 <= k < new_mvs.len() ==> (#[trigger] new_mvs[k]).qs_degree == 1
                    && new_mvs[k].mac.val() == target[k],
        decreases mvs.len() - j,
    {
        assert(mvs[j as int].qs_degree == 1);
        let mut t = mvs[j];
        t.sub_assign_constant(delta, a);
        new_mvs.push(t);
        let mut u = mvs[j];
        u.add_assign_constant(delta, c);
        new_mvs.push(u);
        proof {
            assert((2 * j) / 2 == j && (2 * j) % 2 == 0) by (nonlinear_arith);
            assert((2 * j + 1) / 2 == j && (2 * j + 1) % 2 == 1) by (nonlinear_arith);
        }
        j = j + 1;
    }
    proof {
        assert(verifier_macs(new_mvs@) =~= target);
    }
    qs_verifier_check_pow2_range_in_chunks(delta, chi, m, max_chunk_size, &new_mvs, chunks)
}

/// The whole sequence of checks keeps the accumulators consistent: when the prover's and
/// the verifier's accumulators agree at the key `d` and every check of the prover, of the
/// same degree as the verifier's, evaluates at `d` to the verifier's check, the
/// accumulators after all checks agree at `d` and have the same degree.
pub proof fn lemma_qs_fold_consistent(
    state: Seq<int>,
    q: nat,
    mac: int,
    chi: int,
    d: int,
    pchecks: Seq<(Seq<int>, nat)>,
    vchecks: Seq<(int, nat)>,
)
    requires
        pzero_from(state, (q + 1) as int),
        peval(state, d) % pp() == mac,
        pchecks.len() == vchecks.len(),
        forall|i: int|
            0 <= i < pchecks.len() ==> (#[trigger] pchecks[i]).1 == vchecks[i].1 && pzero_from(
                pchecks[i].0,
                (pchecks[i].1 + 1) as int,
            ) && peval(pchecks[i].0, d) % pp() == vchecks[i].0,
    ensures
        peval(qs_fold_poly(state, q, chi, pchecks), d) % pp() == qs_fold_mac(mac, q, chi, d, vchecks),
        qs_fold_degree(q, pchecks) == qs_fold_degree(q, vchecks),
    decreases pchecks.len(),
{
    if pchecks.len() > 0 {
        let p0 = pchecks[0].0;
        let pq = pchecks[0].1;
        let v0 = vchecks[0].0;
        assert(vchecks[0].1 == pq);
        lemma_qs_check_zero_consistent(state, q, mac, p0, pq, v0, chi, d);
        let ns = pscale(chi, hd_comb(state, q, p0, pq, true));
        let nq = top(q, pq);
        assert forall|i: int|
            0 <= i < pchecks.drop_first().len() implies (#[trigger] pchecks.drop_first()[i]).1
            == vchecks.drop_first()[i].1 && pzero_from(
            pchecks.drop_first()[i].0,
            (pchecks.drop_first()[i].1 + 1) as int,
        ) && peval(pchecks.drop_first()[i].0, d) % pp() == vchecks.drop_first()[i].0 by {
            assert(pchecks[i + 1] == pchecks.drop_first()[i]);
        }
        lemma_qs_fold_consistent(
            ns,
            nq,
            (mac_comb(mac, q, v0, pq, d, true) * chi) % pp(),
            chi,
            d,
            pchecks.drop_first(),
            vchecks.drop_first(),
        );
    }
}

/// Checks whose values are all zero keep the accumulator's coefficient at its degree
/// zero: the accumulator after them has no coefficient from its degree on.
proof fn lemma_qs_fold_zero(state: Seq<int>, q: nat, chi: int, checks: Seq<(Seq<int>, nat)>)
    requires
        pzero_from(state, q as int),
        forall|i: int|
            0 <= i < checks.len() ==> pzero_from((#[trigger] checks[i]).0, checks[i].1 as int),
    ensures
        pzero_from(qs_fold_poly(state, q, chi, checks), qs_fold_degree(q, checks) as int),
    decreases checks.len(),
{
    if checks.len() > 0 {
        let p0 = checks[0].0;
        let pq = checks[0].1;
        let c = hd_comb(state, q, p0, pq, true);
        let nq = top(q, pq);
        let ns = pscale(chi, c);
        lemma_hd_comb_value(state, q, p0, pq, true);
        assert(pc(state, q as int) == 0 && pc(p0, pq as int) == 0);
        lemma_small_mod(0, p61());
        assert(c[nq as int] == 0);
        assert(chi * 0 == 0);
        assert forall|i: int| nq <= i < ns.len() implies #[trigger] ns[i] == 0 by {
            assert(i == nq);
        }
        assert forall|i: int|
            0 <= i < checks.drop_first().len() implies pzero_from(
            (#[trigger] checks.drop_first()[i]).0,
            checks.drop_first()[i].1 as int,
        ) by {
            assert(checks[i + 1] == checks.drop_first()[i]);
        }
        lemma_qs_fold_zero(ns, nq, chi, checks.drop_first());
    }
}

/// Completeness of a whole run of the batched zero check: a prover and a verifier that
/// start afresh with the challenge `chi` and are fed the same checks in the same order
/// (each a polynomial of the prover whose coefficient at its degree, its value, is zero,
/// and which evaluates at the key `d` to the verifier's MAC of the same degree) end with
/// accumulators such that the prover's proof, a mask of degree below the accumulated
/// degree plus the accumulated polynomial, is accepted by the verifier given the mask's
/// value at the key: the proof has degree below the accumulated degree and evaluates at
/// the key to the verifier's accumulated MAC plus that value.
pub proof fn lemma_qs_run_complete(
    chi: int,
    d: int,
    pchecks: Seq<(Seq<int>, nat)>,
    vchecks: Seq<(int, nat)>,
    mask: Seq<int>,
)
    requires
        pchecks.len() == vchecks.len(),
        forall|i: int|
            0 <= i < pchecks.len() ==> (#[trigger] pchecks[i]).1 == vchecks[i].1 && pzero_from(
                pchecks[i].0,
                pchecks[i].1 as int,
            ) && peval(pchecks[i].0, d) % pp() == vchecks[i].0,
        pzero_from(mask, qs_fold_degree(1, pchecks) as int),
    ensures
        ({
            let state = qs_fold_poly(seq![0int], 1, chi, pchecks);
            let q = qs_fold_degree(1, pchecks);
            let mac = qs_fold_mac(0, 1, chi, d, vchecks);
            &&& q == qs_fold_degree(1, vchecks)
            &&& q > 0
            &&& pzero_from(padd(mask, state), q as int)
            &&& peval(padd(mask, state), d) % pp() == (mac + peval(mask, d) % pp()) % pp()
        }),
{
    let z = seq![0int];
    assert(peval(z, d) == 0) by {
        assert(peval(z.drop_first(), d) == 0);
        assert(d * 0 == 0);
        assert(peval(z, d) == z[0] + d * peval(z.drop_first(), d));
    }
    lemma_small_mod(0, p61());
    assert forall|i: int|
        0 <= i < pchecks.len() implies (#[trigger] pchecks[i]).1 == vchecks[i].1 && pzero_from(
        pchecks[i].0,
        (pchecks[i].1 + 1) as int,
    ) && peval(pchecks[i].0, d) % pp() == vchecks[i].0 by {}
    lemma_qs_fold_consistent(z, 1, 0, chi, d, pchecks, vchecks);
    assert forall|i: int|
        0 <= i < pchecks.len() implies pzero_from((#[trigger] pchecks[i]).0, pchecks[i].1 as int) by {}
    assert(pzero_from(z, 1));
    lemma_qs_fold_zero(z, 1, chi, pchecks);
    lemma_qs_fold_degree_pos(1, pchecks);
    let state = qs_fold_poly(z, 1, chi, pchecks);
    let q = qs_fold_degree(1, pchecks);
    lemma_qs_complete(state, q, qs_fold_mac(0, 1, chi, d, vchecks), mask, d);
}

/// The accumulated degree never drops below where it started.
proof fn lemma_qs_fold_degree_pos<A>(q: nat, checks: Seq<(A, nat)>)
    ensures
        qs_fold_degree(q, checks) >= q,
    decreases checks.len(),
{
    if checks.len() > 0 {
        lemma_qs_fold_degree_pos(top(q, checks[0].1), checks.drop_first());
    }
}

/// A polynomial of degree one evaluates to its constant plus `d` times its value.
proof fn lemma_eval_degree_one(a: Seq<int>, d: int)
    requires
        pzero_from(a, 2),
    ensures
        peval(a, d) == pc(a, 0) + d * pc(a, 1),
{
    lemma_peval_resize(a, 2, d);
    let s = Seq::new(2, |i: int| pc(a, i));
    let s1 = s.drop_first();
    let s2 = s1.drop_first();
    assert(peval(s2, d) == 0);
    assert(d * 0 == 0);
    assert(peval(s1, d) == s1[0] + d * peval(s2, d));
    assert(peval(s, d) == s[0] + d * peval(s1, d));
}

/// The coefficients of a polynomial are reduced.
proof fn lemma_coeffs_reduced(p: GeneralPolynomial)
    ensures
        preduced(p.coeffs()),
{
    lemma_vals_reduced(p.coefficients@);
    lemma_f61p_val_bound(p.constant);
    assert forall|i: int| 0 <= i < p.coeffs().len() implies 0 <= #[trigger] p.coeffs()[i] < pp() by {
        if i > 0 {
            assert(p.coeffs()[i] == vals(p.coefficients@)[i - 1]);
        }
    }
}

/// The range checks in chunks keep the prover and the verifier consistent: fed values and
/// chunks whose polynomials evaluate at the key `d` to the verifier's MACs, the prover's
/// accumulator after all checks evaluates at `d` to the verifier's accumulated MAC, and
/// both have the same degree.
pub proof fn lemma_range_in_chunks_consistent(
    d: int,
    chi: int,
    bits: nat,
    max: nat,
    mps: Seq<HDMacProver>,
    mvs: Seq<HDMacVerifier>,
    pchunks: Seq<HDMacProver>,
    vchunks: Seq<HDMacVerifier>,
)
    requires
        0 < bits,
        0 < max,
        mps.len() == mvs.len(),
        forall|j: int|
            0 <= j < mps.len() ==> (#[trigger] mps[j]).wf() && mps[j].qs_degree == 1 && peval(
                mps[j].poly.coeffs(),
                d,
            ) % pp() == mvs[j].mac.val(),
        max < bits ==> pchunks.len() == vchunks.len() && pchunks.len() == mps.len() * num_chunks(
            bits,
            max,
        ),
        max < bits ==> forall|i: int|
            0 <= i < pchunks.len() ==> (#[trigger] pchunks[i]).wf() && pchunks[i].qs_degree == 1
                && peval(pchunks[i].poly.coeffs(), d) % pp() == vchunks[i].mac.val(),
    ensures
        peval(
            qs_fold_poly(seq![0int], 1, chi, chunk_checks_prover(bits, max, prover_polys(mps), pchunks)),
            d,
        ) % pp() == qs_fold_mac(0, 1, chi, d, chunk_checks_verifier(bits, max, d, verifier_macs(mvs), vchunks)),
        qs_fold_degree(1, chunk_checks_prover(bits, max, prover_polys(mps), pchunks)) == qs_fold_degree(
            1,
            chunk_checks_verifier(bits, max, d, verifier_macs(mvs), vchunks),
        ),
{
    let pchecks = chunk_checks_prover(bits, max, prover_polys(mps), pchunks);
    let vchecks = chunk_checks_verifier(bits, max, d, verifier_macs(mvs), vchunks);
    let n = num_chunks(bits, max) as int;
    assert(peval(seq![0int], d) == 0) by {
        let z = seq![0int];
        assert(peval(z.drop_first(), d) == 0);
        assert(d * 0 == 0);
        assert(peval(z, d) == z[0] + d * peval(z.drop_first(), d));
    }
    lemma_small_mod(0, p61());
    assert forall|k: int|
        0 <= k < pchecks.len() implies (#[trigger] pchecks[k]).1 == vchecks[k].1 && pzero_from(
        pchecks[k].0,
        (pchecks[k].1 + 1) as int,
    ) && peval(pchecks[k].0, d) % pp() == vchecks[k].0 by {
        if max >= bits {
            assert(prover_polys(mps)[k] == mps[k].poly.coeffs());
            assert(verifier_macs(mvs)[k] == mvs[k].mac.val());
            lemma_coeffs_reduced(mps[k].poly);
            lemma_pow2_pos(bits);
            lemma_hd_range_consistent(mps[k].poly.coeffs(), pow2(bits), d);
        } else if k < mps.len() {
            assert(prover_polys(mps)[k] == mps[k].poly.coeffs());
            assert(verifier_macs(mvs)[k] == mvs[k].mac.val());
            lemma_eval_degree_one(mps[k].poly.coeffs(), d);
            assert forall|i: int|
                k * n <= i < k * n + n implies (pc((#[trigger] pchunks[i]).poly.coeffs(), 0) + d
                * pc(pchunks[i].poly.coeffs(), 1)) % pp() == vchunks[i].mac.val() by {
                assert(k * n + n <= mps.len() * n) by (nonlinear_arith)
                    requires
                        k + 1 <= mps.len(),
                        0 <= n,
                ;
                lemma_eval_degree_one(pchunks[i].poly.coeffs(), d);
            }
            assert(0 <= k * n) by (nonlinear_arith)
                requires
                    0 <= k,
                    0 <= n,
            ;
            assert(k * n + n <= mps.len() * n) by (nonlinear_arith)
                requires
                    k + 1 <= mps.len(),
                    0 <= n,
            ;
            lemma_chunk_difference_consistent(d, mps[k], mvs[k], pchunks, vchunks, k * n, n, max);
            let dp = diff_poly(mps[k].poly.coeffs(), pchunks, k * n, n, max);
            lemma_eval_degree_one(dp, d);
        } else {
            let i = k - mps.len();
            lemma_coeffs_reduced(pchunks[i].poly);
            let w = chunk_width(bits, max, i % n);
            lemma_pow2_pos(w);
            lemma_hd_range_consistent(pchunks[i].poly.coeffs(), pow2(w), d);
        }
    }
    lemma_qs_fold_consistent(seq![0int], 1, 0, chi, d, pchecks, vchecks);
}

} // verus!
