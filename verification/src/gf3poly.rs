//! Polynomials over GF(3), as coefficient sequences, and arithmetic modulo a monic
//! polynomial `x^n - r(x)`, where `r` has degree below `n`.
use vstd::prelude::*;
use vstd::arithmetic::div_mod::*;
use vstd::arithmetic::mul::*;

verus! {

/// Every coefficient lies in `0..3`.
pub open spec fn reduced(a: Seq<nat>) -> bool {
    forall|i: int| 0 <= i < a.len() ==> #[trigger] a[i] < 3
}

/// The zero polynomial with `n` coefficients.
pub open spec fn pzero(n: nat) -> Seq<nat> {
    Seq::new(n, |i: int| 0nat)
}

/// The constant polynomial one with `n` coefficients.
pub open spec fn pone(n: nat) -> Seq<nat> {
    Seq::new(n, |i: int| if i == 0 { 1nat } else { 0nat })
}

/// Coefficient-wise sum.
pub open spec fn padd(a: Seq<nat>, b: Seq<nat>) -> Seq<nat> {
    Seq::new(a.len(), |i: int| (a[i] + b[i]) % 3)
}

/// Coefficient-wise negation.
pub open spec fn pneg(a: Seq<nat>) -> Seq<nat> {
    Seq::new(a.len(), |i: int| (2 * a[i]) % 3)
}

/// Coefficient-wise difference.
pub open spec fn psub(a: Seq<nat>, b: Seq<nat>) -> Seq<nat> {
    padd(a, pneg(b))
}

/// Multiplication by a constant of GF(3).
pub open spec fn pscale(c: nat, a: Seq<nat>) -> Seq<nat> {
    Seq::new(a.len(), |i: int| (c * a[i]) % 3)
}

/// Multiplication by `x`, where `x^n` is replaced by `r`.
pub open spec fn xtimes(a: Seq<nat>, r: Seq<nat>) -> Seq<nat> {
    Seq::new(
        a.len(),
        |i: int| ((if i == 0 { 0nat } else { a[i - 1] }) + a[a.len() - 1] * r[i]) % 3,
    )
}

/// `a * (b_k + b_{k+1} x + ... + b_{n-1} x^{n-1-k})` evaluated by Horner's rule,
/// from the highest coefficient of `b` down to the `k`-th.
pub open spec fn horner(a: Seq<nat>, b: Seq<nat>, r: Seq<nat>, k: nat) -> Seq<nat>
    decreases b.len() - k,
{
    if k >= b.len() {
        pzero(a.len())
    } else {
        padd(xtimes(horner(a, b, r, k + 1), r), pscale(b[k as int], a))
    }
}

/// The product of `a` and `b` modulo `x^n - r`.
pub open spec fn pmul(a: Seq<nat>, b: Seq<nat>, r: Seq<nat>) -> Seq<nat> {
    horner(a, b, r, 0)
}

/// `a^e` modulo `x^n - r`, by square-and-multiply over the binary digits of `e`.
pub open spec fn ppow(a: Seq<nat>, e: nat, r: Seq<nat>) -> Seq<nat>
    decreases e,
{
    if e == 0 {
        pone(a.len())
    } else {
        let h = ppow(a, e / 2, r);
        let sq = pmul(h, h, r);
        if e % 2 == 0 {
            sq
        } else {
            pmul(sq, a, r)
        }
    }
}

/// The sum of `c_i * v_i` over `i < k`.
pub open spec fn plincomb(c: Seq<nat>, v: Seq<Seq<nat>>, n: nat, k: nat) -> Seq<nat>
    decreases k,
{
    if k == 0 {
        pzero(n)
    } else {
        padd(plincomb(c, v, n, (k - 1) as nat), pscale(c[k - 1], v[k - 1]))
    }
}

pub proof fn lemma_horner_len(a: Seq<nat>, b: Seq<nat>, r: Seq<nat>, k: nat)
    ensures
        horner(a, b, r, k).len() == a.len(),
        reduced(horner(a, b, r, k)),
    decreases b.len() - k,
{
    if k < b.len() {
        lemma_horner_len(a, b, r, k + 1);
    }
}


proof fn lemma_add3(x: int, y: int, u: int, v: int)
    ensures
        ((x + y) % 3 + (u + v) % 3) % 3 == ((x + u) % 3 + (y + v) % 3) % 3,
{
    lemma_add_mod_noop(x + y, u + v, 3);
    lemma_add_mod_noop(x + u, y + v, 3);
}

/// The coefficient sums form an abelian group: addition is commutative and
/// associative, zero is neutral and `pneg` gives the inverse, on reduced polynomials of
/// one length.
pub proof fn lemma_padd_group(a: Seq<nat>, b: Seq<nat>, c: Seq<nat>)
    requires
        a.len() == b.len(),
        b.len() == c.len(),
        reduced(a),
    ensures
        padd(a, b) == padd(b, a),
        padd(padd(a, b), c) == padd(a, padd(b, c)),
        padd(a, pzero(a.len())) == a,
        padd(a, pneg(a)) == pzero(a.len()),
{
    assert forall|i: int| 0 <= i < a.len() implies #[trigger] padd(padd(a, b), c)[i] == padd(a, padd(b, c))[i] by {
        lemma_add_mod_noop((a[i] + b[i]) as int, c[i] as int, 3);
        lemma_add_mod_noop(a[i] as int, (b[i] + c[i]) as int, 3);
        lemma_mod_twice(c[i] as int, 3);
        lemma_mod_twice(a[i] as int, 3);
        lemma_add_mod_noop(a[i] as int, b[i] as int, 3);
        lemma_add_mod_noop(b[i] as int, c[i] as int, 3);
    }
    assert(padd(a, b) =~= padd(b, a));
    assert(padd(padd(a, b), c) =~= padd(a, padd(b, c)));
    assert forall|i: int| 0 <= i < a.len() implies #[trigger] padd(a, pzero(a.len()))[i] == a[i] by {
        lemma_small_mod(a[i], 3);
    }
    assert(padd(a, pzero(a.len())) =~= a);
    assert forall|i: int| 0 <= i < a.len() implies #[trigger] padd(a, pneg(a))[i] == 0 by {
        lemma_add_mod_noop(a[i] as int, (2 * a[i]) as int, 3);
        lemma_mod_multiples_basic(a[i] as int, 3);
    }
    assert(padd(a, pneg(a)) =~= pzero(a.len()));
}

/// Multiplication by `x` is additive.
proof fn lemma_xtimes_add(x: Seq<nat>, y: Seq<nat>, r: Seq<nat>)
    requires
        x.len() == y.len(),
        x.len() > 0,
        r.len() == x.len(),
    ensures
        xtimes(padd(x, y), r) == padd(xtimes(x, r), xtimes(y, r)),
{
    let n = x.len();
    assert forall|i: int| 0 <= i < n implies #[trigger] xtimes(padd(x, y), r)[i] == padd(xtimes(x, r), xtimes(y, r))[i] by {
        let px: int = if i == 0 { 0 } else { x[i - 1] as int };
        let py: int = if i == 0 { 0 } else { y[i - 1] as int };
        let tx = x[n - 1] as int;
        let ty = y[n - 1] as int;
        let ri = r[i] as int;
        let lhs_prev: int = if i == 0 { 0 } else { ((x[i - 1] + y[i - 1]) % 3) as int };
        assert(lhs_prev % 3 == (px + py) % 3) by {
            if i > 0 {
                lemma_mod_twice(px + py, 3);
            }
        }
        lemma_mul_mod_noop_left(tx + ty, ri, 3);
        assert((tx + ty) * ri == tx * ri + ty * ri) by (nonlinear_arith);
        lemma_add_mod_noop(lhs_prev, ((tx + ty) % 3) * ri, 3);
        lemma_add_mod_noop(px + py, (tx + ty) * ri, 3);
        lemma_add3(px, tx * ri, py, ty * ri);
    }
    assert(xtimes(padd(x, y), r) =~= padd(xtimes(x, r), xtimes(y, r)));
}

/// Multiplication by a constant distributes over sums of constants.
proof fn lemma_pscale_add(u: nat, v: nat, a: Seq<nat>)
    ensures
        pscale((u + v) % 3, a) == padd(pscale(u, a), pscale(v, a)),
{
    assert forall|i: int| 0 <= i < a.len() implies #[trigger] pscale((u + v) % 3, a)[i] == padd(pscale(u, a), pscale(v, a))[i] by {
        lemma_mul_mod_noop_left((u + v) as int, a[i] as int, 3);
        assert((u + v) * a[i] == u * a[i] + v * a[i]) by (nonlinear_arith);
        lemma_add_mod_noop((u * a[i]) as int, (v * a[i]) as int, 3);
    }
    assert(pscale((u + v) % 3, a) =~= padd(pscale(u, a), pscale(v, a)));
}

proof fn lemma_padd_swap(p: Seq<nat>, q: Seq<nat>, s: Seq<nat>, t: Seq<nat>)
    requires
        p.len() == q.len(),
        q.len() == s.len(),
        s.len() == t.len(),
    ensures
        padd(padd(p, q), padd(s, t)) == padd(padd(p, s), padd(q, t)),
{
    assert forall|i: int| 0 <= i < p.len() implies #[trigger] padd(padd(p, q), padd(s, t))[i] == padd(padd(p, s), padd(q, t))[i] by {
        lemma_add3(p[i] as int, q[i] as int, s[i] as int, t[i] as int);
    }
    assert(padd(padd(p, q), padd(s, t)) =~= padd(padd(p, s), padd(q, t)));
}

proof fn lemma_horner_distributes(a: Seq<nat>, b: Seq<nat>, c: Seq<nat>, r: Seq<nat>, k: nat)
    requires
        a.len() > 0,
        r.len() == a.len(),
        b.len() == c.len(),
    ensures
        horner(a, padd(b, c), r, k) == padd(horner(a, b, r, k), horner(a, c, r, k)),
    decreases b.len() - k,
{
    let n = a.len();
    if k >= b.len() {
        assert(padd(pzero(n), pzero(n)) =~= pzero(n));
    } else {
        lemma_horner_distributes(a, b, c, r, k + 1);
        lemma_horner_len(a, b, r, k + 1);
        lemma_horner_len(a, c, r, k + 1);
        let hb = horner(a, b, r, k + 1);
        let hc = horner(a, c, r, k + 1);
        lemma_xtimes_add(hb, hc, r);
        lemma_pscale_add(b[k as int], c[k as int], a);
        lemma_padd_swap(xtimes(hb, r), xtimes(hc, r), pscale(b[k as int], a), pscale(c[k as int], a));
    }
}

/// Multiplication distributes over addition: `a (b + c) = a b + a c`, for every
/// modulus.
pub proof fn lemma_pmul_distributes(a: Seq<nat>, b: Seq<nat>, c: Seq<nat>, r: Seq<nat>)
    requires
        a.len() > 0,
        r.len() == a.len(),
        b.len() == c.len(),
    ensures
        pmul(a, padd(b, c), r) == padd(pmul(a, b, r), pmul(a, c, r)),
{
    lemma_horner_distributes(a, b, c, r, 0);
}

/// Scaling commutes with scaling: `s (t a) = (s t) a`.
proof fn lemma_pscale_pscale(s: nat, t: nat, a: Seq<nat>)
    ensures
        pscale(s, pscale(t, a)) == pscale(((s * t) % 3) as nat, a),
        pscale(s, pscale(t, a)) == pscale(s * t, a),
{
    assert forall|i: int| 0 <= i < a.len() implies #[trigger] pscale(s, pscale(t, a))[i] == pscale(s * t, a)[i] by {
        lemma_mul_mod_noop_right(s as int, (t * a[i]) as int, 3);
        assert(s * (t * a[i]) == (s * t) * a[i]) by (nonlinear_arith);
    }
    assert forall|i: int| 0 <= i < a.len() implies #[trigger] pscale(((s * t) % 3) as nat, a)[i] == pscale(s * t, a)[i] by {
        lemma_mul_mod_noop_left((s * t) as int, a[i] as int, 3);
    }
    assert(pscale(s, pscale(t, a)) =~= pscale(s * t, a));
    assert(pscale(((s * t) % 3) as nat, a) =~= pscale(s * t, a));
}

/// Scaling distributes over sums.
proof fn lemma_pscale_padd(s: nat, a: Seq<nat>, b: Seq<nat>)
    requires
        a.len() == b.len(),
    ensures
        pscale(s, padd(a, b)) == padd(pscale(s, a), pscale(s, b)),
{
    assert forall|i: int| 0 <= i < a.len() implies #[trigger] pscale(s, padd(a, b))[i] == padd(pscale(s, a), pscale(s, b))[i] by {
        lemma_mul_mod_noop_right(s as int, (a[i] + b[i]) as int, 3);
        assert(s * (a[i] + b[i]) == s * a[i] + s * b[i]) by (nonlinear_arith);
        lemma_add_mod_noop((s * a[i]) as int, (s * b[i]) as int, 3);
    }
    assert(pscale(s, padd(a, b)) =~= padd(pscale(s, a), pscale(s, b)));
}

/// Multiplication by `x` commutes with scaling.
proof fn lemma_xtimes_scale(s: nat, x: Seq<nat>, r: Seq<nat>)
    requires
        x.len() > 0,
        r.len() == x.len(),
    ensures
        xtimes(pscale(s, x), r) == pscale(s, xtimes(x, r)),
{
    let n = x.len();
    assert forall|i: int| 0 <= i < n implies #[trigger] xtimes(pscale(s, x), r)[i] == pscale(s, xtimes(x, r))[i] by {
        let px: int = if i == 0 { 0 } else { x[i - 1] as int };
        let sx: int = if i == 0 { 0 } else { ((s * x[i - 1]) % 3) as int };
        let t = x[n - 1] as int;
        let ri = r[i] as int;
        let si = s as int;
        assert(sx % 3 == (si * px) % 3) by {
            if i > 0 {
                lemma_mod_twice(si * px, 3);
            }
        }
        lemma_mul_mod_noop_left(si * t, ri, 3);
        lemma_add_mod_noop(sx, ((si * t) % 3) * ri, 3);
        lemma_add_mod_noop(si * px, (si * t) * ri, 3);
        lemma_mul_mod_noop_right(si, px + t * ri, 3);
        assert(si * (px + t * ri) == si * px + (si * t) * ri) by (nonlinear_arith);
    }
    assert(xtimes(pscale(s, x), r) =~= pscale(s, xtimes(x, r)));
}

proof fn lemma_horner_scale_right(a: Seq<nat>, b: Seq<nat>, s: nat, r: Seq<nat>, k: nat)
    requires
        a.len() > 0,
        r.len() == a.len(),
    ensures
        horner(a, pscale(s, b), r, k) == pscale(s, horner(a, b, r, k)),
    decreases b.len() - k,
{
    let n = a.len();
    if k >= b.len() {
        assert(pscale(s, pzero(n)) =~= pzero(n));
    } else {
        lemma_horner_scale_right(a, b, s, r, k + 1);
        lemma_horner_len(a, b, r, k + 1);
        let h = horner(a, b, r, k + 1);
        lemma_xtimes_scale(s, h, r);
        lemma_pscale_pscale(s, b[k as int], a);
        lemma_pscale_padd(s, xtimes(h, r), pscale(b[k as int], a));
    }
}

proof fn lemma_horner_scale_left(s: nat, a: Seq<nat>, b: Seq<nat>, r: Seq<nat>, k: nat)
    requires
        a.len() > 0,
        r.len() == a.len(),
    ensures
        horner(pscale(s, a), b, r, k) == pscale(s, horner(a, b, r, k)),
    decreases b.len() - k,
{
    let n = a.len();
    if k >= b.len() {
        assert(pscale(s, pzero(n)) =~= pzero(n));
    } else {
        lemma_horner_scale_left(s, a, b, r, k + 1);
        lemma_horner_len(a, b, r, k + 1);
        let h = horner(a, b, r, k + 1);
        lemma_xtimes_scale(s, h, r);
        lemma_pscale_pscale(b[k as int], s, a);
        lemma_pscale_pscale(s, b[k as int], a);
        assert(b[k as int] * s == s * b[k as int]) by (nonlinear_arith);
        lemma_pscale_padd(s, xtimes(h, r), pscale(b[k as int], a));
    }
}

proof fn lemma_horner_distributes_left(a: Seq<nat>, c: Seq<nat>, b: Seq<nat>, r: Seq<nat>, k: nat)
    requires
        a.len() > 0,
        r.len() == a.len(),
        c.len() == a.len(),
    ensures
        horner(padd(a, c), b, r, k) == padd(horner(a, b, r, k), horner(c, b, r, k)),
    decreases b.len() - k,
{
    let n = a.len();
    if k >= b.len() {
        assert(padd(pzero(n), pzero(n)) =~= pzero(n));
    } else {
        lemma_horner_distributes_left(a, c, b, r, k + 1);
        lemma_horner_len(a, b, r, k + 1);
        lemma_horner_len(c, b, r, k + 1);
        let ha = horner(a, b, r, k + 1);
        let hc = horner(c, b, r, k + 1);
        lemma_xtimes_add(ha, hc, r);
        lemma_pscale_padd(b[k as int], a, c);
        lemma_padd_swap(xtimes(ha, r), xtimes(hc, r), pscale(b[k as int], a), pscale(b[k as int], c));
    }
}

/// Multiplication distributes over addition in the first factor too:
/// `(a + c) b = a b + c b`, for every modulus.
pub proof fn lemma_pmul_distributes_left(a: Seq<nat>, c: Seq<nat>, b: Seq<nat>, r: Seq<nat>)
    requires
        a.len() > 0,
        r.len() == a.len(),
        c.len() == a.len(),
    ensures
        pmul(padd(a, c), b, r) == padd(pmul(a, b, r), pmul(c, b, r)),
{
    lemma_horner_distributes_left(a, c, b, r, 0);
}

/// Constants move out of products: `(s a) b = s (a b) = a (s b)`.
pub proof fn lemma_pmul_scale(s: nat, a: Seq<nat>, b: Seq<nat>, r: Seq<nat>)
    requires
        a.len() > 0,
        r.len() == a.len(),
    ensures
        pmul(pscale(s, a), b, r) == pscale(s, pmul(a, b, r)),
        pmul(a, pscale(s, b), r) == pscale(s, pmul(a, b, r)),
{
    lemma_horner_scale_left(s, a, b, r, 0);
    lemma_horner_scale_right(a, b, s, r, 0);
}

/// `f(0) + f(1) + ... + f(m - 1)`, polynomials with `n` coefficients.
pub open spec fn psum(f: spec_fn(int) -> Seq<nat>, n: nat, m: int) -> Seq<nat>
    decreases m,
{
    if m <= 0 {
        pzero(n)
    } else {
        padd(psum(f, n, m - 1), f(m - 1))
    }
}

proof fn lemma_psum_len(f: spec_fn(int) -> Seq<nat>, n: nat, m: int)
    ensures
        psum(f, n, m).len() == n,
        reduced(psum(f, n, m)),
    decreases m,
{
    if m > 0 {
        lemma_psum_len(f, n, m - 1);
    }
}

proof fn lemma_psum_congr(f: spec_fn(int) -> Seq<nat>, g: spec_fn(int) -> Seq<nat>, n: nat, m: int)
    requires
        forall|i: int| 0 <= i < m ==> #[trigger] f(i) == g(i),
    ensures
        psum(f, n, m) == psum(g, n, m),
    decreases m,
{
    if m > 0 {
        lemma_psum_congr(f, g, n, m - 1);
    }
}

proof fn lemma_psum_zero(n: nat, m: int)
    ensures
        psum(|i: int| pzero(n), n, m) == pzero(n),
    decreases m,
{
    if m > 0 {
        lemma_psum_zero(n, m - 1);
        assert(padd(pzero(n), pzero(n)) =~= pzero(n));
    }
}

proof fn lemma_psum_add(f: spec_fn(int) -> Seq<nat>, g: spec_fn(int) -> Seq<nat>, n: nat, m: int)
    requires
        forall|i: int| 0 <= i < m ==> (#[trigger] f(i)).len() == n && g(i).len() == n,
    ensures
        psum(|i: int| padd(f(i), g(i)), n, m) == padd(psum(f, n, m), psum(g, n, m)),
    decreases m,
{
    if m <= 0 {
        assert(padd(pzero(n), pzero(n)) =~= pzero(n));
    } else {
        lemma_psum_add(f, g, n, m - 1);
        lemma_psum_len(f, n, m - 1);
        lemma_psum_len(g, n, m - 1);
        let h = |i: int| padd(f(i), g(i));
        assert(psum(h, n, m) == padd(psum(h, n, m - 1), h(m - 1)));
        lemma_padd_swap(psum(f, n, m - 1), psum(g, n, m - 1), f(m - 1), g(m - 1));
    }
}

proof fn lemma_psum_scale(s: nat, f: spec_fn(int) -> Seq<nat>, n: nat, m: int)
    requires
        forall|i: int| 0 <= i < m ==> (#[trigger] f(i)).len() == n,
    ensures
        pscale(s, psum(f, n, m)) == psum(|i: int| pscale(s, f(i)), n, m),
    decreases m,
{
    if m <= 0 {
        assert(pscale(s, pzero(n)) =~= pzero(n));
    } else {
        lemma_psum_scale(s, f, n, m - 1);
        lemma_psum_len(f, n, m - 1);
        lemma_pscale_padd(s, psum(f, n, m - 1), f(m - 1));
    }
}

proof fn lemma_psum_exchange(g: spec_fn(int, int) -> Seq<nat>, n: nat, m1: int, m2: int)
    requires
        0 <= m2,
        forall|i: int, j: int| 0 <= i < m1 && 0 <= j < m2 ==> (#[trigger] g(i, j)).len() == n,
    ensures
        psum(|i: int| psum(|j: int| g(i, j), n, m2), n, m1) == psum(
            |j: int| psum(|i: int| g(i, j), n, m1),
            n,
            m2,
        ),
    decreases m1,
{
    let rows = |i: int| psum(|j: int| g(i, j), n, m2);
    let cols = |j: int| psum(|i: int| g(i, j), n, m1);
    if m1 <= 0 {
        let zf = |j: int| pzero(n);
        assert forall|j: int| 0 <= j < m2 implies #[trigger] cols(j) == zf(j) by {}
        lemma_psum_congr(cols, zf, n, m2);
        lemma_psum_zero(n, m2);
    } else {
        lemma_psum_exchange(g, n, m1 - 1, m2);
        let inner_prev = |j: int| psum(|i: int| g(i, j), n, m1 - 1);
        let last = |j: int| g(m1 - 1, j);
        let both = |j: int| padd(inner_prev(j), last(j));
        assert forall|j: int| 0 <= j < m2 implies (#[trigger] inner_prev(j)).len() == n && last(j).len() == n by {
            lemma_psum_len(|i: int| g(i, j), n, m1 - 1);
        }
        lemma_psum_add(inner_prev, last, n, m2);
        assert forall|j: int| 0 <= j < m2 implies #[trigger] cols(j) == both(j) by {}
        lemma_psum_congr(cols, both, n, m2);
        assert(psum(rows, n, m1) == padd(psum(rows, n, m1 - 1), rows(m1 - 1)));
    }
}

/// Multiplication distributes over a sum in the first factor.
proof fn lemma_pmul_sum_left(f: spec_fn(int) -> Seq<nat>, b: Seq<nat>, r: Seq<nat>, n: nat, m: int)
    requires
        n > 0,
        r.len() == n,
        forall|i: int| 0 <= i < m ==> (#[trigger] f(i)).len() == n,
    ensures
        pmul(psum(f, n, m), b, r) == psum(|i: int| pmul(f(i), b, r), n, m),
    decreases m,
{
    if m <= 0 {
        lemma_pmul_scale(0, pzero(n), b, r);
        assert(pscale(0, pzero(n)) =~= pzero(n));
        lemma_horner_len(pzero(n), b, r, 0);
        assert(pscale(0, pmul(pzero(n), b, r)) =~= pzero(n));
    } else {
        lemma_pmul_sum_left(f, b, r, n, m - 1);
        lemma_psum_len(f, n, m - 1);
        lemma_pmul_distributes_left(psum(f, n, m - 1), f(m - 1), b, r);
    }
}

/// Multiplication distributes over a sum in the second factor.
proof fn lemma_pmul_sum_right(c: Seq<nat>, f: spec_fn(int) -> Seq<nat>, r: Seq<nat>, n: nat, m: int)
    requires
        n > 0,
        c.len() == n,
        r.len() == n,
        forall|i: int| 0 <= i < m ==> (#[trigger] f(i)).len() == n,
    ensures
        pmul(c, psum(f, n, m), r) == psum(|j: int| pmul(c, f(j), r), n, m),
    decreases m,
{
    if m <= 0 {
        lemma_pmul_scale(0, c, pzero(n), r);
        assert(pscale(0, pzero(n)) =~= pzero(n));
        lemma_horner_len(c, pzero(n), r, 0);
        assert(pscale(0, pmul(c, pzero(n), r)) =~= pzero(n));
    } else {
        lemma_pmul_sum_right(c, f, r, n, m - 1);
        lemma_psum_len(f, n, m - 1);
        lemma_pmul_distributes(c, psum(f, n, m - 1), f(m - 1), r);
    }
}

/// The monomial `x^k` with `n` coefficients.
pub open spec fn pmono(n: nat, k: int) -> Seq<nat> {
    Seq::new(n, |i: int| if i == k { 1nat } else { 0nat })
}

/// Multiplication by `x`, `k` times.
pub open spec fn pxpow(a: Seq<nat>, r: Seq<nat>, k: nat) -> Seq<nat>
    decreases k,
{
    if k == 0 {
        a
    } else {
        xtimes(pxpow(a, r, (k - 1) as nat), r)
    }
}

/// The monomial terms of `a`: `a[i] x^i`.
pub open spec fn pterm(a: Seq<nat>, n: nat) -> spec_fn(int) -> Seq<nat> {
    |i: int| pscale(a[i], pmono(n, i))
}

proof fn lemma_pdecomp(a: Seq<nat>, m: int)
    requires
        reduced(a),
        0 <= m <= a.len(),
    ensures
        psum(pterm(a, a.len()), a.len(), m) == Seq::new(a.len(), |k: int| if k < m { a[k] } else { 0nat }),
    decreases m,
{
    let n = a.len();
    if m == 0 {
        assert(pzero(n) =~= Seq::new(n, |k: int| if k < m { a[k] } else { 0nat }));
    } else {
        lemma_pdecomp(a, m - 1);
        let prev = Seq::new(n, |k: int| if k < m - 1 { a[k] } else { 0nat });
        let t = pscale(a[m - 1], pmono(n, m - 1));
        assert forall|k: int| 0 <= k < n implies #[trigger] padd(prev, t)[k] == (if k < m { a[k] } else { 0nat }) by {
            let am = a[m - 1];
            if k == m - 1 {
                assert(am * 1 == am);
                lemma_small_mod(am, 3);
                assert(t[k] == am);
                assert(prev[k] == 0);
                assert(padd(prev, t)[k] == (0 + am) % 3);
            } else {
                assert(am * 0 == 0);
                assert(t[k] == 0);
                if k < m - 1 {
                    lemma_small_mod(a[k], 3);
                    assert(padd(prev, t)[k] == (a[k] + 0) % 3);
                } else {
                    assert(padd(prev, t)[k] == (0 + 0) % 3);
                }
            }
        }
        assert(padd(prev, t) =~= Seq::new(n, |k: int| if k < m { a[k] } else { 0nat }));
    }
}

proof fn lemma_pxpow_len(a: Seq<nat>, r: Seq<nat>, k: nat)
    ensures
        pxpow(a, r, k).len() == a.len(),
        reduced(a) ==> reduced(pxpow(a, r, k)),
    decreases k,
{
    if k > 0 {
        lemma_pxpow_len(a, r, (k - 1) as nat);
    }
}

proof fn lemma_padd_zero_right(x: Seq<nat>)
    requires
        reduced(x),
    ensures
        padd(x, pzero(x.len())) == x,
        padd(pzero(x.len()), x) == x,
{
    assert forall|i: int| 0 <= i < x.len() implies #[trigger] padd(x, pzero(x.len()))[i] == x[i] by {
        lemma_small_mod(x[i], 3);
    }
    assert forall|i: int| 0 <= i < x.len() implies #[trigger] padd(pzero(x.len()), x)[i] == x[i] by {
        lemma_small_mod(x[i], 3);
    }
    assert(padd(x, pzero(x.len())) =~= x);
    assert(padd(pzero(x.len()), x) =~= x);
}

proof fn lemma_horner_mono_above(a: Seq<nat>, r: Seq<nat>, n: nat, k: int, j: nat)
    requires
        0 <= k < j <= n,
        a.len() == n,
    ensures
        horner(a, pmono(n, k), r, j) == pzero(n),
    decreases n - j,
{
    if j < n {
        lemma_horner_mono_above(a, r, n, k, j + 1);
        assert(xtimes(pzero(n), r) =~= pzero(n));
        assert(pscale(0, a) =~= pzero(n));
        assert(padd(pzero(n), pzero(n)) =~= pzero(n));
    }
}

proof fn lemma_horner_mono(a: Seq<nat>, r: Seq<nat>, n: nat, k: nat, j: nat)
    requires
        j <= k < n,
        a.len() == n,
        reduced(a),
    ensures
        horner(a, pmono(n, k as int), r, j) == pxpow(a, r, (k - j) as nat),
    decreases k - j,
{
    if j == k {
        if k + 1 < n {
            lemma_horner_mono_above(a, r, n, k as int, k + 1);
        }
        assert(horner(a, pmono(n, k as int), r, k + 1) == pzero(n));
        assert(xtimes(pzero(n), r) =~= pzero(n));
        assert forall|i: int| 0 <= i < n implies #[trigger] pscale(1, a)[i] == a[i] by {
            lemma_small_mod(a[i], 3);
        }
        assert(pscale(1, a) =~= a);
        lemma_padd_zero_right(a);
    } else {
        lemma_horner_mono(a, r, n, k, j + 1);
        assert(pscale(0, a) =~= pzero(n));
        let h = pxpow(a, r, (k - (j + 1)) as nat);
        lemma_pxpow_len(a, r, (k - (j + 1)) as nat);
        lemma_horner_len(xtimes(h, r), pmono(n, 0), r, 0);
        assert(reduced(xtimes(h, r)));
        lemma_padd_zero_right(xtimes(h, r));
        assert((k - j) as nat == ((k - (j + 1)) as nat + 1) as nat);
    }
}

/// Multiplying by the monomial `x^k` is multiplying by `x`, `k` times.
pub proof fn lemma_pmul_mono(a: Seq<nat>, r: Seq<nat>, k: nat)
    requires
        k < a.len(),
        reduced(a),
    ensures
        pmul(a, pmono(a.len(), k as int), r) == pxpow(a, r, k),
{
    lemma_horner_mono(a, r, a.len(), k, 0);
}

proof fn lemma_pxpow_one(n: nat, r: Seq<nat>, i: nat)
    requires
        i < n,
        r.len() == n,
    ensures
        pxpow(pmono(n, 0), r, i) == pmono(n, i as int),
    decreases i,
{
    if i > 0 {
        lemma_pxpow_one(n, r, (i - 1) as nat);
        assert forall|k: int| 0 <= k < n implies #[trigger] xtimes(pmono(n, i - 1), r)[k] == pmono(n, i as int)[k] by {
            assert(pmono(n, i - 1)[n - 1] == 0);
        }
        assert(xtimes(pmono(n, i - 1), r) =~= pmono(n, i as int));
    }
}

proof fn lemma_pxpow_add(a: Seq<nat>, r: Seq<nat>, i: nat, j: nat)
    ensures
        pxpow(pxpow(a, r, i), r, j) == pxpow(a, r, i + j),
    decreases j,
{
    if j > 0 {
        lemma_pxpow_add(a, r, i, (j - 1) as nat);
    }
}

proof fn lemma_pxpow_linear(u: Seq<nat>, v: Seq<nat>, s: nat, r: Seq<nat>, k: nat)
    requires
        u.len() == v.len(),
        u.len() > 0,
        r.len() == u.len(),
    ensures
        pxpow(padd(u, v), r, k) == padd(pxpow(u, r, k), pxpow(v, r, k)),
        pxpow(pscale(s, u), r, k) == pscale(s, pxpow(u, r, k)),
        pxpow(pzero(u.len()), r, k) == pzero(u.len()),
    decreases k,
{
    if k > 0 {
        let k1 = (k - 1) as nat;
        lemma_pxpow_linear(u, v, s, r, k1);
        lemma_pxpow_len(u, r, k1);
        lemma_pxpow_len(v, r, k1);
        lemma_xtimes_add(pxpow(u, r, k1), pxpow(v, r, k1), r);
        lemma_xtimes_scale(s, pxpow(u, r, k1), r);
        assert(xtimes(pzero(u.len()), r) =~= pzero(u.len()));
    }
}

proof fn lemma_pxpow_sum(f: spec_fn(int) -> Seq<nat>, r: Seq<nat>, n: nat, m: int, k: nat)
    requires
        n > 0,
        r.len() == n,
        forall|i: int| 0 <= i < m ==> (#[trigger] f(i)).len() == n,
    ensures
        pxpow(psum(f, n, m), r, k) == psum(|i: int| pxpow(f(i), r, k), n, m),
    decreases m,
{
    if m <= 0 {
        lemma_pxpow_linear(pzero(n), pzero(n), 0, r, k);
    } else {
        lemma_pxpow_sum(f, r, n, m - 1, k);
        lemma_psum_len(f, n, m - 1);
        lemma_pxpow_linear(psum(f, n, m - 1), f(m - 1), 0, r, k);
    }
}

/// The terms of the product of `a` and `b`: `a[i] b[j] x^(i + j)`, reduced.
pub open spec fn pprod_terms(a: Seq<nat>, b: Seq<nat>, r: Seq<nat>, n: nat) -> spec_fn(int, int) -> Seq<nat> {
    |i: int, j: int| pscale(a[i] * b[j], pxpow(pmono(n, 0), r, (i + j) as nat))
}

/// `x^i x^j` is `1` multiplied by `x`, `i + j` times.
proof fn lemma_pmul_monos(n: nat, r: Seq<nat>, i: int, j: int)
    requires
        0 <= i < n,
        0 <= j < n,
        r.len() == n,
    ensures
        pmul(pmono(n, i), pmono(n, j), r) == pxpow(pmono(n, 0), r, (i + j) as nat),
{
    lemma_pmul_mono(pmono(n, i), r, j as nat);
    lemma_pxpow_one(n, r, i as nat);
    lemma_pxpow_add(pmono(n, 0), r, i as nat, j as nat);
}

/// A product is the sum of `a[i] b[j] x^(i + j)`, reduced.
proof fn lemma_pmul_expand(a: Seq<nat>, b: Seq<nat>, r: Seq<nat>)
    requires
        a.len() > 0,
        b.len() == a.len(),
        r.len() == a.len(),
        reduced(a),
        reduced(b),
    ensures
        pmul(a, b, r) == psum(
            |i: int| psum(|j: int| pprod_terms(a, b, r, a.len())(i, j), a.len(), a.len() as int),
            a.len(),
            a.len() as int,
        ),
{
    let n = a.len();
    let g = pprod_terms(a, b, r, n);
    lemma_pdecomp(a, n as int);
    assert(Seq::new(n, |k: int| if k < n { a[k] } else { 0nat }) =~= a);
    lemma_pdecomp(b, n as int);
    assert(Seq::new(n, |k: int| if k < n { b[k] } else { 0nat }) =~= b);
    let ta = pterm(a, n);
    let tb = pterm(b, n);
    assert forall|i: int| 0 <= i < n implies (#[trigger] ta(i)).len() == n && tb(i).len() == n by {}
    lemma_pmul_sum_left(ta, b, r, n, n as int);
    let lhs_i = |i: int| pmul(ta(i), b, r);
    let rhs_i = |i: int| psum(|j: int| g(i, j), n, n as int);
    assert forall|i: int| 0 <= i < n implies #[trigger] lhs_i(i) == rhs_i(i) by {
        let xi = pmono(n, i);
        lemma_pmul_scale(a[i], xi, b, r);
        lemma_pmul_sum_right(xi, tb, r, n, n as int);
        let inner = |j: int| pmul(xi, tb(j), r);
        let scaled = |j: int| pscale(b[j], pxpow(pmono(n, 0), r, (i + j) as nat));
        assert forall|j: int| 0 <= j < n implies #[trigger] inner(j) == scaled(j) by {
            lemma_pmul_scale(b[j], xi, pmono(n, j), r);
            lemma_pmul_monos(n, r, i, j);
        }
        lemma_psum_congr(inner, scaled, n, n as int);
        assert forall|j: int| 0 <= j < n implies (#[trigger] scaled(j)).len() == n by {
            lemma_pxpow_len(pmono(n, 0), r, (i + j) as nat);
        }
        lemma_psum_scale(a[i], scaled, n, n as int);
        let sc2 = |j: int| pscale(a[i], scaled(j));
        let gi = |j: int| g(i, j);
        assert forall|j: int| 0 <= j < n implies #[trigger] sc2(j) == gi(j) by {
            lemma_pscale_pscale(a[i], b[j], pxpow(pmono(n, 0), r, (i + j) as nat));
        }
        lemma_psum_congr(sc2, gi, n, n as int);
    }
    lemma_psum_congr(lhs_i, rhs_i, n, n as int);
}

/// Multiplication is commutative: `a b = b a`, on reduced polynomials, for every
/// modulus.
pub proof fn lemma_pmul_commutative(a: Seq<nat>, b: Seq<nat>, r: Seq<nat>)
    requires
        a.len() > 0,
        b.len() == a.len(),
        r.len() == a.len(),
        reduced(a),
        reduced(b),
    ensures
        pmul(a, b, r) == pmul(b, a, r),
{
    let n = a.len();
    lemma_pmul_expand(a, b, r);
    lemma_pmul_expand(b, a, r);
    let g = pprod_terms(a, b, r, n);
    let h = pprod_terms(b, a, r, n);
    assert forall|i: int, j: int| 0 <= i < n && 0 <= j < n implies (#[trigger] g(i, j)).len() == n by {
        lemma_pxpow_len(pmono(n, 0), r, (i + j) as nat);
    }
    lemma_psum_exchange(g, n, n as int, n as int);
    let cols = |j: int| psum(|i: int| g(i, j), n, n as int);
    let hrows = |j: int| psum(|i: int| h(j, i), n, n as int);
    assert forall|j: int| 0 <= j < n implies #[trigger] cols(j) == hrows(j) by {
        let gi = |i: int| g(i, j);
        let hi = |i: int| h(j, i);
        assert forall|i: int| 0 <= i < n implies #[trigger] gi(i) == hi(i) by {
            assert((i + j) as nat == (j + i) as nat);
            assert(a[i] * b[j] == b[j] * a[i]) by (nonlinear_arith);
        }
        lemma_psum_congr(gi, hi, n, n as int);
    }
    lemma_psum_congr(cols, hrows, n, n as int);
}

/// A product, expanded over the second factor: `y c` is the sum of `c[k] y x^k`.
proof fn lemma_pmul_by_powers(y: Seq<nat>, c: Seq<nat>, r: Seq<nat>)
    requires
        y.len() > 0,
        c.len() == y.len(),
        r.len() == y.len(),
        reduced(y),
        reduced(c),
    ensures
        pmul(y, c, r) == psum(|k: int| pscale(c[k], pxpow(y, r, k as nat)), y.len(), y.len() as int),
{
    let n = y.len();
    lemma_pdecomp(c, n as int);
    assert(Seq::new(n, |k: int| if k < n { c[k] } else { 0nat }) =~= c);
    let tc = pterm(c, n);
    assert forall|k: int| 0 <= k < n implies (#[trigger] tc(k)).len() == n by {}
    lemma_pmul_sum_right(y, tc, r, n, n as int);
    let lhs = |k: int| pmul(y, tc(k), r);
    let rhs = |k: int| pscale(c[k], pxpow(y, r, k as nat));
    assert forall|k: int| 0 <= k < n implies #[trigger] lhs(k) == rhs(k) by {
        lemma_pmul_scale(c[k], y, pmono(n, k), r);
        lemma_pmul_mono(y, r, k as nat);
    }
    lemma_psum_congr(lhs, rhs, n, n as int);
}

/// The terms of the product of three factors: `a[i] b[j] c[k] x^(i + j + k)`, reduced.
pub open spec fn ptriple(a: Seq<nat>, b: Seq<nat>, c: Seq<nat>, r: Seq<nat>, n: nat, i: int, j: int, k: int) -> Seq<nat> {
    pscale(a[i] * b[j] * c[k], pxpow(pmono(n, 0), r, (i + j + k) as nat))
}

/// `s x^k (a b)` expanded into the terms `s a[i] b[j] x^(i + j + k)`.
proof fn lemma_pxpow_prod(a: Seq<nat>, b: Seq<nat>, r: Seq<nat>, k: nat, s: nat)
    requires
        a.len() > 0,
        b.len() == a.len(),
        r.len() == a.len(),
        reduced(a),
        reduced(b),
    ensures
        pscale(s, pxpow(pmul(a, b, r), r, k)) == psum(
            |i: int| psum(
                |j: int| pscale(s * (a[i] * b[j]), pxpow(pmono(a.len(), 0), r, (i + j + k) as nat)),
                a.len(),
                a.len() as int,
            ),
            a.len(),
            a.len() as int,
        ),
{
    let n = a.len();
    let g = pprod_terms(a, b, r, n);
    let rows = |i: int| psum(|j: int| g(i, j), n, n as int);
    lemma_pmul_expand(a, b, r);
    assert forall|i: int| 0 <= i < n implies (#[trigger] rows(i)).len() == n by {
        lemma_psum_len(|j: int| g(i, j), n, n as int);
    }
    lemma_pxpow_sum(rows, r, n, n as int, k);
    let prow = |i: int| pxpow(rows(i), r, k);
    assert forall|i: int| 0 <= i < n implies (#[trigger] prow(i)).len() == n by {
        lemma_pxpow_len(rows(i), r, k);
    }
    lemma_psum_scale(s, prow, n, n as int);
    let srow = |i: int| pscale(s, prow(i));
    let target = |i: int| psum(
        |j: int| pscale(s * (a[i] * b[j]), pxpow(pmono(n, 0), r, (i + j + k) as nat)),
        n,
        n as int,
    );
    assert forall|i: int| 0 <= i < n implies #[trigger] srow(i) == target(i) by {
        let gi = |j: int| g(i, j);
        assert forall|j: int| 0 <= j < n implies (#[trigger] gi(j)).len() == n by {
            lemma_pxpow_len(pmono(n, 0), r, (i + j) as nat);
        }
        lemma_pxpow_sum(gi, r, n, n as int, k);
        let pg = |j: int| pxpow(gi(j), r, k);
        assert forall|j: int| 0 <= j < n implies (#[trigger] pg(j)).len() == n by {
            lemma_pxpow_len(pmono(n, 0), r, (i + j) as nat);
            lemma_pxpow_len(gi(j), r, k);
        }
        lemma_psum_scale(s, pg, n, n as int);
        let spg = |j: int| pscale(s, pg(j));
        let tj = |j: int| pscale(s * (a[i] * b[j]), pxpow(pmono(n, 0), r, (i + j + k) as nat));
        assert forall|j: int| 0 <= j < n implies #[trigger] spg(j) == tj(j) by {
            let pij = pxpow(pmono(n, 0), r, (i + j) as nat);
            lemma_pxpow_len(pmono(n, 0), r, (i + j) as nat);
            lemma_pxpow_linear(pij, pij, a[i] * b[j], r, k);
            lemma_pxpow_add(pmono(n, 0), r, (i + j) as nat, k);
            lemma_pscale_pscale(s, a[i] * b[j], pxpow(pmono(n, 0), r, (i + j + k) as nat));
        }
        lemma_psum_congr(spg, tj, n, n as int);
    }
    lemma_psum_congr(srow, target, n, n as int);
}

/// Multiplication is associative: `(a b) c = a (b c)`, on reduced polynomials, for
/// every modulus.
pub proof fn lemma_pmul_associative(a: Seq<nat>, b: Seq<nat>, c: Seq<nat>, r: Seq<nat>)
    requires
        a.len() > 0,
        b.len() == a.len(),
        c.len() == a.len(),
        r.len() == a.len(),
        reduced(a),
        reduced(b),
        reduced(c),
    ensures
        pmul(pmul(a, b, r), c, r) == pmul(a, pmul(b, c, r), r),
{
    let n = a.len();
    let ab = pmul(a, b, r);
    let bc = pmul(b, c, r);
    lemma_horner_len(a, b, r, 0);
    lemma_horner_len(b, c, r, 0);
    assert forall|i: int, j: int, k: int| 0 <= i < n && 0 <= j < n && 0 <= k < n implies (#[trigger] ptriple(a, b, c, r, n, i, j, k)).len() == n by {
        lemma_pxpow_len(pmono(n, 0), r, (i + j + k) as nat);
    }
    // (a b) c = sum over k, i, j
    lemma_pmul_by_powers(ab, c, r);
    let lk = |k: int| pscale(c[k], pxpow(ab, r, k as nat));
    let l3 = |k: int| psum(|i: int| psum(|j: int| ptriple(a, b, c, r, n, i, j, k), n, n as int), n, n as int);
    assert forall|k: int| 0 <= k < n implies #[trigger] lk(k) == l3(k) by {
        lemma_pxpow_prod(a, b, r, k as nat, c[k]);
        let rows = |i: int| psum(
            |j: int| pscale(c[k] * (a[i] * b[j]), pxpow(pmono(n, 0), r, (i + j + k) as nat)),
            n,
            n as int,
        );
        let trows = |i: int| psum(|j: int| ptriple(a, b, c, r, n, i, j, k), n, n as int);
        assert forall|i: int| 0 <= i < n implies #[trigger] rows(i) == trows(i) by {
            let f1 = |j: int| pscale(c[k] * (a[i] * b[j]), pxpow(pmono(n, 0), r, (i + j + k) as nat));
            let f2 = |j: int| ptriple(a, b, c, r, n, i, j, k);
            assert forall|j: int| 0 <= j < n implies #[trigger] f1(j) == f2(j) by {
                assert(c[k] * (a[i] * b[j]) == a[i] * b[j] * c[k]) by (nonlinear_arith);
            }
            lemma_psum_congr(f1, f2, n, n as int);
        }
        lemma_psum_congr(rows, trows, n, n as int);
    }
    lemma_psum_congr(lk, l3, n, n as int);
    let g = |k: int, i: int| psum(|j: int| ptriple(a, b, c, r, n, i, j, k), n, n as int);
    assert forall|k: int, i: int| 0 <= k < n && 0 <= i < n implies (#[trigger] g(k, i)).len() == n by {
        lemma_psum_len(|j: int| ptriple(a, b, c, r, n, i, j, k), n, n as int);
    }
    lemma_psum_exchange(g, n, n as int, n as int);
    let l3g = |k: int| psum(|i: int| g(k, i), n, n as int);
    assert forall|k: int| 0 <= k < n implies #[trigger] l3(k) == l3g(k) by {
        let p1 = |i: int| psum(|j: int| ptriple(a, b, c, r, n, i, j, k), n, n as int);
        let p2 = |i: int| g(k, i);
        assert forall|i: int| 0 <= i < n implies #[trigger] p1(i) == p2(i) by {}
        lemma_psum_congr(p1, p2, n, n as int);
    }
    lemma_psum_congr(l3, l3g, n, n as int);
    let ik = |i: int| psum(|k: int| g(k, i), n, n as int);
    let ijk = |i: int| psum(|j: int| psum(|k: int| ptriple(a, b, c, r, n, i, j, k), n, n as int), n, n as int);
    assert forall|i: int| 0 <= i < n implies #[trigger] ik(i) == ijk(i) by {
        let gi = |k: int, j: int| ptriple(a, b, c, r, n, i, j, k);
        lemma_psum_exchange(gi, n, n as int, n as int);
        let x1 = |k: int| g(k, i);
        let x2 = |k: int| psum(|j: int| gi(k, j), n, n as int);
        assert forall|k: int| 0 <= k < n implies #[trigger] x1(k) == x2(k) by {
            let p1 = |j: int| ptriple(a, b, c, r, n, i, j, k);
            let p2 = |j: int| gi(k, j);
            assert forall|j: int| 0 <= j < n implies #[trigger] p1(j) == p2(j) by {}
            lemma_psum_congr(p1, p2, n, n as int);
        }
        lemma_psum_congr(x1, x2, n, n as int);
        let y1 = |j: int| psum(|k: int| gi(k, j), n, n as int);
        let y2 = |j: int| psum(|k: int| ptriple(a, b, c, r, n, i, j, k), n, n as int);
        assert forall|j: int| 0 <= j < n implies #[trigger] y1(j) == y2(j) by {
            let p1 = |k: int| gi(k, j);
            let p2 = |k: int| ptriple(a, b, c, r, n, i, j, k);
            assert forall|k: int| 0 <= k < n implies #[trigger] p1(k) == p2(k) by {}
            lemma_psum_congr(p1, p2, n, n as int);
        }
        lemma_psum_congr(y1, y2, n, n as int);
    }
    lemma_psum_congr(ik, ijk, n, n as int);
    // a (b c) = (b c) a = sum over i, j, k
    lemma_pmul_commutative(a, bc, r);
    lemma_pmul_by_powers(bc, a, r);
    let ri = |i: int| pscale(a[i], pxpow(bc, r, i as nat));
    assert forall|i: int| 0 <= i < n implies #[trigger] ri(i) == ijk(i) by {
        lemma_pxpow_prod(b, c, r, i as nat, a[i]);
        let rows = |j: int| psum(
            |k: int| pscale(a[i] * (b[j] * c[k]), pxpow(pmono(n, 0), r, (j + k + i) as nat)),
            n,
            n as int,
        );
        let trows = |j: int| psum(|k: int| ptriple(a, b, c, r, n, i, j, k), n, n as int);
        assert forall|j: int| 0 <= j < n implies #[trigger] rows(j) == trows(j) by {
            let f1 = |k: int| pscale(a[i] * (b[j] * c[k]), pxpow(pmono(n, 0), r, (j + k + i) as nat));
            let f2 = |k: int| ptriple(a, b, c, r, n, i, j, k);
            assert forall|k: int| 0 <= k < n implies #[trigger] f1(k) == f2(k) by {
                assert((j + k + i) as nat == (i + j + k) as nat);
                assert(a[i] * (b[j] * c[k]) == a[i] * b[j] * c[k]) by (nonlinear_arith);
            }
            lemma_psum_congr(f1, f2, n, n as int);
        }
        lemma_psum_congr(rows, trows, n, n as int);
    }
    lemma_psum_congr(ri, ijk, n, n as int);
    assert(pmul(ab, c, r) == psum(lk, n, n as int));
    assert(psum(l3g, n, n as int) == psum(ik, n, n as int));
    assert(pmul(a, bc, r) == psum(ri, n, n as int));
}

/// `a^e` modulo `x^n - r`, one factor at a time: `a^e = a^(e-1) * a`.
pub open spec fn fpow(a: Seq<nat>, e: nat, r: Seq<nat>) -> Seq<nat>
    decreases e,
{
    if e == 0 {
        pone(a.len())
    } else {
        pmul(fpow(a, (e - 1) as nat, r), a, r)
    }
}

/// One is the identity of multiplication, on either side.
pub proof fn lemma_pmul_one(a: Seq<nat>, r: Seq<nat>)
    requires
        a.len() > 0,
        r.len() == a.len(),
        reduced(a),
    ensures
        pmul(a, pone(a.len()), r) == a,
        pmul(pone(a.len()), a, r) == a,
{
    assert(pone(a.len()) =~= pmono(a.len(), 0));
    lemma_pmul_mono(a, r, 0);
    lemma_pmul_commutative(a, pone(a.len()), r);
}

/// A power has the length of its base and reduced coefficients.
pub proof fn lemma_fpow_shape(a: Seq<nat>, e: nat, r: Seq<nat>)
    ensures
        fpow(a, e, r).len() == a.len(),
        reduced(fpow(a, e, r)),
    decreases e,
{
    if e > 0 {
        lemma_fpow_shape(a, (e - 1) as nat, r);
        lemma_horner_len(fpow(a, (e - 1) as nat, r), a, r, 0);
    }
}

/// `a^m * a^n = a^(m + n)`.
pub proof fn lemma_fpow_add(a: Seq<nat>, m: nat, n: nat, r: Seq<nat>)
    requires
        a.len() > 0,
        r.len() == a.len(),
        reduced(a),
    ensures
        pmul(fpow(a, m, r), fpow(a, n, r), r) == fpow(a, m + n, r),
    decreases n,
{
    lemma_fpow_shape(a, m, r);
    if n == 0 {
        lemma_pmul_one(fpow(a, m, r), r);
    } else {
        let n1 = (n - 1) as nat;
        lemma_fpow_shape(a, n1, r);
        lemma_pmul_associative(fpow(a, m, r), fpow(a, n1, r), a, r);
        lemma_fpow_add(a, m, n1, r);
        assert(fpow(a, m + n, r) == pmul(fpow(a, (m + n1) as nat, r), a, r));
    }
}

/// Square-and-multiply computes the power: `ppow(a, e) = a^e`.
pub proof fn lemma_ppow_fpow(a: Seq<nat>, e: nat, r: Seq<nat>)
    requires
        a.len() > 0,
        r.len() == a.len(),
        reduced(a),
    ensures
        ppow(a, e, r) == fpow(a, e, r),
    decreases e,
{
    if e > 0 {
        let h = e / 2;
        lemma_ppow_fpow(a, h, r);
        lemma_fpow_add(a, h, h, r);
        if e % 2 == 1 {
            assert(fpow(a, e, r) == pmul(fpow(a, (h + h) as nat, r), a, r));
        } else {
            assert(e == h + h);
        }
    }
}

/// `(a^m)^n = a^(m n)`.
pub proof fn lemma_fpow_mul(a: Seq<nat>, m: nat, n: nat, r: Seq<nat>)
    requires
        a.len() > 0,
        r.len() == a.len(),
        reduced(a),
    ensures
        fpow(fpow(a, m, r), n, r) == fpow(a, m * n, r),
    decreases n,
{
    lemma_fpow_shape(a, m, r);
    if n == 0 {
        assert(m * n == 0) by (nonlinear_arith)
            requires
                n == 0,
        ;
    } else {
        let n1 = (n - 1) as nat;
        lemma_fpow_mul(a, m, n1, r);
        lemma_fpow_add(a, m * n1, m, r);
        assert(m * n1 + m == m * n) by (nonlinear_arith)
            requires
                n1 + 1 == n,
        ;
    }
}

} // verus!
