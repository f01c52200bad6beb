//! Polynomials over GF(2), as bit sequences, and arithmetic modulo a monic polynomial
//! `x^n + r(x)`, where `r` has degree below `n`.
use vstd::prelude::*;

verus! {

/// The zero polynomial with `n` coefficients.
pub open spec fn bzero(n: nat) -> Seq<bool> {
    Seq::new(n, |i: int| false)
}

/// The monomial `x^k` with `n` coefficients.
pub open spec fn bmono(n: nat, k: int) -> Seq<bool> {
    Seq::new(n, |i: int| i == k)
}

/// Coefficient-wise sum, which is exclusive or.
pub open spec fn badd(a: Seq<bool>, b: Seq<bool>) -> Seq<bool> {
    Seq::new(a.len(), |i: int| a[i] != b[i])
}

/// Multiplication by `x`, where `x^n` is replaced by `r`.
pub open spec fn bxtimes(a: Seq<bool>, r: Seq<bool>) -> Seq<bool> {
    Seq::new(
        a.len(),
        |i: int| (if i == 0 { false } else { a[i - 1] }) != (a[a.len() - 1] && r[i]),
    )
}

/// Multiplication by `x^k`.
pub open spec fn bxpow(a: Seq<bool>, r: Seq<bool>, k: nat) -> Seq<bool>
    decreases k,
{
    if k == 0 {
        a
    } else {
        bxtimes(bxpow(a, r, (k - 1) as nat), r)
    }
}

/// `a * (b_k + b_{k+1} x + ...)` by Horner's rule from the highest coefficient of `b`.
pub open spec fn bhorner(a: Seq<bool>, b: Seq<bool>, r: Seq<bool>, k: nat) -> Seq<bool>
    decreases b.len() - k,
{
    if k >= b.len() {
        bzero(a.len())
    } else {
        let acc = bxtimes(bhorner(a, b, r, k + 1), r);
        if b[k as int] {
            badd(acc, a)
        } else {
            acc
        }
    }
}

/// The product of `a` and `b` modulo `x^n + r`.
pub open spec fn bmul(a: Seq<bool>, b: Seq<bool>, r: Seq<bool>) -> Seq<bool> {
    bhorner(a, b, r, 0)
}

proof fn lemma_bhorner_mono_above(a: Seq<bool>, r: Seq<bool>, n: nat, k: int, j: nat)
    requires
        0 <= k < j <= n,
        a.len() == n,
        n > 0,
    ensures
        bhorner(a, bmono(n, k), r, j) == bzero(n),
    decreases n - j,
{
    if j < n {
        lemma_bhorner_mono_above(a, r, n, k, j + 1);
        assert(bxtimes(bzero(n), r) =~= bzero(n));
    }
}

proof fn lemma_bhorner_mono(a: Seq<bool>, r: Seq<bool>, n: nat, k: nat, j: nat)
    requires
        j <= k < n,
        a.len() == n,
    ensures
        bhorner(a, bmono(n, k as int), r, j) == bxpow(a, r, (k - j) as nat),
    decreases k - j,
{
    if j == k {
        if k + 1 <= n {
            if k + 1 < n {
                lemma_bhorner_mono_above(a, r, n, k as int, k + 1);
            }
            assert(bhorner(a, bmono(n, k as int), r, k + 1) == bzero(n));
        }
        assert(bxtimes(bzero(n), r) =~= bzero(n));
        assert(badd(bzero(n), a) =~= a);
    } else {
        lemma_bhorner_mono(a, r, n, k, j + 1);
        assert(!bmono(n, k as int)[j as int]);
        assert((k - j) as nat == ((k - (j + 1)) as nat + 1) as nat);
    }
}

/// Multiplying by the monomial `x^k` is multiplying by `x`, `k` times.
pub proof fn lemma_bmul_mono(a: Seq<bool>, r: Seq<bool>, k: nat)
    requires
        k < a.len(),
    ensures
        bmul(a, bmono(a.len(), k as int), r) == bxpow(a, r, k),
{
    lemma_bhorner_mono(a, r, a.len(), k, 0);
}


/// Coefficient sums form an abelian group of characteristic two: addition is
/// commutative and associative, zero is neutral, and every polynomial is its own
/// negative.
pub proof fn lemma_badd_group(a: Seq<bool>, b: Seq<bool>, c: Seq<bool>)
    requires
        a.len() == b.len(),
        b.len() == c.len(),
    ensures
        badd(a, b) == badd(b, a),
        badd(badd(a, b), c) == badd(a, badd(b, c)),
        badd(a, bzero(a.len())) == a,
        badd(a, a) == bzero(a.len()),
{
    assert(badd(a, b) =~= badd(b, a));
    assert(badd(badd(a, b), c) =~= badd(a, badd(b, c)));
    assert(badd(a, bzero(a.len())) =~= a);
    assert(badd(a, a) =~= bzero(a.len()));
}

proof fn lemma_bhorner_distributes(a: Seq<bool>, b: Seq<bool>, c: Seq<bool>, r: Seq<bool>, k: nat)
    requires
        a.len() > 0,
        r.len() == a.len(),
        b.len() == c.len(),
    ensures
        bhorner(a, badd(b, c), r, k) == badd(bhorner(a, b, r, k), bhorner(a, c, r, k)),
        bhorner(a, b, r, k).len() == a.len(),
    decreases b.len() - k,
{
    let n = a.len();
    if k >= b.len() {
        assert(badd(bzero(n), bzero(n)) =~= bzero(n));
    } else {
        lemma_bhorner_distributes(a, b, c, r, k + 1);
        lemma_bhorner_distributes(a, c, b, r, k + 1);
        let hb = bhorner(a, b, r, k + 1);
        let hc = bhorner(a, c, r, k + 1);
        assert(bxtimes(badd(hb, hc), r) =~= badd(bxtimes(hb, r), bxtimes(hc, r)));
        let lhs = bhorner(a, badd(b, c), r, k);
        let rhs = badd(bhorner(a, b, r, k), bhorner(a, c, r, k));
        assert(lhs =~= rhs);
    }
}

/// Multiplication distributes over addition: `a (b + c) = a b + a c`, for every
/// modulus.
pub proof fn lemma_bmul_distributes(a: Seq<bool>, b: Seq<bool>, c: Seq<bool>, r: Seq<bool>)
    requires
        a.len() > 0,
        r.len() == a.len(),
        b.len() == c.len(),
    ensures
        bmul(a, badd(b, c), r) == badd(bmul(a, b, r), bmul(a, c, r)),
{
    lemma_bhorner_distributes(a, b, c, r, 0);
}

proof fn lemma_bhorner_distributes_left(a: Seq<bool>, c: Seq<bool>, b: Seq<bool>, r: Seq<bool>, k: nat)
    requires
        a.len() > 0,
        r.len() == a.len(),
        c.len() == a.len(),
    ensures
        bhorner(badd(a, c), b, r, k) == badd(bhorner(a, b, r, k), bhorner(c, b, r, k)),
        bhorner(a, b, r, k).len() == a.len(),
        bhorner(c, b, r, k).len() == a.len(),
    decreases b.len() - k,
{
    let n = a.len();
    if k >= b.len() {
        assert(badd(bzero(n), bzero(n)) =~= bzero(n));
    } else {
        lemma_bhorner_distributes_left(a, c, b, r, k + 1);
        let ha = bhorner(a, b, r, k + 1);
        let hc = bhorner(c, b, r, k + 1);
        assert(bxtimes(badd(ha, hc), r) =~= badd(bxtimes(ha, r), bxtimes(hc, r)));
        let lhs = bhorner(badd(a, c), b, r, k);
        let rhs = badd(bhorner(a, b, r, k), bhorner(c, b, r, k));
        assert(lhs =~= rhs);
    }
}

/// Multiplication distributes over addition in the first factor too:
/// `(a + c) b = a b + c b`, for every modulus.
pub proof fn lemma_bmul_distributes_left(a: Seq<bool>, c: Seq<bool>, b: Seq<bool>, r: Seq<bool>)
    requires
        a.len() > 0,
        r.len() == a.len(),
        c.len() == a.len(),
    ensures
        bmul(badd(a, c), b, r) == badd(bmul(a, b, r), bmul(c, b, r)),
{
    lemma_bhorner_distributes_left(a, c, b, r, 0);
}

proof fn lemma_bhorner_zero(a: Seq<bool>, b: Seq<bool>, r: Seq<bool>, k: nat)
    requires
        a.len() == r.len(),
        (forall|i: int| 0 <= i < b.len() ==> !b[i]) || a == bzero(a.len()),
    ensures
        bhorner(a, b, r, k) == bzero(a.len()),
    decreases b.len() - k,
{
    if k < b.len() {
        lemma_bhorner_zero(a, b, r, k + 1);
        assert(bxtimes(bzero(a.len()), r) =~= bzero(a.len()));
        if b[k as int] {
            assert(badd(bzero(a.len()), a) =~= bzero(a.len()));
        }
    }
}

proof fn lemma_bhorner_len(a: Seq<bool>, b: Seq<bool>, r: Seq<bool>, k: nat)
    ensures
        bhorner(a, b, r, k).len() == a.len(),
    decreases b.len() - k,
{
    if k < b.len() {
        lemma_bhorner_len(a, b, r, k + 1);
    }
}

/// A product has as many coefficients as its first factor.
pub proof fn lemma_bmul_len(a: Seq<bool>, b: Seq<bool>, r: Seq<bool>)
    ensures
        bmul(a, b, r).len() == a.len(),
{
    lemma_bhorner_len(a, b, r, 0);
}

/// Zero times anything, and anything times zero, is zero; one is neutral on the right.
pub proof fn lemma_bmul_zero_one(a: Seq<bool>, b: Seq<bool>, r: Seq<bool>)
    requires
        a.len() > 0,
        a.len() == r.len(),
    ensures
        bmul(a, bzero(b.len()), r) == bzero(a.len()),
        bmul(bzero(a.len()), b, r) == bzero(a.len()),
        bmul(a, bmono(a.len(), 0), r) == a,
{
    lemma_bhorner_zero(a, bzero(b.len()), r, 0);
    lemma_bhorner_zero(bzero(a.len()), b, r, 0);
    lemma_bmul_mono(a, r, 0);
}


/// `f(0) + f(1) + ... + f(m - 1)`, polynomials with `n` coefficients.
pub open spec fn bsum(f: spec_fn(int) -> Seq<bool>, n: nat, m: int) -> Seq<bool>
    decreases m,
{
    if m <= 0 {
        bzero(n)
    } else {
        badd(bsum(f, n, m - 1), f(m - 1))
    }
}

proof fn lemma_bsum_len(f: spec_fn(int) -> Seq<bool>, n: nat, m: int)
    ensures
        bsum(f, n, m).len() == n,
    decreases m,
{
    if m > 0 {
        lemma_bsum_len(f, n, m - 1);
    }
}

proof fn lemma_bsum_congr(f: spec_fn(int) -> Seq<bool>, g: spec_fn(int) -> Seq<bool>, n: nat, m: int)
    requires
        forall|i: int| 0 <= i < m ==> #[trigger] f(i) == g(i),
    ensures
        bsum(f, n, m) == bsum(g, n, m),
    decreases m,
{
    if m > 0 {
        lemma_bsum_congr(f, g, n, m - 1);
    }
}

proof fn lemma_bsum_zero(n: nat, m: int)
    ensures
        bsum(|i: int| bzero(n), n, m) == bzero(n),
    decreases m,
{
    if m > 0 {
        lemma_bsum_zero(n, m - 1);
        assert(badd(bzero(n), bzero(n)) =~= bzero(n));
    }
}

proof fn lemma_bsum_add(f: spec_fn(int) -> Seq<bool>, g: spec_fn(int) -> Seq<bool>, n: nat, m: int)
    requires
        forall|i: int| 0 <= i < m ==> (#[trigger] f(i)).len() == n && g(i).len() == n,
    ensures
        bsum(|i: int| badd(f(i), g(i)), n, m) == badd(bsum(f, n, m), bsum(g, n, m)),
    decreases m,
{
    if m <= 0 {
        assert(badd(bzero(n), bzero(n)) =~= bzero(n));
    } else {
        lemma_bsum_add(f, g, n, m - 1);
        lemma_bsum_len(f, n, m - 1);
        lemma_bsum_len(g, n, m - 1);
        let h = |i: int| badd(f(i), g(i));
        assert(bsum(h, n, m) == badd(bsum(h, n, m - 1), h(m - 1)));
        assert(f(m - 1).len() == n && g(m - 1).len() == n);
        assert(bsum(h, n, m) =~= badd(bsum(f, n, m), bsum(g, n, m)));
    }
}

proof fn lemma_bsum_exchange(g: spec_fn(int, int) -> Seq<bool>, n: nat, m1: int, m2: int)
    requires
        0 <= m2,
        forall|i: int, j: int| 0 <= i < m1 && 0 <= j < m2 ==> (#[trigger] g(i, j)).len() == n,
    ensures
        bsum(|i: int| bsum(|j: int| g(i, j), n, m2), n, m1) == bsum(
            |j: int| bsum(|i: int| g(i, j), n, m1),
            n,
            m2,
        ),
    decreases m1,
{
    let rows = |i: int| bsum(|j: int| g(i, j), n, m2);
    let cols = |j: int| bsum(|i: int| g(i, j), n, m1);
    if m1 <= 0 {
        let zf = |j: int| bzero(n);
        assert forall|j: int| 0 <= j < m2 implies #[trigger] cols(j) == zf(j) by {}
        lemma_bsum_congr(cols, zf, n, m2);
        lemma_bsum_zero(n, m2);
    } else {
        lemma_bsum_exchange(g, n, m1 - 1, m2);
        let inner_prev = |j: int| bsum(|i: int| g(i, j), n, m1 - 1);
        let last = |j: int| g(m1 - 1, j);
        let both = |j: int| badd(inner_prev(j), last(j));
        assert forall|j: int| 0 <= j < m2 implies (#[trigger] inner_prev(j)).len() == n && last(j).len() == n by {
            lemma_bsum_len(|i: int| g(i, j), n, m1 - 1);
        }
        lemma_bsum_add(inner_prev, last, n, m2);
        assert forall|j: int| 0 <= j < m2 implies #[trigger] cols(j) == both(j) by {}
        lemma_bsum_congr(cols, both, n, m2);
        assert(bsum(rows, n, m1) == badd(bsum(rows, n, m1 - 1), rows(m1 - 1)));
    }
}

/// Multiplication distributes over a sum in the first factor.
proof fn lemma_bmul_sum_left(f: spec_fn(int) -> Seq<bool>, b: Seq<bool>, r: Seq<bool>, n: nat, m: int)
    requires
        n > 0,
        r.len() == n,
        forall|i: int| 0 <= i < m ==> (#[trigger] f(i)).len() == n,
    ensures
        bmul(bsum(f, n, m), b, r) == bsum(|i: int| bmul(f(i), b, r), n, m),
    decreases m,
{
    if m <= 0 {
        lemma_bmul_zero_one(bzero(n), b, r);
    } else {
        lemma_bmul_sum_left(f, b, r, n, m - 1);
        lemma_bsum_len(f, n, m - 1);
        lemma_bmul_distributes_left(bsum(f, n, m - 1), f(m - 1), b, r);
    }
}

/// Multiplication distributes over a sum in the second factor.
proof fn lemma_bmul_sum_right(c: Seq<bool>, f: spec_fn(int) -> Seq<bool>, r: Seq<bool>, n: nat, m: int)
    requires
        n > 0,
        c.len() == n,
        r.len() == n,
        forall|i: int| 0 <= i < m ==> (#[trigger] f(i)).len() == n,
    ensures
        bmul(c, bsum(f, n, m), r) == bsum(|j: int| bmul(c, f(j), r), n, m),
    decreases m,
{
    if m <= 0 {
        lemma_bmul_zero_one(c, bzero(n), r);
    } else {
        lemma_bmul_sum_right(c, f, r, n, m - 1);
        lemma_bsum_len(f, n, m - 1);
        lemma_bmul_distributes(c, bsum(f, n, m - 1), f(m - 1), r);
    }
}

/// The monomial terms of `a`: `x^i` where `a[i]` is set, zero elsewhere.
pub open spec fn bterm(a: Seq<bool>, n: nat) -> spec_fn(int) -> Seq<bool> {
    |i: int| if a[i] { bmono(n, i) } else { bzero(n) }
}

/// A polynomial is the sum of its monomial terms.
proof fn lemma_bdecomp(a: Seq<bool>, m: int)
    requires
        0 <= m <= a.len(),
    ensures
        bsum(bterm(a, a.len()), a.len(), m) == Seq::new(a.len(), |k: int| k < m && a[k]),
    decreases m,
{
    let n = a.len();
    if m == 0 {
        assert(bzero(n) =~= Seq::new(n, |k: int| k < m && a[k]));
    } else {
        lemma_bdecomp(a, m - 1);
        assert(bsum(bterm(a, n), n, m) =~= Seq::new(n, |k: int| k < m && a[k]));
    }
}

/// `x^i` is `1` multiplied by `x`, `i` times, below the top degree.
proof fn lemma_xpow_one(n: nat, r: Seq<bool>, i: nat)
    requires
        i < n,
        r.len() == n,
    ensures
        bxpow(bmono(n, 0), r, i) == bmono(n, i as int),
    decreases i,
{
    if i > 0 {
        lemma_xpow_one(n, r, (i - 1) as nat);
        assert(bxtimes(bmono(n, i - 1), r) =~= bmono(n, i as int));
    }
}

/// Multiplying by `x` `i` times and then `j` times is multiplying `i + j` times.
proof fn lemma_bxpow_add(a: Seq<bool>, r: Seq<bool>, i: nat, j: nat)
    ensures
        bxpow(bxpow(a, r, i), r, j) == bxpow(a, r, i + j),
    decreases j,
{
    if j > 0 {
        lemma_bxpow_add(a, r, i, (j - 1) as nat);
    }
}

/// The product of `x^i` and `x^j` is `1` multiplied by `x`, `i + j` times.
proof fn lemma_bmul_monos(n: nat, r: Seq<bool>, i: int, j: int)
    requires
        0 <= i < n,
        0 <= j < n,
        r.len() == n,
    ensures
        bmul(bmono(n, i), bmono(n, j), r) == bxpow(bmono(n, 0), r, (i + j) as nat),
{
    lemma_bmul_mono(bmono(n, i), r, j as nat);
    lemma_xpow_one(n, r, i as nat);
    lemma_bxpow_add(bmono(n, 0), r, i as nat, j as nat);
}

/// The terms of the product of `a` and `b`: `x^(i + j)`, reduced, where `a[i]` and `b[j]`
/// are set.
pub open spec fn bprod_terms(a: Seq<bool>, b: Seq<bool>, r: Seq<bool>, n: nat) -> spec_fn(int, int) -> Seq<bool> {
    |i: int, j: int|
        if a[i] && b[j] {
            bxpow(bmono(n, 0), r, (i + j) as nat)
        } else {
            bzero(n)
        }
}

proof fn lemma_bxpow_len(a: Seq<bool>, r: Seq<bool>, k: nat)
    ensures
        bxpow(a, r, k).len() == a.len(),
    decreases k,
{
    if k > 0 {
        lemma_bxpow_len(a, r, (k - 1) as nat);
    }
}

/// A product is the sum, over the set coefficients of both factors, of the reduced
/// monomials `x^(i + j)`.
proof fn lemma_bmul_expand(a: Seq<bool>, b: Seq<bool>, r: Seq<bool>)
    requires
        a.len() > 0,
        b.len() == a.len(),
        r.len() == a.len(),
    ensures
        bmul(a, b, r) == bsum(
            |i: int| bsum(|j: int| bprod_terms(a, b, r, a.len())(i, j), a.len(), a.len() as int),
            a.len(),
            a.len() as int,
        ),
{
    let n = a.len();
    let g = bprod_terms(a, b, r, n);
    lemma_bdecomp(a, n as int);
    assert(Seq::new(n, |k: int| k < n && a[k]) =~= a);
    lemma_bdecomp(b, n as int);
    assert(Seq::new(n, |k: int| k < n && b[k]) =~= b);
    let ta = bterm(a, n);
    let tb = bterm(b, n);
    assert forall|i: int| 0 <= i < n implies (#[trigger] ta(i)).len() == n && tb(i).len() == n by {}
    lemma_bmul_sum_left(ta, b, r, n, n as int);
    let lhs_i = |i: int| bmul(ta(i), b, r);
    let rhs_i = |i: int| bsum(|j: int| g(i, j), n, n as int);
    assert forall|i: int| 0 <= i < n implies #[trigger] lhs_i(i) == rhs_i(i) by {
        if a[i] {
            lemma_bmul_sum_right(bmono(n, i), tb, r, n, n as int);
            let inner = |j: int| bmul(bmono(n, i), tb(j), r);
            let target = |j: int| g(i, j);
            assert forall|j: int| 0 <= j < n implies #[trigger] inner(j) == target(j) by {
                if b[j] {
                    lemma_bmul_monos(n, r, i, j);
                } else {
                    lemma_bmul_zero_one(bmono(n, i), bzero(n), r);
                }
            }
            lemma_bsum_congr(inner, target, n, n as int);
        } else {
            lemma_bmul_zero_one(bzero(n), b, r);
            let target = |j: int| g(i, j);
            let zf = |j: int| bzero(n);
            assert forall|j: int| 0 <= j < n implies #[trigger] target(j) == zf(j) by {}
            lemma_bsum_congr(target, zf, n, n as int);
            lemma_bsum_zero(n, n as int);
        }
    }
    lemma_bsum_congr(lhs_i, rhs_i, n, n as int);
}

/// Multiplication is commutative: `a b = b a`, for every modulus.
pub proof fn lemma_bmul_commutative(a: Seq<bool>, b: Seq<bool>, r: Seq<bool>)
    requires
        a.len() > 0,
        b.len() == a.len(),
        r.len() == a.len(),
    ensures
        bmul(a, b, r) == bmul(b, a, r),
{
    let n = a.len();
    lemma_bmul_expand(a, b, r);
    lemma_bmul_expand(b, a, r);
    let g = bprod_terms(a, b, r, n);
    let h = bprod_terms(b, a, r, n);
    assert forall|i: int, j: int| 0 <= i < n && 0 <= j < n implies (#[trigger] g(i, j)).len() == n by {
        lemma_bxpow_len(bmono(n, 0), r, (i + j) as nat);
    }
    lemma_bsum_exchange(g, n, n as int, n as int);
    let cols = |j: int| bsum(|i: int| g(i, j), n, n as int);
    let hrows = |j: int| bsum(|i: int| h(j, i), n, n as int);
    assert forall|j: int| 0 <= j < n implies #[trigger] cols(j) == hrows(j) by {
        let gi = |i: int| g(i, j);
        let hi = |i: int| h(j, i);
        assert forall|i: int| 0 <= i < n implies #[trigger] gi(i) == hi(i) by {
            assert((i + j) as nat == (j + i) as nat);
        }
        lemma_bsum_congr(gi, hi, n, n as int);
    }
    lemma_bsum_congr(cols, hrows, n, n as int);
}

proof fn lemma_bxpow_linear(u: Seq<bool>, v: Seq<bool>, r: Seq<bool>, k: nat)
    requires
        u.len() == v.len(),
        u.len() > 0,
    ensures
        bxpow(badd(u, v), r, k) == badd(bxpow(u, r, k), bxpow(v, r, k)),
        bxpow(bzero(u.len()), r, k) == bzero(u.len()),
    decreases k,
{
    if k > 0 {
        lemma_bxpow_linear(u, v, r, (k - 1) as nat);
        let pu = bxpow(u, r, (k - 1) as nat);
        let pv = bxpow(v, r, (k - 1) as nat);
        lemma_bxpow_len(u, r, (k - 1) as nat);
        lemma_bxpow_len(v, r, (k - 1) as nat);
        assert(bxtimes(badd(pu, pv), r) =~= badd(bxtimes(pu, r), bxtimes(pv, r)));
        assert(bxtimes(bzero(u.len()), r) =~= bzero(u.len()));
    }
}

proof fn lemma_bxpow_sum(f: spec_fn(int) -> Seq<bool>, r: Seq<bool>, n: nat, m: int, k: nat)
    requires
        n > 0,
        forall|i: int| 0 <= i < m ==> (#[trigger] f(i)).len() == n,
    ensures
        bxpow(bsum(f, n, m), r, k) == bsum(|i: int| bxpow(f(i), r, k), n, m),
    decreases m,
{
    if m <= 0 {
        lemma_bxpow_linear(bzero(n), bzero(n), r, k);
    } else {
        lemma_bxpow_sum(f, r, n, m - 1, k);
        lemma_bsum_len(f, n, m - 1);
        lemma_bxpow_linear(bsum(f, n, m - 1), f(m - 1), r, k);
    }
}

/// A product, expanded over the second factor: `y c` is the sum of `y x^k` over the
/// set coefficients `c[k]`.
proof fn lemma_bmul_by_powers(y: Seq<bool>, c: Seq<bool>, r: Seq<bool>)
    requires
        y.len() > 0,
        c.len() == y.len(),
        r.len() == y.len(),
    ensures
        bmul(y, c, r) == bsum(
            |k: int| if c[k] { bxpow(y, r, k as nat) } else { bzero(y.len()) },
            y.len(),
            y.len() as int,
        ),
{
    let n = y.len();
    lemma_bdecomp(c, n as int);
    assert(Seq::new(n, |k: int| k < n && c[k]) =~= c);
    let tc = bterm(c, n);
    assert forall|k: int| 0 <= k < n implies (#[trigger] tc(k)).len() == n by {}
    lemma_bmul_sum_right(y, tc, r, n, n as int);
    let lhs = |k: int| bmul(y, tc(k), r);
    let rhs = |k: int| if c[k] { bxpow(y, r, k as nat) } else { bzero(n) };
    assert forall|k: int| 0 <= k < n implies #[trigger] lhs(k) == rhs(k) by {
        if c[k] {
            lemma_bmul_mono(y, r, k as nat);
        } else {
            lemma_bmul_zero_one(y, bzero(n), r);
        }
    }
    lemma_bsum_congr(lhs, rhs, n, n as int);
}

/// The terms of the product of three factors: `x^(i + j + k)`, reduced, where `a[i]`,
/// `b[j]` and `c[k]` are set.
pub open spec fn btriple(a: Seq<bool>, b: Seq<bool>, c: Seq<bool>, r: Seq<bool>, n: nat, i: int, j: int, k: int) -> Seq<bool> {
    if a[i] && b[j] && c[k] {
        bxpow(bmono(n, 0), r, (i + j + k) as nat)
    } else {
        bzero(n)
    }
}

/// `(a b) c` expanded, and `bxpow` of a product expanded.
proof fn lemma_bxpow_prod(a: Seq<bool>, b: Seq<bool>, r: Seq<bool>, k: nat, ck: bool)
    requires
        a.len() > 0,
        b.len() == a.len(),
        r.len() == a.len(),
    ensures
        (if ck { bxpow(bmul(a, b, r), r, k) } else { bzero(a.len()) }) == bsum(
            |i: int| bsum(
                |j: int| if a[i] && b[j] && ck { bxpow(bmono(a.len(), 0), r, (i + j + k) as nat) } else { bzero(a.len()) },
                a.len(),
                a.len() as int,
            ),
            a.len(),
            a.len() as int,
        ),
{
    let n = a.len();
    let g = bprod_terms(a, b, r, n);
    let rows = |i: int| bsum(|j: int| g(i, j), n, n as int);
    let target = |i: int| bsum(
        |j: int| if a[i] && b[j] && ck { bxpow(bmono(n, 0), r, (i + j + k) as nat) } else { bzero(n) },
        n,
        n as int,
    );
    lemma_bmul_expand(a, b, r);
    assert forall|i: int| 0 <= i < n implies (#[trigger] rows(i)).len() == n by {
        lemma_bsum_len(|j: int| g(i, j), n, n as int);
    }
    if ck {
        lemma_bxpow_sum(rows, r, n, n as int, k);
        let prow = |i: int| bxpow(rows(i), r, k);
        assert forall|i: int| 0 <= i < n implies #[trigger] prow(i) == target(i) by {
            let gi = |j: int| g(i, j);
            assert forall|j: int| 0 <= j < n implies (#[trigger] gi(j)).len() == n by {
                lemma_bxpow_len(bmono(n, 0), r, (i + j) as nat);
            }
            lemma_bxpow_sum(gi, r, n, n as int, k);
            let pg = |j: int| bxpow(gi(j), r, k);
            let tj = |j: int| if a[i] && b[j] && ck { bxpow(bmono(n, 0), r, (i + j + k) as nat) } else { bzero(n) };
            assert forall|j: int| 0 <= j < n implies #[trigger] pg(j) == tj(j) by {
                if a[i] && b[j] {
                    lemma_bxpow_add(bmono(n, 0), r, (i + j) as nat, k);
                } else {
                    lemma_bxpow_linear(bzero(n), bzero(n), r, k);
                }
            }
            lemma_bsum_congr(pg, tj, n, n as int);
        }
        lemma_bsum_congr(prow, target, n, n as int);
    } else {
        let zf = |i: int| bzero(n);
        assert forall|i: int| 0 <= i < n implies #[trigger] target(i) == zf(i) by {
            let tj = |j: int| if a[i] && b[j] && ck { bxpow(bmono(n, 0), r, (i + j + k) as nat) } else { bzero(n) };
            let zj = |j: int| bzero(n);
            assert forall|j: int| 0 <= j < n implies #[trigger] tj(j) == zj(j) by {}
            lemma_bsum_congr(tj, zj, n, n as int);
            lemma_bsum_zero(n, n as int);
        }
        lemma_bsum_congr(target, zf, n, n as int);
        lemma_bsum_zero(n, n as int);
    }
}

/// Multiplication is associative: `(a b) c = a (b c)`, for every modulus.
pub proof fn lemma_bmul_associative(a: Seq<bool>, b: Seq<bool>, c: Seq<bool>, r: Seq<bool>)
    requires
        a.len() > 0,
        b.len() == a.len(),
        c.len() == a.len(),
        r.len() == a.len(),
    ensures
        bmul(bmul(a, b, r), c, r) == bmul(a, bmul(b, c, r), r),
{
    let n = a.len();
    let ab = bmul(a, b, r);
    let bc = bmul(b, c, r);
    lemma_bmul_len(a, b, r);
    lemma_bmul_len(b, c, r);
    assert forall|i: int, j: int, k: int| 0 <= i < n && 0 <= j < n && 0 <= k < n implies (#[trigger] btriple(a, b, c, r, n, i, j, k)).len() == n by {
        lemma_bxpow_len(bmono(n, 0), r, (i + j + k) as nat);
    }
    // (a b) c = sum over k, i, j
    lemma_bmul_by_powers(ab, c, r);
    let lk = |k: int| if c[k] { bxpow(ab, r, k as nat) } else { bzero(ab.len()) };
    let l3 = |k: int| bsum(|i: int| bsum(|j: int| btriple(a, b, c, r, n, i, j, k), n, n as int), n, n as int);
    assert forall|k: int| 0 <= k < n implies #[trigger] lk(k) == l3(k) by {
        lemma_bxpow_prod(a, b, r, k as nat, c[k]);
        let rows = |i: int| bsum(
            |j: int| if a[i] && b[j] && c[k] { bxpow(bmono(n, 0), r, (i + j + k) as nat) } else { bzero(n) },
            n,
            n as int,
        );
        let trows = |i: int| bsum(|j: int| btriple(a, b, c, r, n, i, j, k), n, n as int);
        assert forall|i: int| 0 <= i < n implies #[trigger] rows(i) == trows(i) by {
            let f1 = |j: int| if a[i] && b[j] && c[k] { bxpow(bmono(n, 0), r, (i + j + k) as nat) } else { bzero(n) };
            let f2 = |j: int| btriple(a, b, c, r, n, i, j, k);
            assert forall|j: int| 0 <= j < n implies #[trigger] f1(j) == f2(j) by {}
            lemma_bsum_congr(f1, f2, n, n as int);
        }
        lemma_bsum_congr(rows, trows, n, n as int);
    }
    lemma_bsum_congr(lk, l3, n, n as int);
    let g = |k: int, i: int| bsum(|j: int| btriple(a, b, c, r, n, i, j, k), n, n as int);
    assert forall|k: int, i: int| 0 <= k < n && 0 <= i < n implies (#[trigger] g(k, i)).len() == n by {
        lemma_bsum_len(|j: int| btriple(a, b, c, r, n, i, j, k), n, n as int);
    }
    lemma_bsum_exchange(g, n, n as int, n as int);
    let l3g = |k: int| bsum(|i: int| g(k, i), n, n as int);
    assert forall|k: int| 0 <= k < n implies #[trigger] l3(k) == l3g(k) by {
        let p1 = |i: int| bsum(|j: int| btriple(a, b, c, r, n, i, j, k), n, n as int);
        let p2 = |i: int| g(k, i);
        assert forall|i: int| 0 <= i < n implies #[trigger] p1(i) == p2(i) by {}
        lemma_bsum_congr(p1, p2, n, n as int);
    }
    lemma_bsum_congr(l3, l3g, n, n as int);
    let ik = |i: int| bsum(|k: int| g(k, i), n, n as int);
    assert(bsum(l3g, n, n as int) == bsum(ik, n, n as int));
    let ijk = |i: int| bsum(|j: int| bsum(|k: int| btriple(a, b, c, r, n, i, j, k), n, n as int), n, n as int);
    assert forall|i: int| 0 <= i < n implies #[trigger] ik(i) == ijk(i) by {
        let gi = |k: int, j: int| btriple(a, b, c, r, n, i, j, k);
        lemma_bsum_exchange(gi, n, n as int, n as int);
        let x1 = |k: int| g(k, i);
        let x2 = |k: int| bsum(|j: int| gi(k, j), n, n as int);
        assert forall|k: int| 0 <= k < n implies #[trigger] x1(k) == x2(k) by {
            let p1 = |j: int| btriple(a, b, c, r, n, i, j, k);
            let p2 = |j: int| gi(k, j);
            assert forall|j: int| 0 <= j < n implies #[trigger] p1(j) == p2(j) by {}
            lemma_bsum_congr(p1, p2, n, n as int);
        }
        lemma_bsum_congr(x1, x2, n, n as int);
        let y1 = |j: int| bsum(|k: int| gi(k, j), n, n as int);
        let y2 = |j: int| bsum(|k: int| btriple(a, b, c, r, n, i, j, k), n, n as int);
        assert forall|j: int| 0 <= j < n implies #[trigger] y1(j) == y2(j) by {
            let p1 = |k: int| gi(k, j);
            let p2 = |k: int| btriple(a, b, c, r, n, i, j, k);
            assert forall|k: int| 0 <= k < n implies #[trigger] p1(k) == p2(k) by {}
            lemma_bsum_congr(p1, p2, n, n as int);
        }
        lemma_bsum_congr(y1, y2, n, n as int);
    }
    lemma_bsum_congr(ik, ijk, n, n as int);
    // a (b c) = (b c) a = sum over i, j, k
    lemma_bmul_commutative(a, bc, r);
    lemma_bmul_by_powers(bc, a, r);
    let ri = |i: int| if a[i] { bxpow(bc, r, i as nat) } else { bzero(bc.len()) };
    assert forall|i: int| 0 <= i < n implies #[trigger] ri(i) == ijk(i) by {
        lemma_bxpow_prod(b, c, r, i as nat, a[i]);
        let rows = |j: int| bsum(
            |k: int| if b[j] && c[k] && a[i] { bxpow(bmono(n, 0), r, (j + k + i) as nat) } else { bzero(n) },
            n,
            n as int,
        );
        let trows = |j: int| bsum(|k: int| btriple(a, b, c, r, n, i, j, k), n, n as int);
        assert forall|j: int| 0 <= j < n implies #[trigger] rows(j) == trows(j) by {
            let f1 = |k: int| if b[j] && c[k] && a[i] { bxpow(bmono(n, 0), r, (j + k + i) as nat) } else { bzero(n) };
            let f2 = |k: int| btriple(a, b, c, r, n, i, j, k);
            assert forall|k: int| 0 <= k < n implies #[trigger] f1(k) == f2(k) by {
                assert((j + k + i) as nat == (i + j + k) as nat);
            }
            lemma_bsum_congr(f1, f2, n, n as int);
        }
        lemma_bsum_congr(rows, trows, n, n as int);
    }
    lemma_bsum_congr(ri, ijk, n, n as int);
    assert(bmul(ab, c, r) == bsum(lk, n, n as int));
    assert(bsum(lk, n, n as int) == bsum(l3, n, n as int));
    assert(bsum(ik, n, n as int) == bsum(ijk, n, n as int));
    assert(bmul(a, bc, r) == bsum(ri, n, n as int));
}

/// `a^e` modulo `x^n - r`, one factor at a time: `a^e = a^(e-1) * a`.
pub open spec fn bpow(a: Seq<bool>, e: nat, r: Seq<bool>) -> Seq<bool>
    decreases e,
{
    if e == 0 {
        bmono(a.len(), 0)
    } else {
        bmul(bpow(a, (e - 1) as nat, r), a, r)
    }
}

/// A power has the length of its base.
pub proof fn lemma_bpow_len(a: Seq<bool>, e: nat, r: Seq<bool>)
    ensures
        bpow(a, e, r).len() == a.len(),
    decreases e,
{
    if e > 0 {
        lemma_bpow_len(a, (e - 1) as nat, r);
        lemma_bmul_len(bpow(a, (e - 1) as nat, r), a, r);
    }
}

/// `a^m * a^n = a^(m + n)`.
pub proof fn lemma_bpow_add(a: Seq<bool>, m: nat, n: nat, r: Seq<bool>)
    requires
        a.len() > 0,
        r.len() == a.len(),
    ensures
        bmul(bpow(a, m, r), bpow(a, n, r), r) == bpow(a, m + n, r),
    decreases n,
{
    lemma_bpow_len(a, m, r);
    if n == 0 {
        lemma_bmul_zero_one(bpow(a, m, r), a, r);
    } else {
        let n1 = (n - 1) as nat;
        lemma_bpow_len(a, n1, r);
        lemma_bmul_associative(bpow(a, m, r), bpow(a, n1, r), a, r);
        lemma_bpow_add(a, m, n1, r);
        assert(bpow(a, m + n, r) == bmul(bpow(a, (m + n1) as nat, r), a, r));
    }
}

/// `(a^m)^n = a^(m n)`.
pub proof fn lemma_bpow_mul(a: Seq<bool>, m: nat, n: nat, r: Seq<bool>)
    requires
        a.len() > 0,
        r.len() == a.len(),
    ensures
        bpow(bpow(a, m, r), n, r) == bpow(a, m * n, r),
    decreases n,
{
    lemma_bpow_len(a, m, r);
    if n == 0 {
        assert(m * n == 0) by (nonlinear_arith)
            requires
                n == 0,
        ;
    } else {
        let n1 = (n - 1) as nat;
        lemma_bpow_mul(a, m, n1, r);
        lemma_bpow_add(a, m * n1, m, r);
        assert(m * n1 + m == m * n) by (nonlinear_arith)
            requires
                n1 + 1 == n,
        ;
    }
}

/// The first power is the element itself.
pub proof fn lemma_bpow_one(a: Seq<bool>, r: Seq<bool>)
    requires
        a.len() > 0,
        r.len() == a.len(),
    ensures
        bpow(a, 1, r) == a,
{
    lemma_bmul_zero_one(a, a, r);
    lemma_bmul_commutative(a, bmono(a.len(), 0), r);
    assert(bpow(a, 1, r) == bmul(bpow(a, 0, r), a, r));
}

} // verus!
