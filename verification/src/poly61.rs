//! Polynomials over the field modulo 2^61 - 1: coefficient sequences, their
//! arithmetic, and evaluation.
use vstd::prelude::*;
use vstd::arithmetic::div_mod::*;
use vstd::arithmetic::mul::*;
use vstd::arithmetic::power::*;
use crate::f61p::{F61p, p61, lemma_f61p_val_bound};

verus! {

/// The modulus as an integer.
pub open spec fn pp() -> int {
    p61() as int
}

/// The `i`-th coefficient, zero outside the sequence.
pub open spec fn pc(a: Seq<int>, i: int) -> int {
    if 0 <= i < a.len() {
        a[i]
    } else {
        0
    }
}

/// The sequence without its constant term (empty stays empty).
pub open spec fn pdrop(a: Seq<int>) -> Seq<int> {
    if a.len() == 0 {
        a
    } else {
        a.drop_first()
    }
}

/// `a_0 + a_1 x + a_2 x^2 + ...`, as an integer.
pub open spec fn peval(a: Seq<int>, x: int) -> int
    decreases a.len(),
{
    if a.len() == 0 {
        0
    } else {
        a[0] + x * peval(a.drop_first(), x)
    }
}

/// The larger of two lengths.
pub open spec fn maxlen(a: Seq<int>, b: Seq<int>) -> nat {
    if a.len() >= b.len() {
        a.len()
    } else {
        b.len()
    }
}

/// Coefficient-wise sum modulo the prime.
pub open spec fn padd(a: Seq<int>, b: Seq<int>) -> Seq<int> {
    Seq::new(maxlen(a, b), |i: int| (pc(a, i) + pc(b, i)) % pp())
}

/// Coefficient-wise difference modulo the prime.
pub open spec fn psub(a: Seq<int>, b: Seq<int>) -> Seq<int> {
    Seq::new(maxlen(a, b), |i: int| (pc(a, i) - pc(b, i)) % pp())
}

/// Multiplication by a constant modulo the prime.
pub open spec fn pscale(c: int, a: Seq<int>) -> Seq<int> {
    Seq::new(a.len(), |i: int| (c * a[i]) % pp())
}

/// Multiplication by `x^k`: `k` zero coefficients in front.
pub open spec fn pshift(a: Seq<int>, k: nat) -> Seq<int> {
    Seq::new(a.len() + k, |i: int| if i < k { 0 } else { a[i - k] })
}

/// The product of two polynomials modulo the prime.
pub open spec fn pmul(a: Seq<int>, b: Seq<int>) -> Seq<int>
    decreases a.len(),
{
    if a.len() == 0 {
        Seq::empty()
    } else {
        padd(pscale(a[0], b), pshift(pmul(a.drop_first(), b), 1))
    }
}

/// Every coefficient lies in `0..p`.
pub open spec fn preduced(a: Seq<int>) -> bool {
    forall|i: int| 0 <= i < a.len() ==> 0 <= #[trigger] a[i] < pp()
}

/// Unfolds one step of the evaluation, for every sequence.
pub proof fn lemma_peval_unfold(a: Seq<int>, x: int)
    ensures
        peval(a, x) == pc(a, 0) + x * peval(pdrop(a), x),
{
    if a.len() == 0 {
        assert(x * 0 == 0);
    }
}

pub proof fn lemma_mod_add_congr(a: int, a2: int, b: int, b2: int)
    requires
        a % pp() == a2 % pp(),
        b % pp() == b2 % pp(),
    ensures
        (a + b) % pp() == (a2 + b2) % pp(),
{
    lemma_add_mod_noop(a, b, pp());
    lemma_add_mod_noop(a2, b2, pp());
}

pub proof fn lemma_mod_sub_congr(a: int, a2: int, b: int, b2: int)
    requires
        a % pp() == a2 % pp(),
        b % pp() == b2 % pp(),
    ensures
        (a - b) % pp() == (a2 - b2) % pp(),
{
    lemma_sub_mod_noop(a, b, pp());
    lemma_sub_mod_noop(a2, b2, pp());
}

pub proof fn lemma_mod_mul_congr(a: int, a2: int, b: int, b2: int)
    requires
        a % pp() == a2 % pp(),
        b % pp() == b2 % pp(),
    ensures
        (a * b) % pp() == (a2 * b2) % pp(),
{
    lemma_mul_mod_noop(a, b, pp());
    lemma_mul_mod_noop(a2, b2, pp());
}

/// Evaluation of a sum is the sum of evaluations, modulo the prime.
pub proof fn lemma_peval_add(a: Seq<int>, b: Seq<int>, x: int)
    ensures
        peval(padd(a, b), x) % pp() == (peval(a, x) + peval(b, x)) % pp(),
    decreases a.len() + b.len(),
{
    let s = padd(a, b);
    lemma_peval_unfold(s, x);
    lemma_peval_unfold(a, x);
    lemma_peval_unfold(b, x);
    if s.len() == 0 {
    } else {
        assert(pdrop(s) =~= padd(pdrop(a), pdrop(b)));
        lemma_peval_add(pdrop(a), pdrop(b), x);
        let ea = peval(pdrop(a), x);
        let eb = peval(pdrop(b), x);
        let es = peval(pdrop(s), x);
        assert(pc(s, 0) == (pc(a, 0) + pc(b, 0)) % pp());
        lemma_mod_mul_congr(x, x, es, ea + eb);
        assert(x * (ea + eb) == x * ea + x * eb) by (nonlinear_arith);
        lemma_mod_twice(pc(a, 0) + pc(b, 0), pp());
        lemma_mod_add_congr(pc(s, 0), pc(a, 0) + pc(b, 0), x * es, x * ea + x * eb);
    }
}

/// Evaluation of a difference is the difference of evaluations, modulo the prime.
pub proof fn lemma_peval_sub(a: Seq<int>, b: Seq<int>, x: int)
    ensures
        peval(psub(a, b), x) % pp() == (peval(a, x) - peval(b, x)) % pp(),
    decreases a.len() + b.len(),
{
    let s = psub(a, b);
    lemma_peval_unfold(s, x);
    lemma_peval_unfold(a, x);
    lemma_peval_unfold(b, x);
    if s.len() == 0 {
    } else {
        assert(pdrop(s) =~= psub(pdrop(a), pdrop(b)));
        lemma_peval_sub(pdrop(a), pdrop(b), x);
        let ea = peval(pdrop(a), x);
        let eb = peval(pdrop(b), x);
        let es = peval(pdrop(s), x);
        lemma_mod_mul_congr(x, x, es, ea - eb);
        assert(x * (ea - eb) == x * ea - x * eb) by (nonlinear_arith);
        lemma_mod_twice(pc(a, 0) - pc(b, 0), pp());
        lemma_mod_add_congr(pc(s, 0), pc(a, 0) - pc(b, 0), x * es, x * ea - x * eb);
    }
}

/// Evaluation of a multiple is the multiple of the evaluation, modulo the prime.
pub proof fn lemma_peval_scale(c: int, a: Seq<int>, x: int)
    ensures
        peval(pscale(c, a), x) % pp() == (c * peval(a, x)) % pp(),
    decreases a.len(),
{
    let s = pscale(c, a);
    if a.len() == 0 {
        assert(c * 0 == 0);
    } else {
        assert(s.drop_first() =~= pscale(c, a.drop_first()));
        lemma_peval_scale(c, a.drop_first(), x);
        let ea = peval(a.drop_first(), x);
        let es = peval(s.drop_first(), x);
        lemma_mod_mul_congr(x, x, es, c * ea);
        assert(x * (c * ea) == c * (x * ea)) by (nonlinear_arith);
        assert(c * (a[0] + x * ea) == c * a[0] + c * (x * ea)) by (nonlinear_arith);
        lemma_mod_twice(c * a[0], pp());
        lemma_mod_add_congr(s[0], c * a[0], x * es, c * (x * ea));
    }
}

/// Evaluation of `x^k * a` is `x^k` times the evaluation of `a`.
pub proof fn lemma_peval_shift(a: Seq<int>, k: nat, x: int)
    ensures
        peval(pshift(a, k), x) == pow(x, k) * peval(a, x),
    decreases k,
{
    if k == 0 {
        assert(pshift(a, 0) =~= a);
        lemma_pow0(x);
    } else {
        let s = pshift(a, k);
        assert(s.drop_first() =~= pshift(a, (k - 1) as nat));
        lemma_peval_shift(a, (k - 1) as nat, x);
        lemma_pow_adds(x, 1, (k - 1) as nat);
        lemma_pow1(x);
        assert(x * (pow(x, (k - 1) as nat) * peval(a, x)) == (x * pow(x, (k - 1) as nat)) * peval(a, x)) by (nonlinear_arith);
    }
}

/// The length of a product of two non-empty polynomials.
pub proof fn lemma_pmul_len(a: Seq<int>, b: Seq<int>)
    requires
        b.len() > 0,
    ensures
        a.len() == 0 ==> pmul(a, b).len() == 0,
        a.len() > 0 ==> pmul(a, b).len() == a.len() + b.len() - 1,
    decreases a.len(),
{
    if a.len() > 0 {
        lemma_pmul_len(a.drop_first(), b);
    }
}

/// Evaluation of a product is the product of evaluations, modulo the prime.
pub proof fn lemma_peval_mul(a: Seq<int>, b: Seq<int>, x: int)
    ensures
        peval(pmul(a, b), x) % pp() == (peval(a, x) * peval(b, x)) % pp(),
    decreases a.len(),
{
    if a.len() == 0 {
        assert(0 * peval(b, x) == 0);
    } else {
        let r = pmul(a.drop_first(), b);
        lemma_peval_mul(a.drop_first(), b, x);
        lemma_peval_add(pscale(a[0], b), pshift(r, 1), x);
        lemma_peval_scale(a[0], b, x);
        lemma_peval_shift(r, 1, x);
        lemma_pow1(x);
        let ea = peval(a.drop_first(), x);
        let eb = peval(b, x);
        let er = peval(r, x);
        lemma_mod_mul_congr(x, x, er, ea * eb);
        lemma_mod_add_congr(peval(pscale(a[0], b), x), a[0] * eb, x * er, x * (ea * eb));
        assert((a[0] + x * ea) * eb == a[0] * eb + x * (ea * eb)) by (nonlinear_arith);
    }
}

/// Every coefficient from index `n` on is zero.
pub open spec fn pzero_from(s: Seq<int>, n: int) -> bool {
    forall|i: int| n <= i < s.len() ==> #[trigger] s[i] == 0
}

/// A polynomial whose coefficients are all zero evaluates to zero.
pub proof fn lemma_peval_zeros(a: Seq<int>, x: int)
    requires
        pzero_from(a, 0),
    ensures
        peval(a, x) == 0,
    decreases a.len(),
{
    if a.len() > 0 {
        lemma_peval_zeros(a.drop_first(), x);
        assert(a[0] == 0);
        assert(x * 0 == 0);
    }
}

/// Padding with zeros, or cutting off zero coefficients, keeps the evaluation.
pub proof fn lemma_peval_resize(a: Seq<int>, n: nat, x: int)
    requires
        pzero_from(a, n as int),
    ensures
        peval(Seq::new(n, |i: int| pc(a, i)), x) == peval(a, x),
    decreases n,
{
    let s = Seq::new(n, |i: int| pc(a, i));
    lemma_peval_unfold(s, x);
    lemma_peval_unfold(a, x);
    if n == 0 {
        lemma_peval_zeros(a, x);
    } else {
        assert(pdrop(s) =~= Seq::new((n - 1) as nat, |i: int| pc(pdrop(a), i)));
        lemma_peval_resize(pdrop(a), (n - 1) as nat, x);
    }
}

/// The values of a sequence of field elements.
pub open spec fn vals(s: Seq<F61p>) -> Seq<int> {
    Seq::new(s.len(), |i: int| s[i].val() as int)
}

/// A product with an all-zero left factor is all zero.
pub proof fn lemma_pmul_zero_left(a: Seq<int>, b: Seq<int>)
    requires
        pzero_from(a, 0),
    ensures
        pzero_from(pmul(a, b), 0),
    decreases a.len(),
{
    if a.len() > 0 {
        lemma_pmul_zero_left(a.drop_first(), b);
        let r = pmul(a.drop_first(), b);
        let s = pmul(a, b);
        assert(a[0] == 0);
        assert forall|i: int| 0 <= i < s.len() implies #[trigger] s[i] == 0 by {
            if i < b.len() {
                lemma_mul_by_zero_is_zero(b[i]);
            }
            assert(pc(pscale(a[0], b), i) == 0);
            assert(pc(pshift(r, 1), i) == 0);
        }
    }
}

/// The coefficients of a product vanish past the sum of two degrees that bound the
/// factors.
pub proof fn lemma_pmul_zero_from(a: Seq<int>, b: Seq<int>, m: int, n: int)
    requires
        0 <= m,
        0 <= n,
        pzero_from(a, m + 1),
        pzero_from(b, n + 1),
    ensures
        pzero_from(pmul(a, b), m + n + 1),
    decreases a.len(),
{
    if a.len() > 0 {
        let r = pmul(a.drop_first(), b);
        if m == 0 {
            lemma_pmul_zero_left(a.drop_first(), b);
        } else {
            lemma_pmul_zero_from(a.drop_first(), b, m - 1, n);
        }
        let s = pmul(a, b);
        assert forall|i: int| m + n + 1 <= i < s.len() implies #[trigger] s[i] == 0 by {
            if i < b.len() {
                assert(b[i] == 0);
                lemma_mul_by_zero_is_zero(a[0]);
            }
            assert(pc(pscale(a[0], b), i) == 0);
            assert(pc(pshift(r, 1), i) == pc(r, i - 1));
            assert(pc(r, i - 1) == 0);
        }
    }
}

/// The coefficient of a product at the sum of two degrees that bound the factors is the
/// product of the coefficients at those degrees.
pub proof fn lemma_pmul_coeff_top(a: Seq<int>, b: Seq<int>, m: int, n: int)
    requires
        0 <= m,
        0 <= n,
        pzero_from(a, m + 1),
        pzero_from(b, n + 1),
        b.len() > 0,
    ensures
        pc(pmul(a, b), m + n) == (pc(a, m) * pc(b, n)) % pp(),
    decreases a.len(),
{
    let k = m + n;
    lemma_pmul_len(a, b);
    if a.len() == 0 {
        lemma_mul_by_zero_is_zero(pc(b, n));
        assert(pc(a, m) == 0);
        assert(pc(pmul(a, b), k) == 0);
        assert((pc(a, m) * pc(b, n)) % pp() == 0);
    } else {
        let r = pmul(a.drop_first(), b);
        let x = pscale(a[0], b);
        let y = pshift(r, 1);
        let s = pmul(a, b);
        assert(s == padd(x, y));
        lemma_pmul_len(a.drop_first(), b);
        let t = if m == 0 {
            lemma_pmul_zero_left(a.drop_first(), b);
            assert(pc(y, k) == 0);
            assert(pc(x, k) == (a[0] * pc(b, n)) % pp()) by {
                if n >= b.len() {
                    lemma_mul_by_zero_is_zero(a[0]);
                }
            }
            assert(pc(a, m) == a[0]);
            pc(x, k)
        } else {
            lemma_pmul_coeff_top(a.drop_first(), b, m - 1, n);
            assert(pc(a.drop_first(), m - 1) == pc(a, m));
            assert(pc(y, k) == pc(r, k - 1));
            assert(pc(x, k) == 0) by {
                if k < b.len() {
                    assert(b[k] == 0);
                    lemma_mul_by_zero_is_zero(a[0]);
                }
            }
            pc(y, k)
        };
        assert(t == (pc(a, m) * pc(b, n)) % pp());
        lemma_mod_twice(pc(a, m) * pc(b, n), pp());
        if k < s.len() {
            assert(s[k] == (pc(x, k) + pc(y, k)) % pp());
            assert(pc(s, k) == t % pp());
        } else {
            if m >= a.len() {
                lemma_mul_by_zero_is_zero(pc(b, n));
            } else {
                assert(n >= b.len());
                lemma_mul_by_zero_is_zero(pc(a, m));
            }
            assert((pc(a, m) * pc(b, n)) % pp() == 0);
            assert(pc(s, k) == 0);
        }
    }
}

/// Every value of a sequence of field elements lies below the modulus.
pub proof fn lemma_vals_reduced(s: Seq<F61p>)
    ensures
        preduced(vals(s)),
{
    assert forall|i: int| 0 <= i < vals(s).len() implies 0 <= #[trigger] vals(s)[i] < pp() by {
        lemma_f61p_val_bound(s[i]);
    }
}

/// `a` times `x^n`.
pub(crate) fn vec_shift(a: &Vec<F61p>, n: usize) -> (r: Vec<F61p>)
    requires
        a.len() + n <= usize::MAX,
    ensures
        vals(r@) == pshift(vals(a@), n as nat),
{
    let mut r: Vec<F61p> = Vec::new();
    let mut i: usize = 0;
    while i < n
        invariant
            i <= n,
            r.len() == i,
            forall|j: int| 0 <= j < i ==> (#[trigger] r[j]).val() == 0,
        decreases n - i,
    {
        r.push(F61p::zero());
        i = i + 1;
    }
    let mut k: usize = 0;
    while k < a.len()
        invariant
            k <= a.len(),
            a.len() + n <= usize::MAX,
            r.len() == n + k,
            forall|j: int| 0 <= j < n ==> (#[trigger] r[j]).val() == 0,
            forall|j: int| n <= j < n + k ==> #[trigger] r[j] == a[j - n],
        decreases a.len() - k,
    {
        r.push(a[k]);
        k = k + 1;
    }
    assert(vals(r@) =~= pshift(vals(a@), n as nat));
    r
}

/// The first `n` coefficients of `a`, padded with zeros.
pub(crate) fn vec_resize(a: &Vec<F61p>, n: usize) -> (r: Vec<F61p>)
    ensures
        vals(r@) == Seq::new(n as nat, |i: int| pc(vals(a@), i)),
{
    let mut r: Vec<F61p> = Vec::new();
    let mut i: usize = 0;
    while i < n
        invariant
            i <= n,
            r.len() == i,
            forall|j: int| 0 <= j < i ==> (#[trigger] r[j]).val() == pc(vals(a@), j),
        decreases n - i,
    {
        if i < a.len() {
            r.push(a[i]);
        } else {
            r.push(F61p::zero());
        }
        i = i + 1;
    }
    assert(vals(r@) =~= Seq::new(n as nat, |i: int| pc(vals(a@), i)));
    r
}

/// The element at `i`, zero past the end.
fn vec_at(a: &Vec<F61p>, i: usize) -> (r: F61p)
    ensures
        r.val() == pc(vals(a@), i as int),
{
    if i < a.len() {
        a[i]
    } else {
        F61p::zero()
    }
}

/// Coefficient-wise sum.
fn vec_add(a: &Vec<F61p>, b: &Vec<F61p>) -> (r: Vec<F61p>)
    ensures
        vals(r@) == padd(vals(a@), vals(b@)),
{
    let n = if a.len() >= b.len() {
        a.len()
    } else {
        b.len()
    };
    let mut r: Vec<F61p> = Vec::new();
    let mut i: usize = 0;
    while i < n
        invariant
            i <= n,
            n == maxlen(vals(a@), vals(b@)),
            r.len() == i,
            forall|j: int| 0 <= j < i ==> (#[trigger] r[j]).val() == (pc(vals(a@), j) + pc(vals(b@), j)) % pp(),
        decreases n - i,
    {
        let x = vec_at(a, i);
        let y = vec_at(b, i);
        r.push(x.add(&y));
        i = i + 1;
    }
    assert(vals(r@) =~= padd(vals(a@), vals(b@)));
    r
}

/// Coefficient-wise difference.
pub(crate) fn vec_sub(a: &Vec<F61p>, b: &Vec<F61p>) -> (r: Vec<F61p>)
    ensures
        vals(r@) == psub(vals(a@), vals(b@)),
{
    let n = if a.len() >= b.len() {
        a.len()
    } else {
        b.len()
    };
    let mut r: Vec<F61p> = Vec::new();
    let mut i: usize = 0;
    while i < n
        invariant
            i <= n,
            n == maxlen(vals(a@), vals(b@)),
            r.len() == i,
            forall|j: int| 0 <= j < i ==> (#[trigger] r[j]).val() == (pc(vals(a@), j) - pc(vals(b@), j)) % pp(),
        decreases n - i,
    {
        let x = vec_at(a, i);
        let y = vec_at(b, i);
        let z = x.sub(&y);
        proof {
            lemma_mod_add_multiples_vanish(x.val() - y.val(), pp());
        }
        r.push(z);
        i = i + 1;
    }
    assert(vals(r@) =~= psub(vals(a@), vals(b@)));
    r
}

/// Every coefficient times `c`.
fn vec_scale(c: F61p, a: &Vec<F61p>) -> (r: Vec<F61p>)
    ensures
        vals(r@) == pscale(c.val() as int, vals(a@)),
{
    let mut r: Vec<F61p> = Vec::new();
    let mut i: usize = 0;
    while i < a.len()
        invariant
            i <= a.len(),
            r.len() == i,
            forall|j: int| 0 <= j < i ==> (#[trigger] r[j]).val() == (c.val() * a[j].val()) % p61(),
        decreases a.len() - i,
    {
        r.push(c.mul(&a[i]));
        i = i + 1;
    }
    assert(vals(r@) =~= pscale(c.val() as int, vals(a@)));
    r
}

/// The product of two polynomials, one coefficient of `a` at a time from the top.
fn vec_mul(a: &Vec<F61p>, b: &Vec<F61p>) -> (r: Vec<F61p>)
    requires
        b.len() > 0,
        a.len() + b.len() <= usize::MAX,
    ensures
        vals(r@) == pmul(vals(a@), vals(b@)),
{
    let ghost sa = vals(a@);
    let ghost sb = vals(b@);
    let mut r: Vec<F61p> = Vec::new();
    let mut k: usize = a.len();
    proof {
        assert(sa.skip(k as int) =~= Seq::<int>::empty());
    }
    while k > 0
        invariant
            k <= a.len(),
            b.len() > 0,
            a.len() + b.len() <= usize::MAX,
            sa == vals(a@),
            sb == vals(b@),
            vals(r@) == pmul(sa.skip(k as int), sb),
        decreases k,
    {
        proof {
            lemma_pmul_len(sa.skip(k as int), sb);
        }
        k = k - 1;
        let s = vec_scale(a[k], b);
        let t = vec_shift(&r, 1);
        r = vec_add(&s, &t);
        proof {
            assert(sa.skip(k as int).drop_first() =~= sa.skip(k + 1));
            assert(sa.skip(k as int)[0] == a[k as int].val());
        }
    }
    assert(sa.skip(0) =~= sa);
    r
}

/// A polynomial with coefficients in the field modulo 2^61 - 1: `constant` is the
/// coefficient of `x^0` and `coefficients[i]` that of `x^(i + 1)`.
#[derive(Clone, Debug, PartialEq, Eq)]
pub struct GeneralPolynomial {
    /// The constant term.
    pub constant: F61p,
    /// The other coefficients, lowest degree first.
    pub coefficients: Vec<F61p>,
}

impl GeneralPolynomial {
    /// All coefficients, constant term first.
    pub open spec fn coeffs(&self) -> Seq<int> {
        seq![self.constant.val() as int] + vals(self.coefficients@)
    }

    /// The zero polynomial, with no coefficients beyond the constant.
    pub fn zero() -> (r: GeneralPolynomial)
        ensures
            r.coeffs() == seq![0int],
    {
        let r = GeneralPolynomial { constant: F61p::zero(), coefficients: Vec::new() };
        assert(r.coeffs() =~= seq![0int]);
        r
    }

    /// The degree: the index of the highest non-zero coefficient, 0 for a constant.
    pub fn degree(&self) -> (r: usize)
        ensures
            r <= self.coefficients.len(),
            pzero_from(self.coeffs(), r + 1),
            r == 0 || self.coeffs()[r as int] != 0,
    {
        let mut r = self.coefficients.len();
        while r > 0 && self.coefficients[r - 1].to_u128() == 0
            invariant
                r <= self.coefficients.len(),
                pzero_from(self.coeffs(), r + 1),
            decreases r,
        {
            r = r - 1;
        }
        r
    }

    /// The coefficient of `x^i`.
    pub fn get(&self, i: usize) -> (r: F61p)
        requires
            i <= self.coefficients.len(),
        ensures
            r.val() == self.coeffs()[i as int],
    {
        if i == 0 {
            self.constant
        } else {
            self.coefficients[i - 1]
        }
    }

    /// All coefficients in one vector, constant term first.
    pub(crate) fn to_vec(&self) -> (r: Vec<F61p>)
        ensures
            vals(r@) == self.coeffs(),
            r.len() == self.coefficients.len() + 1,
    {
        let mut r: Vec<F61p> = Vec::new();
        r.push(self.constant);
        let mut i: usize = 0;
        while i < self.coefficients.len()
            invariant
                i <= self.coefficients.len(),
                r.len() == i + 1,
                vals(r@) == self.coeffs().take(i + 1),
            decreases self.coefficients.len() - i,
        {
            r.push(self.coefficients[i]);
            proof {
                assert(vals(r@) =~= self.coeffs().take(i + 2));
            }
            i = i + 1;
        }
        assert(self.coeffs().take(self.coefficients.len() + 1) =~= self.coeffs());
        r
    }

    /// The polynomial with the given coefficients, constant term first.
    pub(crate) fn from_vec(v: Vec<F61p>) -> (r: GeneralPolynomial)
        requires
            v.len() > 0,
        ensures
            r.coeffs() == vals(v@),
            r.coefficients.len() + 1 == v.len(),
    {
        let constant = v[0];
        let mut coefficients: Vec<F61p> = Vec::new();
        let mut i: usize = 1;
        while i < v.len()
            invariant
                1 <= i <= v.len(),
                coefficients.len() == i - 1,
                forall|k: int| 0 <= k < i - 1 ==> coefficients[k] == v[k + 1],
            decreases v.len() - i,
        {
            coefficients.push(v[i]);
            i = i + 1;
        }
        let r = GeneralPolynomial { constant, coefficients };
        assert(r.coeffs() =~= vals(v@));
        assert(r.coefficients.len() + 1 == v.len());
        r
    }

    /// Evaluates the polynomial at `x`, by Horner's rule.
    pub fn eval(&self, x: F61p) -> (r: F61p)
        ensures
            r.val() == peval(self.coeffs(), x.val() as int) % pp(),
    {
        let v = self.to_vec();
        let ghost s = self.coeffs();
        let mut acc = F61p::zero();
        let mut k: usize = v.len();
        proof {
            assert(s.skip(k as int) =~= Seq::<int>::empty());
            lemma_small_mod(0, p61());
        }
        while k > 0
            invariant
                k <= v.len(),
                vals(v@) == s,
                acc.val() == peval(s.skip(k as int), x.val() as int) % pp(),
            decreases k,
        {
            k = k - 1;
            let ghost prev = acc.val() as int;
            let t = acc.mul(&x);
            acc = t.add(&v[k]);
            proof {
                let xv = x.val() as int;
                let tail = peval(s.skip(k + 1), xv);
                assert(s.skip(k as int).drop_first() =~= s.skip(k + 1));
                assert(s.skip(k as int)[0] == v[k as int].val());
                lemma_mod_mul_congr(prev, tail, xv, xv);
                assert(prev * xv == xv * prev) by (nonlinear_arith);
                assert(tail * xv == xv * tail) by (nonlinear_arith);
                lemma_mod_add_congr(t.val() as int, xv * tail, v[k as int].val() as int, v[k as int].val() as int);
                lemma_mod_twice(prev * xv, pp());
            }
        }
        assert(s.skip(0) =~= s);
        acc
    }

    /// An equal copy.
    pub(crate) fn duplicate(&self) -> (r: GeneralPolynomial)
        ensures
            r.coeffs() == self.coeffs(),
            r.coefficients.len() == self.coefficients.len(),
    {
        let v = self.to_vec();
        GeneralPolynomial::from_vec(v)
    }

    /// A polynomial with `degree` random coefficients beyond a random constant.
    pub fn random(rng: &mut rand::rngs::StdRng, degree: usize) -> (r: GeneralPolynomial)
        ensures
            r.coefficients.len() == degree,
    {
        let constant = F61p::random(rng);
        let mut coefficients: Vec<F61p> = Vec::new();
        let mut i: usize = 0;
        while i < degree
            invariant
                i <= degree,
                coefficients.len() == i,
            decreases degree - i,
        {
            coefficients.push(F61p::random(rng));
            i = i + 1;
        }
        GeneralPolynomial { constant, coefficients }
    }

    /// Adds `other` coefficient by coefficient; the longer length is kept.
    pub fn add_assign(&mut self, other: &GeneralPolynomial)
        ensures
            final(self).coeffs() == padd(old(self).coeffs(), other.coeffs()),
    {
        let a = self.to_vec();
        let b = other.to_vec();
        let c = vec_add(&a, &b);
        assert(vals(c@).len() == c.len() && vals(a@).len() == a.len());
        *self = GeneralPolynomial::from_vec(c);
    }

    /// Subtracts `other` coefficient by coefficient; the longer length is kept.
    pub fn sub_assign(&mut self, other: &GeneralPolynomial)
        ensures
            final(self).coeffs() == psub(old(self).coeffs(), other.coeffs()),
    {
        let a = self.to_vec();
        let b = other.to_vec();
        let c = vec_sub(&a, &b);
        assert(vals(c@).len() == c.len() && vals(a@).len() == a.len());
        *self = GeneralPolynomial::from_vec(c);
    }

    /// Multiplies by `x^n`.
    pub fn shift_mut(&mut self, n: usize)
        requires
            old(self).coefficients.len() + 1 + n <= usize::MAX,
        ensures
            final(self).coeffs() == pshift(old(self).coeffs(), n as nat),
    {
        let a = self.to_vec();
        let c = vec_shift(&a, n);
        assert(vals(c@).len() == c.len() && vals(a@).len() == a.len());
        *self = GeneralPolynomial::from_vec(c);
    }

    /// Multiplies by the polynomial `other`.
    pub fn mul_assign(&mut self, other: &GeneralPolynomial)
        requires
            old(self).coefficients.len() + other.coefficients.len() + 2 <= usize::MAX,
        ensures
            final(self).coeffs() == pmul(old(self).coeffs(), other.coeffs()),
    {
        let a = self.to_vec();
        let b = other.to_vec();
        let c = vec_mul(&a, &b);
        proof {
            lemma_pmul_len(vals(a@), vals(b@));
            assert(vals(c@).len() == c.len() && vals(a@).len() == a.len() && vals(b@).len() == b.len());
        }
        *self = GeneralPolynomial::from_vec(c);
    }

    /// Multiplies every coefficient by `c`.
    pub fn mul_assign_scalar(&mut self, c: F61p)
        ensures
            final(self).coeffs() == pscale(c.val() as int, old(self).coeffs()),
    {
        let a = self.to_vec();
        let r = vec_scale(c, &a);
        assert(vals(r@).len() == r.len() && vals(a@).len() == a.len());
        *self = GeneralPolynomial::from_vec(r);
    }

}


/// `x0, xs[0], xs[1], ...` as one vector.
fn prepend(x0: F61p, xs: &[F61p]) -> (r: Vec<F61p>)
    ensures
        r@ == seq![x0] + xs@,
{
    let mut r: Vec<F61p> = Vec::new();
    r.push(x0);
    let mut i: usize = 0;
    while i < xs.len()
        invariant
            i <= xs.len(),
            r@ == seq![x0] + xs@.take(i as int),
        decreases xs.len() - i,
    {
        r.push(xs[i]);
        i = i + 1;
        assert(r@ =~= seq![x0] + xs@.take(i as int));
    }
    assert(xs@.take(xs.len() as int) =~= xs@);
    r
}

/// Multiplication of polynomials given as a constant term and the higher coefficients.
pub trait Convolve: Sized {
    /// `z0` is the constant term and `zs[k]` the coefficient of `t^(k + 1)` of the product
    /// of `x0 + xs[0] t + xs[1] t^2 + ...` and `y0 + ys[0] t + ...`.
    spec fn is_product(z0: Self, zs: Seq<Self>, x0: Self, xs: Seq<Self>, y0: Self, ys: Seq<Self>) -> bool;

    /// The product of `x0 + xs[0] t + xs[1] t^2 + ...` and `y0 + ys[0] t + ...`: its
    /// constant term goes to `z0` and its coefficient of `t^(k + 1)` to `zs[k]`, which
    /// has room for exactly those coefficients.
    fn convolve(z0: &mut Self, zs: &mut [Self], x0: Self, xs: &[Self], y0: Self, ys: &[Self])
        requires
            old(zs)@.len() == xs@.len() + ys@.len(),
            xs@.len() + ys@.len() + 2 <= usize::MAX,
        ensures
            final(zs)@.len() == old(zs)@.len(),
            Self::is_product(*final(z0), final(zs)@, x0, xs@, y0, ys@),
    ;
}

impl Convolve for F61p {
    /// The coefficients are those of the product of the two polynomials over the field.
    open spec fn is_product(z0: F61p, zs: Seq<F61p>, x0: F61p, xs: Seq<F61p>, y0: F61p, ys: Seq<F61p>) -> bool {
        &&& z0.val() == pmul(vals(seq![x0] + xs), vals(seq![y0] + ys))[0]
        &&& forall|k: int| 0 <= k < zs.len() ==> (#[trigger] zs[k]).val() == pmul(
            vals(seq![x0] + xs),
            vals(seq![y0] + ys),
        )[k + 1]
    }

    /// The product of `x0 + xs[0] t + xs[1] t^2 + ...` and `y0 + ys[0] t + ...`: its
    /// constant term goes to `z0` and its coefficient of `t^(k + 1)` to `zs[k]`.
    fn convolve(z0: &mut F61p, zs: &mut [F61p], x0: F61p, xs: &[F61p], y0: F61p, ys: &[F61p])
        ensures
            final(zs)@.len() == old(zs)@.len(),
            final(z0).val() == pmul(vals(seq![x0] + xs@), vals(seq![y0] + ys@))[0],
            forall|k: int| 0 <= k < final(zs)@.len() ==> (#[trigger] final(zs)@[k]).val() == pmul(
                vals(seq![x0] + xs@),
                vals(seq![y0] + ys@),
            )[k + 1],
    {
        let a = prepend(x0, xs);
        let b = prepend(y0, ys);
        let c = vec_mul(&a, &b);
        proof {
            lemma_pmul_len(vals(a@), vals(b@));
            assert(vals(c@).len() == c.len());
        }
        *z0 = c[0];
        let n = zs.len();
        let mut k: usize = 0;
        while k < n
            invariant
                k <= n,
                n == zs@.len(),
                c.len() == n + 1,
                vals(c@) == pmul(vals(seq![x0] + xs@), vals(seq![y0] + ys@)),
                forall|j: int| 0 <= j < k ==> (#[trigger] zs@[j]).val() == vals(c@)[j + 1],
            decreases n - k,
        {
            zs[k] = c[k + 1];
            k = k + 1;
        }
    }
}

} // verus!
