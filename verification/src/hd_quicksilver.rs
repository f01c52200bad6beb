//! Authenticated values of higher degree over the field modulo 2^61 - 1, and the
//! batched check that such values are zero.
//!
//! The prover holds a polynomial in the verifier's secret key `delta`; the verifier
//! holds the value of that polynomial at `delta`, its MAC. The degree of the polynomial
//! in `delta` (`qs_degree`) grows with every multiplication, and the coefficient at that
//! degree is the authenticated value.
use vstd::prelude::*;
use vstd::arithmetic::div_mod::*;
use vstd::arithmetic::mul::*;
use vstd::arithmetic::power::*;
use vstd::arithmetic::power2::*;
use crate::f61p::{F61p, p61, lemma_f61p_val_bound};
use crate::poly61::{
    GeneralPolynomial, pp, pc, peval, pshift, padd, pscale, pmul, pzero_from, preduced,
    vals, maxlen, vec_resize, vec_shift, vec_sub, lemma_vals_reduced, lemma_peval_add, lemma_peval_sub,
    lemma_peval_scale, lemma_peval_shift, lemma_peval_mul, lemma_peval_resize,
    lemma_pmul_zero_from, lemma_pmul_coeff_top, lemma_pmul_len, lemma_mod_add_congr,
    lemma_mod_sub_congr, lemma_mod_mul_congr, psub,
};

verus! {

/// The larger of two degrees.
pub open spec fn top(a: nat, b: nat) -> nat {
    if a >= b {
        a
    } else {
        b
    }
}

/// `x + y` or `x - y` in the field.
pub open spec fn comb_at(x: int, y: int, plus: bool) -> int {
    if plus {
        (x + y) % pp()
    } else {
        (x - y) % pp()
    }
}

/// The prover's polynomial after adding (or subtracting) `b` of degree `bq` to `a` of
/// degree `aq`: the one of lower degree is first multiplied by the power of `delta` that
/// lifts it to the larger degree, and the result has exactly that many coefficients.
pub open spec fn hd_comb(a: Seq<int>, aq: nat, b: Seq<int>, bq: nat, plus: bool) -> Seq<int> {
    let q = top(aq, bq);
    Seq::new(
        q + 1,
        |i: int|
            comb_at(pc(pshift(a, (q - aq) as nat), i), pc(pshift(b, (q - bq) as nat), i), plus),
    )
}

/// The verifier's MAC after the same combination: `m` of degree `mq` and `o` of degree
/// `oq`, each multiplied by the power of `d` that lifts it to the larger degree.
pub open spec fn mac_comb(m: int, mq: nat, o: int, oq: nat, d: int, plus: bool) -> int {
    let q = top(mq, oq);
    comb_at(m * pow(d, (q - mq) as nat), o * pow(d, (q - oq) as nat), plus)
}

/// The prover's polynomial of degree `q` after adding (or subtracting) the public
/// constant `c`, which enters at the top coefficient.
pub open spec fn hd_add_const(a: Seq<int>, q: nat, c: int, plus: bool) -> Seq<int> {
    Seq::new(q + 1, |i: int| if i == q { comb_at(pc(a, i), c, plus) } else { pc(a, i) })
}

/// The verifier's MAC of degree `q` after adding (or subtracting) the public constant
/// `c`: the constant is multiplied by `d^q`.
pub open spec fn mac_add_const(m: int, q: nat, c: int, d: int, plus: bool) -> int {
    comb_at(m, c * pow(d, q), plus)
}

/// The field element -2.
pub open spec fn minus_two() -> int {
    pp() - 2
}

/// The prover's polynomial for the XOR of two bits `a` and `b`: `a + b - 2ab`, built as
/// `a + b` first and then plus `-2ab`.
pub open spec fn hd_xor(a: Seq<int>, aq: nat, b: Seq<int>, bq: nat) -> Seq<int> {
    hd_comb(
        hd_comb(a, aq, b, bq, true),
        top(aq, bq),
        pscale(minus_two(), pmul(a, b)),
        aq + bq,
        true,
    )
}

/// The degree of the XOR of values of degrees `aq` and `bq`.
pub open spec fn xor_degree(aq: nat, bq: nat) -> nat {
    top(top(aq, bq), aq + bq)
}

/// The verifier's MAC for the XOR of two bits.
pub open spec fn mac_xor(m: int, mq: nat, o: int, oq: nat, d: int) -> int {
    mac_comb(
        mac_comb(m, mq, o, oq, d, true),
        top(mq, oq),
        ((m * o) % pp() * minus_two()) % pp(),
        mq + oq,
        d,
        true,
    )
}

/// The prover's polynomial for `a (a - 1) (a - 2) ... (a - (n - 1))`, where `a` has
/// degree one; it has degree `n`.
pub open spec fn range_poly(a: Seq<int>, n: nat) -> Seq<int>
    decreases n,
{
    if n <= 1 {
        a
    } else {
        pmul(range_poly(a, (n - 1) as nat), hd_add_const(a, 1, n - 1, false))
    }
}

/// The verifier's MAC for `a (a - 1) (a - 2) ... (a - (n - 1))`.
pub open spec fn range_mac(m: int, d: int, n: nat) -> int
    decreases n,
{
    if n <= 1 {
        m
    } else {
        (range_mac(m, d, (n - 1) as nat) * mac_add_const(m, 1, n - 1, d, false)) % pp()
    }
}

proof fn lemma_comb_congr(x: int, x2: int, y: int, y2: int, plus: bool)
    requires
        x % pp() == x2 % pp(),
        y % pp() == y2 % pp(),
    ensures
        comb_at(x, y, plus) == comb_at(x2, y2, plus),
{
    if plus {
        lemma_mod_add_congr(x, x2, y, y2);
    } else {
        lemma_mod_sub_congr(x, x2, y, y2);
    }
}

/// Combining two prover polynomials and combining the verifier's MACs of them agree:
/// if each MAC is its polynomial evaluated at `d`, so is the combined MAC.
pub proof fn lemma_hd_comb_consistent(a: Seq<int>, aq: nat, b: Seq<int>, bq: nat, d: int, plus: bool)
    requires
        pzero_from(a, (aq + 1) as int),
        pzero_from(b, (bq + 1) as int),
    ensures
        peval(hd_comb(a, aq, b, bq, plus), d) % pp() == mac_comb(
            peval(a, d) % pp(),
            aq,
            peval(b, d) % pp(),
            bq,
            d,
            plus,
        ),
{
    let q = top(aq, bq);
    let ka = (q - aq) as nat;
    let kb = (q - bq) as nat;
    let sa = pshift(a, ka);
    let sb = pshift(b, kb);
    let c = hd_comb(a, aq, b, bq, plus);
    let s = if plus {
        padd(sa, sb)
    } else {
        psub(sa, sb)
    };
    assert forall|i: int| q + 1 <= i < sa.len() implies #[trigger] sa[i] == 0 by {
        assert(a[i - ka] == 0);
    }
    assert forall|i: int| q + 1 <= i < sb.len() implies #[trigger] sb[i] == 0 by {
        assert(b[i - kb] == 0);
    }
    assert(c =~= Seq::new(q + 1, |i: int| pc(s, i))) by {
        assert forall|i: int| 0 <= i < q + 1 implies #[trigger] c[i] == pc(s, i) by {
            if i >= maxlen(sa, sb) {
                assert(pc(sa, i) == 0 && pc(sb, i) == 0);
            }
        }
    }
    assert(pzero_from(s, (q + 1) as int)) by {
        assert forall|i: int| q + 1 <= i < s.len() implies #[trigger] s[i] == 0 by {
            assert(pc(sa, i) == 0 && pc(sb, i) == 0);
        }
    }
    lemma_peval_resize(s, q + 1, d);
    lemma_peval_shift(a, ka, d);
    lemma_peval_shift(b, kb, d);
    let ea = peval(a, d);
    let eb = peval(b, d);
    if plus {
        lemma_peval_add(sa, sb, d);
    } else {
        lemma_peval_sub(sa, sb, d);
    }
    lemma_mul_is_commutative(pow(d, ka), ea);
    lemma_mul_is_commutative(pow(d, kb), eb);
    lemma_mul_mod_noop_left(ea, pow(d, ka), pp());
    lemma_mul_mod_noop_left(eb, pow(d, kb), pp());
    lemma_comb_congr(ea * pow(d, ka), (ea % pp()) * pow(d, ka), eb * pow(d, kb), (eb % pp()) * pow(d, kb), plus);
}

/// The authenticated value of a combination is the combination of the values.
pub proof fn lemma_hd_comb_value(a: Seq<int>, aq: nat, b: Seq<int>, bq: nat, plus: bool)
    ensures
        pc(hd_comb(a, aq, b, bq, plus), top(aq, bq) as int) == comb_at(pc(a, aq as int), pc(b, bq as int), plus),
{
}

/// Multiplying the prover's polynomials and multiplying the MACs agree.
pub proof fn lemma_hd_mul_consistent(a: Seq<int>, b: Seq<int>, d: int)
    ensures
        peval(pmul(a, b), d) % pp() == ((peval(a, d) % pp()) * (peval(b, d) % pp())) % pp(),
{
    lemma_peval_mul(a, b, d);
    lemma_mul_mod_noop(peval(a, d), peval(b, d), pp());
}

/// The authenticated value of a product is the product of the values, and the product
/// is well-formed at the sum of the degrees.
pub proof fn lemma_hd_mul_value(a: Seq<int>, aq: nat, b: Seq<int>, bq: nat)
    requires
        pzero_from(a, (aq + 1) as int),
        pzero_from(b, (bq + 1) as int),
        b.len() > 0,
    ensures
        pc(pmul(a, b), (aq + bq) as int) == (pc(a, aq as int) * pc(b, bq as int)) % pp(),
        pzero_from(pmul(a, b), (aq + bq + 1) as int),
{
    lemma_pmul_coeff_top(a, b, aq as int, bq as int);
    lemma_pmul_zero_from(a, b, aq as int, bq as int);
}

/// Multiplying the prover's polynomial by a public constant and multiplying the MAC by it
/// agree.
pub proof fn lemma_hd_scale_consistent(c: int, a: Seq<int>, d: int)
    ensures
        peval(pscale(c, a), d) % pp() == ((peval(a, d) % pp()) * c) % pp(),
{
    lemma_peval_scale(c, a, d);
    lemma_mul_mod_noop_left(peval(a, d), c, pp());
    lemma_mul_is_commutative(c, peval(a, d));
}

/// Adding a public constant on both sides agrees.
pub proof fn lemma_hd_add_const_consistent(a: Seq<int>, q: nat, c: int, d: int, plus: bool)
    requires
        pzero_from(a, (q + 1) as int),
        preduced(a),
    ensures
        peval(hd_add_const(a, q, c, plus), d) % pp() == mac_add_const(peval(a, d) % pp(), q, c, d, plus),
{
    let b = pshift(seq![c], q);
    assert(hd_add_const(a, q, c, plus) =~= hd_comb(a, q, b, q, plus)) by {
        assert(pshift(a, 0) =~= a);
        assert(pshift(b, 0) =~= b);
        assert forall|i: int| 0 <= i < q + 1 && i != q implies #[trigger] pc(a, i) == comb_at(pc(a, i), pc(b, i), plus) by {
            assert(pc(b, i) == 0);
            if i < a.len() {
                lemma_small_mod(a[i] as nat, pp() as nat);
            }
        }
    }
    lemma_hd_comb_consistent(a, q, b, q, d, plus);
    lemma_peval_shift(seq![c], q, d);
    assert(peval(seq![c], d) == c) by {
        crate::poly61::lemma_peval_unfold(seq![c], d);
        assert(crate::poly61::pdrop(seq![c]) =~= Seq::<int>::empty());
        assert(peval(Seq::<int>::empty(), d) == 0);
        assert(d * 0 == 0);
    }
    lemma_pow0(d);
    let ea = peval(a, d) % pp();
    lemma_mul_basics(ea);
    let eb = peval(b, d);
    lemma_mul_basics(eb % pp());
    lemma_mul_is_commutative(pow(d, q), c);
    lemma_mod_twice(eb, pp());
    lemma_mod_twice(peval(a, d), pp());
    lemma_comb_congr(ea, ea, eb % pp(), c * pow(d, q), plus);
}

/// The XOR on the prover's side and on the verifier's side agree.
pub proof fn lemma_hd_xor_consistent(a: Seq<int>, aq: nat, b: Seq<int>, bq: nat, d: int)
    requires
        pzero_from(a, (aq + 1) as int),
        pzero_from(b, (bq + 1) as int),
        b.len() > 0,
    ensures
        peval(hd_xor(a, aq, b, bq), d) % pp() == mac_xor(peval(a, d) % pp(), aq, peval(b, d) % pp(), bq, d),
{
    let s = hd_comb(a, aq, b, bq, true);
    let t = pscale(minus_two(), pmul(a, b));
    lemma_hd_comb_consistent(a, aq, b, bq, d, true);
    lemma_hd_mul_value(a, aq, b, bq);
    assert(pzero_from(s, (top(aq, bq) + 1) as int));
    assert(pzero_from(t, (aq + bq + 1) as int)) by {
        assert forall|i: int| aq + bq + 1 <= i < t.len() implies #[trigger] t[i] == 0 by {
            assert(pmul(a, b)[i] == 0);
            lemma_mul_by_zero_is_zero(minus_two());
        }
    }
    lemma_hd_comb_consistent(s, top(aq, bq), t, aq + bq, d, true);
    lemma_hd_scale_consistent(minus_two(), pmul(a, b), d);
    lemma_hd_mul_consistent(a, b, d);
    lemma_mod_twice(peval(s, d), pp());
    lemma_mod_twice(peval(t, d), pp());
}

/// A value of degree one, minus each of `0 .. n` in turn, multiplied together: the
/// product on the prover's side and on the verifier's side agree.
pub proof fn lemma_hd_range_consistent(a: Seq<int>, n: nat, d: int)
    requires
        pzero_from(a, 2),
        preduced(a),
        n >= 1,
    ensures
        peval(range_poly(a, n), d) % pp() == range_mac(peval(a, d) % pp(), d, n),
        pzero_from(range_poly(a, n), (n + 1) as int),
    decreases n,
{
    if n == 1 {
        lemma_mod_twice(peval(a, d), pp());
    } else {
        let r = range_poly(a, (n - 1) as nat);
        let t = hd_add_const(a, 1, n - 1, false);
        lemma_hd_range_consistent(a, (n - 1) as nat, d);
        lemma_hd_add_const_consistent(a, 1, n - 1, d, false);
        lemma_hd_mul_consistent(r, t, d);
        lemma_mod_twice(peval(r, d), pp());
        lemma_hd_mul_value(r, (n - 1) as nat, t, 1);
    }
}

/// The product `a (a - 1) ... (a - (n - 1))` has value zero when the value of `a` is
/// one of `0 .. n`.
pub proof fn lemma_hd_range_value(a: Seq<int>, n: nat)
    requires
        pzero_from(a, 2),
        preduced(a),
        n >= 1,
        pc(a, 1) < n,
    ensures
        pc(range_poly(a, n), n as int) == 0,
    decreases n,
{
    if n == 1 {
    } else {
        let r = range_poly(a, (n - 1) as nat);
        let t = hd_add_const(a, 1, n - 1, false);
        lemma_hd_range_consistent(a, (n - 1) as nat, 0);
        lemma_hd_mul_value(r, (n - 1) as nat, t, 1);
        if pc(a, 1) < n - 1 {
            lemma_hd_range_value(a, (n - 1) as nat);
            lemma_mul_by_zero_is_zero(pc(t, 1));
        } else {
            assert(pc(t, 1) == 0);
            lemma_mul_by_zero_is_zero(pc(r, n - 1));
        }
    }
}

/// A value authenticated on the prover's side: a polynomial in the verifier's key.
#[derive(Clone, Debug, PartialEq, Eq)]
pub struct HDMacProver {
    /// The polynomial whose value at the key is the verifier's MAC.
    pub poly: GeneralPolynomial,
    /// The degree of the polynomial in the key.
    pub qs_degree: usize,
}

impl HDMacProver {
    /// Well-formed: the degree is at least one and no coefficient lies above it.
    pub open spec fn wf(&self) -> bool {
        &&& 1 <= self.qs_degree < usize::MAX
        &&& pzero_from(self.poly.coeffs(), (self.qs_degree + 1) as int)
    }

    /// The authenticated value: the coefficient at the degree.
    pub open spec fn value_spec(&self) -> int {
        pc(self.poly.coeffs(), self.qs_degree as int)
    }

    /// The authenticated value.
    pub fn value(&self) -> (r: F61p)
        ensures
            r.val() == self.value_spec(),
    {
        if self.qs_degree > self.poly.degree() {
            F61p::zero()
        } else {
            self.poly.get(self.qs_degree)
        }
    }

    /// The degree in the verifier's key.
    pub fn degree(&self) -> (r: usize)
        requires
            self.wf(),
        ensures
            r == self.qs_degree,
    {
        self.qs_degree
    }

    /// A public constant, authenticated with the verifier's MAC `delta * x`.
    pub fn new_constant(x: F61p) -> (r: HDMacProver)
        ensures
            r.wf(),
            r.qs_degree == 1,
            r.poly.coeffs() == seq![0int, x.val() as int],
    {
        let mut coefficients: Vec<F61p> = Vec::new();
        coefficients.push(x);
        let r = HDMacProver {
            poly: GeneralPolynomial { constant: F61p::zero(), coefficients },
            qs_degree: 1,
        };
        assert(r.poly.coeffs() =~= seq![0int, x.val() as int]);
        r
    }

    /// The prover's side of a value `value` committed with the MAC `mac`, where the
    /// verifier's key is `mac + delta * value`: the polynomial `-mac + value * delta`.
    pub fn from_mac(value: F61p, mac: F61p) -> (r: HDMacProver)
        ensures
            r.wf(),
            r.qs_degree == 1,
            r.poly.coeffs() == seq![(pp() - mac.val()) % pp(), value.val() as int],
    {
        let mut coefficients: Vec<F61p> = Vec::new();
        coefficients.push(value);
        let r = HDMacProver {
            poly: GeneralPolynomial { constant: mac.neg(), coefficients },
            qs_degree: 1,
        };
        assert(r.poly.coeffs() =~= seq![(pp() - mac.val()) % pp(), value.val() as int]);
        r
    }

    /// An equal copy.
    pub(crate) fn duplicate(&self) -> (r: HDMacProver)
        ensures
            r.poly.coeffs() == self.poly.coeffs(),
            r.poly.coefficients.len() == self.poly.coefficients.len(),
            r.qs_degree == self.qs_degree,
    {
        HDMacProver { poly: self.poly.duplicate(), qs_degree: self.qs_degree }
    }

    fn add_sub_assign_impl(&mut self, other: &HDMacProver, plus: bool)
        requires
            old(self).wf(),
            other.wf(),
        ensures
            final(self).wf(),
            final(self).qs_degree == top(old(self).qs_degree as nat, other.qs_degree as nat),
            final(self).poly.coeffs() == hd_comb(
                old(self).poly.coeffs(),
                old(self).qs_degree as nat,
                other.poly.coeffs(),
                other.qs_degree as nat,
                plus,
            ),
    {
        let ghost a = self.poly.coeffs();
        let ghost b = other.poly.coeffs();
        let aq = self.qs_degree;
        let bq = other.qs_degree;
        let q = if bq > aq {
            bq
        } else {
            aq
        };
        let ghost target = hd_comb(a, aq as nat, b, bq as nat, plus);
        let ghost sa = pshift(a, (q - aq) as nat);
        let ghost sb = pshift(b, (q - bq) as nat);
        let v0 = self.poly.to_vec();
        let v1 = vec_resize(&v0, aq + 1);
        assert(vals(v1@).len() == v1.len());
        let mut v = vec_shift(&v1, q - aq);
        proof {
            assert(vals(v@).len() == v.len());
            lemma_f61p_val_bound(self.poly.constant);
            lemma_vals_reduced(self.poly.coefficients@);
            assert forall|j: int| 0 <= j < q + 1 implies #[trigger] vals(v@)[j] == pc(sa, j) by {
                if j >= q - aq {
                    assert(vals(v1@)[j - (q - aq)] == pc(a, j - (q - aq)));
                }
            }
        }
        let offset = q - bq;
        let ob = other.poly.to_vec();
        let dg = other.poly.degree();
        proof {
            assert(dg <= bq) by {
                if dg > bq {
                    assert(b[dg as int] == 0);
                }
            }
        }
        let mut i: usize = 0;
        while i <= dg
            invariant
                dg <= bq,
                offset + bq == q,
                q < usize::MAX,
                dg < ob.len(),
                vals(ob@) == b,
                v.len() == q + 1,
                preduced(a),
                pzero_from(b, (dg + 1) as int),
                sa == pshift(a, (q - aq) as nat),
                sb == pshift(b, (q - bq) as nat),
                target == hd_comb(a, aq as nat, b, bq as nat, plus),
                target.len() == q + 1,
                forall|j: int|
                    0 <= j < q + 1 ==> #[trigger] vals(v@)[j] == if offset <= j < offset + i {
                        target[j]
                    } else {
                        pc(sa, j)
                    },
            decreases dg + 1 - i,
        {
            let x = v[offset + i];
            let y = ob[i];
            let z = if plus {
                x.add(&y)
            } else {
                let z = x.sub(&y);
                proof {
                    lemma_mod_add_multiples_vanish(x.val() - y.val(), pp());
                }
                z
            };
            proof {
                assert(vals(v@)[offset + i] == x.val());
                assert(vals(ob@)[i as int] == y.val());
                assert(pc(sb, (offset + i) as int) == pc(b, i as int));
            }
            let ghost vprev = v@;
            v.set(offset + i, z);
            proof {
                assert forall|j: int| 0 <= j < q + 1 implies #[trigger] vals(v@)[j] == if offset <= j < offset + i + 1 {
                    target[j]
                } else {
                    pc(sa, j)
                } by {
                    if j != offset + i {
                        assert(v@[j] == vprev[j]);
                        assert(vals(vprev)[j] == vprev[j].val());
                    }
                }
            }
            i = i + 1;
        }
        proof {
            assert forall|j: int| 0 <= j < q + 1 implies #[trigger] vals(v@)[j] == target[j] by {
                if !(offset <= j < offset + i) {
                    assert(pc(sb, j) == 0);
                    let x = pc(sa, j);
                    assert(0 <= x < pp()) by {
                        if j >= q - aq && j - (q - aq) < a.len() {
                            assert(a[j - (q - aq)] < pp());
                        }
                    }
                    lemma_small_mod(x as nat, pp() as nat);
                }
            }
            assert(vals(v@) =~= target);
        }
        self.poly = GeneralPolynomial::from_vec(v);
        self.qs_degree = q;
    }

    /// Adds `other`, lifting the one of lower degree by a power of the key.
    pub fn add_assign(&mut self, other: &HDMacProver)
        requires
            old(self).wf(),
            other.wf(),
        ensures
            final(self).wf(),
            final(self).qs_degree == top(old(self).qs_degree as nat, other.qs_degree as nat),
            final(self).poly.coeffs() == hd_comb(
                old(self).poly.coeffs(),
                old(self).qs_degree as nat,
                other.poly.coeffs(),
                other.qs_degree as nat,
                true,
            ),
    {
        self.add_sub_assign_impl(other, true)
    }

    /// Subtracts `other`, lifting the one of lower degree by a power of the key.
    pub fn sub_assign(&mut self, other: &HDMacProver)
        requires
            old(self).wf(),
            other.wf(),
        ensures
            final(self).wf(),
            final(self).qs_degree == top(old(self).qs_degree as nat, other.qs_degree as nat),
            final(self).poly.coeffs() == hd_comb(
                old(self).poly.coeffs(),
                old(self).qs_degree as nat,
                other.poly.coeffs(),
                other.qs_degree as nat,
                false,
            ),
    {
        self.add_sub_assign_impl(other, false)
    }

    fn add_sub_assign_constant_impl(&mut self, other: F61p, plus: bool)
        requires
            old(self).wf(),
        ensures
            final(self).wf(),
            final(self).qs_degree == old(self).qs_degree,
            final(self).poly.coeffs() == hd_add_const(
                old(self).poly.coeffs(),
                old(self).qs_degree as nat,
                other.val() as int,
                plus,
            ),
    {
        let ghost a = self.poly.coeffs();
        let q = self.qs_degree;
        let v0 = self.poly.to_vec();
        let mut v = vec_resize(&v0, q + 1);
        assert(vals(v@).len() == v.len());
        let x = v[q];
        let z = if plus {
            x.add(&other)
        } else {
            let z = x.sub(&other);
            proof {
                lemma_mod_add_multiples_vanish(x.val() - other.val(), pp());
            }
            z
        };
        proof {
            assert(vals(v@)[q as int] == x.val());
        }
        let ghost vprev = v@;
        v.set(q, z);
        proof {
            assert(vals(v@) =~= hd_add_const(a, q as nat, other.val() as int, plus)) by {
                assert forall|j: int| 0 <= j < q + 1 implies #[trigger] vals(v@)[j] == hd_add_const(a, q as nat, other.val() as int, plus)[j] by {
                    if j != q {
                        assert(v@[j] == vprev[j]);
                        assert(vals(vprev)[j] == vprev[j].val());
                    }
                }
            }
        }
        self.poly = GeneralPolynomial::from_vec(v);
    }

    /// Adds a public constant.
    pub fn add_assign_constant(&mut self, other: F61p)
        requires
            old(self).wf(),
        ensures
            final(self).wf(),
            final(self).qs_degree == old(self).qs_degree,
            final(self).poly.coeffs() == hd_add_const(
                old(self).poly.coeffs(),
                old(self).qs_degree as nat,
                other.val() as int,
                true,
            ),
    {
        self.add_sub_assign_constant_impl(other, true)
    }

    /// Subtracts a public constant.
    pub fn sub_assign_constant(&mut self, other: F61p)
        requires
            old(self).wf(),
        ensures
            final(self).wf(),
            final(self).qs_degree == old(self).qs_degree,
            final(self).poly.coeffs() == hd_add_const(
                old(self).poly.coeffs(),
                old(self).qs_degree as nat,
                other.val() as int,
                false,
            ),
    {
        self.add_sub_assign_constant_impl(other, false)
    }

    /// Multiplies by `other`: the polynomials are multiplied and the degrees add up.
    pub fn mul_assign(&mut self, other: &HDMacProver)
        requires
            old(self).wf(),
            other.wf(),
            old(self).qs_degree + other.qs_degree < usize::MAX,
            old(self).poly.coefficients.len() + other.poly.coefficients.len() + 2 <= usize::MAX,
        ensures
            final(self).wf(),
            final(self).qs_degree == old(self).qs_degree + other.qs_degree,
            final(self).poly.coeffs() == pmul(old(self).poly.coeffs(), other.poly.coeffs()),
    {
        proof {
            lemma_hd_mul_value(
                self.poly.coeffs(),
                self.qs_degree as nat,
                other.poly.coeffs(),
                other.qs_degree as nat,
            );
        }
        self.poly.mul_assign(&other.poly);
        self.qs_degree = self.qs_degree + other.qs_degree;
    }

    /// Multiplies by a public constant.
    pub fn mul_assign_constant(&mut self, other: F61p)
        ensures
            final(self).qs_degree == old(self).qs_degree,
            final(self).poly.coeffs() == pscale(other.val() as int, old(self).poly.coeffs()),
            old(self).wf() ==> final(self).wf(),
    {
        let ghost a = self.poly.coeffs();
        self.poly.mul_assign_scalar(other);
        proof {
            let s = pscale(other.val() as int, a);
            assert forall|i: int| self.qs_degree + 1 <= i < s.len() && pzero_from(a, (self.qs_degree + 1) as int) implies #[trigger] s[i] == 0 by {
                lemma_mul_by_zero_is_zero(other.val() as int);
            }
        }
    }

    /// XOR of two authenticated bits: `self + other - 2 * self * other`.
    pub fn xor_assign(&mut self, other: &HDMacProver)
        requires
            old(self).wf(),
            other.wf(),
            old(self).qs_degree + other.qs_degree < usize::MAX,
            old(self).poly.coefficients.len() + other.poly.coefficients.len() + 2 <= usize::MAX,
        ensures
            final(self).wf(),
            final(self).qs_degree == xor_degree(old(self).qs_degree as nat, other.qs_degree as nat),
            final(self).poly.coeffs() == hd_xor(
                old(self).poly.coeffs(),
                old(self).qs_degree as nat,
                other.poly.coeffs(),
                other.qs_degree as nat,
            ),
    {
        let mut t = self.duplicate();
        t.mul_assign(other);
        let one = F61p::one();
        let m1 = one.neg();
        let m2 = m1.add(&m1);
        proof {
            assert(m2.val() == minus_two());
        }
        t.mul_assign_constant(m2);
        self.add_assign(other);
        self.add_assign(&t);
    }
}

impl Default for HDMacProver {
    /// Zero, of degree one.
    fn default() -> (r: HDMacProver)
        ensures
            r.wf(),
            r.qs_degree == 1,
            r.poly.coeffs() == seq![0int],
    {
        HDMacProver { poly: GeneralPolynomial::zero(), qs_degree: 1 }
    }
}


/// Multiplying `m * d^j` by `d` once more, modulo the prime.
proof fn lemma_times_key(m: int, d: int, j: nat)
    ensures
        ((m * pow(d, j)) % pp() * d) % pp() == (m * pow(d, j + 1)) % pp(),
{
    lemma_mul_mod_noop_left(m * pow(d, j), d, pp());
    lemma_pow_adds(d, j, 1);
    lemma_pow1(d);
    assert(m * pow(d, j) * d == m * (pow(d, j) * d)) by (nonlinear_arith);
}

/// `x * d^0` is `x`.
proof fn lemma_times_key0(x: int, d: int)
    ensures
        x * pow(d, 0) == x,
{
    lemma_pow0(d);
    lemma_mul_basics(x);
}

/// Multiplies `x` by `delta` `k` times.
fn times_key(x: F61p, delta: F61p, k: usize) -> (r: F61p)
    ensures
        r.val() == (x.val() * pow(delta.val() as int, k as nat)) % pp(),
{
    let mut r = x;
    let mut j: usize = 0;
    proof {
        lemma_times_key0(x.val() as int, delta.val() as int);
        lemma_f61p_val_bound(x);
        lemma_small_mod(x.val(), p61());
    }
    while j < k
        invariant
            j <= k,
            r.val() == (x.val() * pow(delta.val() as int, j as nat)) % pp(),
        decreases k - j,
    {
        r.mul_assign(&delta);
        proof {
            lemma_times_key(x.val() as int, delta.val() as int, j as nat);
        }
        j = j + 1;
    }
    r
}

/// `x + y` or `x - y` of two field elements.
fn comb_elems(x: F61p, y: F61p, plus: bool) -> (r: F61p)
    ensures
        r.val() == comb_at(x.val() as int, y.val() as int, plus),
{
    if plus {
        x.add(&y)
    } else {
        let r = x.sub(&y);
        proof {
            lemma_mod_add_multiples_vanish(x.val() - y.val(), pp());
        }
        r
    }
}

/// A value authenticated on the verifier's side: the prover's polynomial evaluated at
/// the verifier's key.
#[derive(Clone, Copy, Debug, PartialEq, Eq, Structural)]
pub struct HDMacVerifier {
    /// The MAC.
    pub mac: F61p,
    /// The degree in the key.
    pub qs_degree: usize,
}

impl HDMacVerifier {
    /// The degree in the key.
    pub fn degree(&self) -> (r: usize)
        requires
            self.qs_degree > 0,
        ensures
            r == self.qs_degree,
    {
        self.qs_degree
    }

    /// A public constant: MAC `delta * x`, degree one.
    pub fn new_constant(delta: F61p, x: F61p) -> (r: HDMacVerifier)
        ensures
            r.mac.val() == (delta.val() * x.val()) % p61(),
            r.qs_degree == 1,
    {
        HDMacVerifier { mac: delta.mul(&x), qs_degree: 1 }
    }

    /// The verifier's side of a value committed with the key `key`: MAC `-key`, degree
    /// one.
    pub fn from_mac(key: F61p) -> (r: HDMacVerifier)
        ensures
            r.mac.val() == (pp() - key.val()) % pp(),
            r.qs_degree == 1,
    {
        HDMacVerifier { mac: key.neg(), qs_degree: 1 }
    }

    fn add_sub_assign_impl(&mut self, delta: F61p, other: &HDMacVerifier, plus: bool)
        ensures
            final(self).qs_degree == top(old(self).qs_degree as nat, other.qs_degree as nat),
            final(self).mac.val() == mac_comb(
                old(self).mac.val() as int,
                old(self).qs_degree as nat,
                other.mac.val() as int,
                other.qs_degree as nat,
                delta.val() as int,
                plus,
            ),
    {
        let ghost m = self.mac.val() as int;
        let ghost o = other.mac.val() as int;
        let ghost d = delta.val() as int;
        if other.qs_degree >= self.qs_degree {
            let k = other.qs_degree - self.qs_degree;
            let lifted = times_key(self.mac, delta, k);
            self.mac = comb_elems(lifted, other.mac, plus);
            proof {
                lemma_mod_twice(m * pow(d, k as nat), pp());
                lemma_times_key0(o, d);
                lemma_comb_congr(lifted.val() as int, m * pow(d, k as nat), o, o * pow(d, 0), plus);
            }
            self.qs_degree = other.qs_degree;
        } else {
            let k = self.qs_degree - other.qs_degree;
            let tmp = times_key(other.mac, delta, k);
            self.mac = comb_elems(self.mac, tmp, plus);
            proof {
                lemma_mod_twice(o * pow(d, k as nat), pp());
                lemma_times_key0(m, d);
                lemma_comb_congr(m, m * pow(d, 0), tmp.val() as int, o * pow(d, k as nat), plus);
            }
        }
    }

    /// Adds `other`, lifting the one of lower degree by a power of `delta`.
    pub fn add_assign(&mut self, delta: F61p, other: &HDMacVerifier)
        ensures
            final(self).qs_degree == top(old(self).qs_degree as nat, other.qs_degree as nat),
            final(self).mac.val() == mac_comb(
                old(self).mac.val() as int,
                old(self).qs_degree as nat,
                other.mac.val() as int,
                other.qs_degree as nat,
                delta.val() as int,
                true,
            ),
    {
        self.add_sub_assign_impl(delta, other, true)
    }

    /// Subtracts `other`, lifting the one of lower degree by a power of `delta`.
    pub fn sub_assign(&mut self, delta: F61p, other: &HDMacVerifier)
        ensures
            final(self).qs_degree == top(old(self).qs_degree as nat, other.qs_degree as nat),
            final(self).mac.val() == mac_comb(
                old(self).mac.val() as int,
                old(self).qs_degree as nat,
                other.mac.val() as int,
                other.qs_degree as nat,
                delta.val() as int,
                false,
            ),
    {
        self.add_sub_assign_impl(delta, other, false)
    }

    /// Adds a public constant, multiplied by `delta` to the power of the degree.
    pub fn add_assign_constant(&mut self, delta: F61p, other: F61p)
        ensures
            final(self).qs_degree == old(self).qs_degree,
            final(self).mac.val() == mac_add_const(
                old(self).mac.val() as int,
                old(self).qs_degree as nat,
                other.val() as int,
                delta.val() as int,
                true,
            ),
    {
        let ghost m = self.mac.val() as int;
        let t = times_key(other, delta, self.qs_degree);
        self.mac = comb_elems(self.mac, t, true);
        proof {
            let c = other.val() as int * pow(delta.val() as int, self.qs_degree as nat);
            lemma_mod_twice(c, pp());
            lemma_comb_congr(m, m, t.val() as int, c, true);
        }
    }

    /// Subtracts a public constant, multiplied by `delta` to the power of the degree.
    pub fn sub_assign_constant(&mut self, delta: F61p, other: F61p)
        ensures
            final(self).qs_degree == old(self).qs_degree,
            final(self).mac.val() == mac_add_const(
                old(self).mac.val() as int,
                old(self).qs_degree as nat,
                other.val() as int,
                delta.val() as int,
                false,
            ),
    {
        let ghost m = self.mac.val() as int;
        let t = times_key(other, delta, self.qs_degree);
        self.mac = comb_elems(self.mac, t, false);
        proof {
            let c = other.val() as int * pow(delta.val() as int, self.qs_degree as nat);
            lemma_mod_twice(c, pp());
            lemma_comb_congr(m, m, t.val() as int, c, false);
        }
    }

    /// Multiplies by `other`: the MACs are multiplied and the degrees add up.
    pub fn mul_assign(&mut self, other: &HDMacVerifier)
        requires
            old(self).qs_degree + other.qs_degree <= usize::MAX,
        ensures
            final(self).qs_degree == old(self).qs_degree + other.qs_degree,
            final(self).mac.val() == (old(self).mac.val() * other.mac.val()) % p61(),
    {
        self.mac.mul_assign(&other.mac);
        self.qs_degree = self.qs_degree + other.qs_degree;
    }

    /// Multiplies by a public constant.
    pub fn mul_assign_constant(&mut self, other: F61p)
        ensures
            final(self).qs_degree == old(self).qs_degree,
            final(self).mac.val() == (old(self).mac.val() * other.val()) % p61(),
    {
        self.mac.mul_assign(&other);
    }

    /// XOR of two authenticated bits: `self + other - 2 * self * other`.
    pub fn xor_assign(&mut self, delta: F61p, other: &HDMacVerifier)
        requires
            old(self).qs_degree + other.qs_degree <= usize::MAX,
        ensures
            final(self).qs_degree == xor_degree(old(self).qs_degree as nat, other.qs_degree as nat),
            final(self).mac.val() == mac_xor(
                old(self).mac.val() as int,
                old(self).qs_degree as nat,
                other.mac.val() as int,
                other.qs_degree as nat,
                delta.val() as int,
            ),
    {
        let mut t = *self;
        t.mul_assign(other);
        let one = F61p::one();
        let m1 = one.neg();
        let m2 = m1.add(&m1);
        proof {
            assert(m2.val() == minus_two());
        }
        t.mul_assign_constant(m2);
        self.add_assign(delta, other);
        self.add_assign(delta, &t);
    }
}

impl Default for HDMacVerifier {
    /// Zero, of degree one.
    fn default() -> (r: HDMacVerifier)
        ensures
            r.mac.val() == 0,
            r.qs_degree == 1,
    {
        HDMacVerifier { mac: F61p::zero(), qs_degree: 1 }
    }
}


/// Feeding corresponding values to the prover's and the verifier's zero check keeps
/// their accumulators consistent: the verifier's accumulated MAC stays the prover's
/// accumulated polynomial evaluated at the key.
pub proof fn lemma_qs_check_zero_consistent(
    state: Seq<int>,
    sq: nat,
    mac: int,
    mp: Seq<int>,
    mq: nat,
    mv: int,
    chi: int,
    d: int,
)
    requires
        pzero_from(state, (sq + 1) as int),
        pzero_from(mp, (mq + 1) as int),
        peval(state, d) % pp() == mac,
        peval(mp, d) % pp() == mv,
    ensures
        peval(pscale(chi, hd_comb(state, sq, mp, mq, true)), d) % pp() == (mac_comb(mac, sq, mv, mq, d, true) * chi) % pp(),
{
    let c = hd_comb(state, sq, mp, mq, true);
    lemma_hd_comb_consistent(state, sq, mp, mq, d, true);
    lemma_hd_scale_consistent(chi, c, d);
}

/// Completeness of the zero check: when the prover's accumulated polynomial has a zero
/// coefficient at its degree `q` (every checked value was zero) and the verifier's
/// accumulated MAC is that polynomial at the key, then the proof (the mask plus the
/// polynomial) has degree below `q` and evaluates at the key to the MAC plus the
/// mask's value, whenever the mask has degree below `q`.
pub proof fn lemma_qs_complete(state: Seq<int>, q: nat, mac: int, mask: Seq<int>, d: int)
    requires
        q >= 1,
        pzero_from(state, q as int),
        pzero_from(mask, q as int),
        peval(state, d) % pp() == mac,
    ensures
        pzero_from(padd(mask, state), q as int),
        peval(padd(mask, state), d) % pp() == (mac + peval(mask, d) % pp()) % pp(),
{
    let s = padd(mask, state);
    assert forall|i: int| q <= i < s.len() implies #[trigger] s[i] == 0 by {
        assert(pc(mask, i) == 0 && pc(state, i) == 0);
    }
    lemma_peval_add(mask, state, d);
    lemma_mod_add_congr(peval(mask, d), peval(mask, d) % pp(), peval(state, d), mac);
    lemma_mod_twice(peval(mask, d), pp());
    lemma_mod_twice(peval(state, d), pp());
}

/// The prover's side of the batched zero check: a random linear combination, with
/// powers of `chi`, of all values that were checked.
pub struct QSStateProver {
    chi: F61p,
    state: HDMacProver,
    count: usize,
}

impl QSStateProver {
    /// The challenge.
    pub closed spec fn chi_spec(&self) -> F61p {
        self.chi
    }

    /// The accumulated value.
    pub closed spec fn state_spec(&self) -> HDMacProver {
        self.state
    }

    /// The number of values checked since the last reset.
    pub closed spec fn count_spec(&self) -> nat {
        self.count as nat
    }

    /// Well-formed: the accumulated value is well-formed and its coefficient at its
    /// degree, the combination of the checked values, is zero.
    pub open spec fn wf(&self) -> bool {
        &&& self.state_spec().wf()
        &&& pzero_from(self.state_spec().poly.coeffs(), self.state_spec().qs_degree as int)
    }

    /// A fresh check with challenge `chi`.
    pub fn init_with_chi(chi: F61p) -> (r: QSStateProver)
        ensures
            r.wf(),
            r.chi_spec() == chi,
            r.state_spec().poly.coeffs() == seq![0int],
            r.state_spec().qs_degree == 1,
            r.count_spec() == 0,
    {
        QSStateProver { chi, state: HDMacProver::default(), count: 0 }
    }

    /// The number of values checked since the last reset.
    pub fn count(&self) -> (r: usize)
        ensures
            r == self.count_spec(),
    {
        self.count
    }

    /// The degree of the accumulated value.
    pub fn state_degree(&self) -> (r: usize)
        ensures
            r == self.state_spec().qs_degree,
    {
        self.state.qs_degree
    }

    /// Adds a value that must be zero: the accumulator becomes
    /// `chi * (accumulator + value)`.
    pub fn check_zero(&mut self, mp: &HDMacProver)
        requires
            old(self).wf(),
            mp.wf(),
            mp.value_spec() == 0,
            old(self).count_spec() < usize::MAX,
        ensures
            final(self).wf(),
            final(self).chi_spec() == old(self).chi_spec(),
            final(self).count_spec() == old(self).count_spec() + 1,
            final(self).state_spec().qs_degree == top(
                old(self).state_spec().qs_degree as nat,
                mp.qs_degree as nat,
            ),
            final(self).state_spec().poly.coeffs() == pscale(
                old(self).chi_spec().val() as int,
                hd_comb(
                    old(self).state_spec().poly.coeffs(),
                    old(self).state_spec().qs_degree as nat,
                    mp.poly.coeffs(),
                    mp.qs_degree as nat,
                    true,
                ),
            ),
    {
        let ghost a = self.state.poly.coeffs();
        let ghost aq = self.state.qs_degree as nat;
        self.state.add_assign(mp);
        let ghost c = self.state.poly.coeffs();
        proof {
            lemma_hd_comb_value(a, aq, mp.poly.coeffs(), mp.qs_degree as nat, true);
            assert(pc(c, self.state.qs_degree as int) == 0);
        }
        self.state.mul_assign_constant(self.chi);
        proof {
            let s = self.state.poly.coeffs();
            let q = self.state.qs_degree as int;
            assert forall|i: int| q <= i < s.len() implies #[trigger] s[i] == 0 by {
                assert(c[i] == 0);
                lemma_mul_by_zero_is_zero(self.chi.val() as int);
            }
        }
        self.count = self.count + 1;
    }

    /// Checks a multiplication triple: `a * b - c` must be zero.
    pub fn check_mult(&mut self, mp_a: &HDMacProver, mp_b: &HDMacProver, mp_c: &HDMacProver)
        requires
            old(self).wf(),
            mp_a.wf(),
            mp_b.wf(),
            mp_c.wf(),
            (mp_a.value_spec() * mp_b.value_spec()) % pp() == mp_c.value_spec(),
            mp_a.qs_degree + mp_b.qs_degree < usize::MAX,
            mp_a.poly.coefficients.len() + mp_b.poly.coefficients.len() + 2 <= usize::MAX,
            old(self).count_spec() < usize::MAX,
        ensures
            final(self).wf(),
            final(self).chi_spec() == old(self).chi_spec(),
            final(self).count_spec() == old(self).count_spec() + 1,
            final(self).state_spec().qs_degree == top(
                old(self).state_spec().qs_degree as nat,
                top((mp_a.qs_degree + mp_b.qs_degree) as nat, mp_c.qs_degree as nat),
            ),
            final(self).state_spec().poly.coeffs() == pscale(
                old(self).chi_spec().val() as int,
                hd_comb(
                    old(self).state_spec().poly.coeffs(),
                    old(self).state_spec().qs_degree as nat,
                    hd_comb(
                        pmul(mp_a.poly.coeffs(), mp_b.poly.coeffs()),
                        (mp_a.qs_degree + mp_b.qs_degree) as nat,
                        mp_c.poly.coeffs(),
                        mp_c.qs_degree as nat,
                        false,
                    ),
                    top((mp_a.qs_degree + mp_b.qs_degree) as nat, mp_c.qs_degree as nat),
                    true,
                ),
            ),
    {
        let mut mp = mp_a.duplicate();
        mp.mul_assign(mp_b);
        let ghost m = mp.poly.coeffs();
        mp.sub_assign(mp_c);
        proof {
            let a = mp_a.poly.coeffs();
            let b = mp_b.poly.coeffs();
            assert(b.len() > 0);
            lemma_hd_mul_value(a, mp_a.qs_degree as nat, b, mp_b.qs_degree as nat);
            lemma_hd_comb_value(m, (mp_a.qs_degree + mp_b.qs_degree) as nat, mp_c.poly.coeffs(), mp_c.qs_degree as nat, false);
            lemma_f61p_val_bound(mp_c.poly.constant);
            lemma_vals_reduced(mp_c.poly.coefficients@);
            lemma_small_mod(mp_c.value_spec() as nat, pp() as nat);
        }
        self.check_zero(&mp);
    }

    /// The proof: the mask plus the accumulated polynomial. The check starts afresh.
    pub fn finalize_with_mask(&mut self, mask: GeneralPolynomial) -> (proof: GeneralPolynomial)
        requires
            old(self).wf(),
            pzero_from(mask.coeffs(), old(self).state_spec().qs_degree as int),
        ensures
            proof.coeffs() == padd(mask.coeffs(), old(self).state_spec().poly.coeffs()),
            final(self).wf(),
            final(self).chi_spec() == old(self).chi_spec(),
            final(self).state_spec().poly.coeffs() == seq![0int],
            final(self).state_spec().qs_degree == 1,
            final(self).count_spec() == 0,
    {
        let mut proof = mask;
        proof.add_assign(&self.state.poly);
        self.reset();
        proof
    }

    /// Starts the check afresh, keeping the challenge.
    pub fn reset(&mut self)
        ensures
            final(self).wf(),
            final(self).chi_spec() == old(self).chi_spec(),
            final(self).state_spec().poly.coeffs() == seq![0int],
            final(self).state_spec().qs_degree == 1,
            final(self).count_spec() == 0,
    {
        self.state = HDMacProver::default();
        self.count = 0;
    }

    /// Checks that a value of degree one lies in `0 .. 2^bits`: the product of the value
    /// minus each of `0 .. 2^bits` must be zero. The candidates are distinct field elements
    /// only while `2^bits` stays below the characteristic `2^61 - 1`, so `bits <= 60`.
    pub fn check_pow2_range(&mut self, bits: u32, mp: &HDMacProver)
        requires
            old(self).wf(),
            mp.wf(),
            mp.qs_degree == 1,
            0 < bits <= 60,
            mp.value_spec() < pow2(bits as nat),
            mp.poly.coefficients.len() + pow2(bits as nat) + 2 <= usize::MAX,
            old(self).count_spec() < usize::MAX,
        ensures
            final(self).wf(),
            final(self).chi_spec() == old(self).chi_spec(),
            final(self).count_spec() == old(self).count_spec() + 1,
            final(self).state_spec().qs_degree == top(old(self).state_spec().qs_degree as nat, pow2(bits as nat)),
            final(self).state_spec().poly.coeffs() == pscale(
                old(self).chi_spec().val() as int,
                hd_comb(
                    old(self).state_spec().poly.coeffs(),
                    old(self).state_spec().qs_degree as nat,
                    range_poly(mp.poly.coeffs(), pow2(bits as nat)),
                    pow2(bits as nat),
                    true,
                ),
            ),
    {
        let ghost a = mp.poly.coeffs();
        let n = power_of_two(bits);
        let mut acc = mp.duplicate();
        let mut cst = F61p::zero();
        let one = F61p::one();
        let mut j: usize = 1;
        proof {
            lemma_f61p_val_bound(mp.poly.constant);
            lemma_vals_reduced(mp.poly.coefficients@);
        }
        while j < n
            invariant
                1 <= j <= n,
                n == pow2(bits as nat),
                n <= 0x1000_0000_0000_0000,
                mp.wf(),
                mp.qs_degree == 1,
                a == mp.poly.coeffs(),
                preduced(a),
                mp.poly.coefficients.len() + n + 2 <= usize::MAX,
                acc.wf(),
                acc.qs_degree == j,
                acc.poly.coeffs() == range_poly(a, j as nat),
                acc.poly.coefficients.len() == mp.poly.coefficients.len() + j - 1,
                cst.val() == j - 1,
                one.val() == 1,
            decreases n - j,
        {
            cst.add_assign(&one);
            proof {
                lemma_small_mod(j as nat, p61());
            }
            let mut t = mp.duplicate();
            t.sub_assign_constant(cst);
            proof {
                lemma_pmul_len(acc.poly.coeffs(), t.poly.coeffs());
            }
            acc.mul_assign(&t);
            j = j + 1;
        }
        proof {
            lemma_hd_range_value(a, n as nat);
        }
        self.check_zero(&acc);
    }
}

/// `2^bits`, by doubling.
fn power_of_two(bits: u32) -> (r: usize)
    requires
        bits <= 60,
        pow2(bits as nat) <= usize::MAX,
    ensures
        r == pow2(bits as nat),
        1 <= r <= 0x1000_0000_0000_0000,
{
    let mut r: usize = 1;
    let mut k: u32 = 0;
    proof {
        lemma2_to64();
    }
    while k < bits
        invariant
            k <= bits,
            bits <= 60,
            pow2(bits as nat) <= usize::MAX,
            r == pow2(k as nat),
            1 <= r,
        decreases bits - k,
    {
        proof {
            lemma_pow2_adds(k as nat, 1);
            lemma2_to64();
            if k + 1 < bits {
                lemma_pow2_strictly_increases((k + 1) as nat, bits as nat);
            }
        }
        r = r * 2;
        k = k + 1;
    }
    proof {
        lemma2_to64_rest();
        if k < 60 {
            lemma_pow2_strictly_increases(k as nat, 60);
        }
    }
    r
}

/// The verifier's side of the batched zero check.
pub struct QSStateVerifier {
    delta: F61p,
    chi: F61p,
    state: HDMacVerifier,
    count: usize,
}

impl QSStateVerifier {
    /// The verifier's key.
    pub closed spec fn delta_spec(&self) -> F61p {
        self.delta
    }

    /// The challenge.
    pub closed spec fn chi_spec(&self) -> F61p {
        self.chi
    }

    /// The accumulated MAC.
    pub closed spec fn state_spec(&self) -> HDMacVerifier {
        self.state
    }

    /// The number of values checked since the last reset.
    pub closed spec fn count_spec(&self) -> nat {
        self.count as nat
    }

    /// A fresh check with key `delta` and challenge `chi`.
    pub fn init_with_delta_and_chi(delta: F61p, chi: F61p) -> (r: QSStateVerifier)
        ensures
            r.delta_spec() == delta,
            r.chi_spec() == chi,
            r.state_spec().mac.val() == 0,
            r.state_spec().qs_degree == 1,
            r.count_spec() == 0,
    {
        QSStateVerifier { delta, chi, state: HDMacVerifier::default(), count: 0 }
    }

    /// The number of values checked since the last reset.
    pub fn count(&self) -> (r: usize)
        ensures
            r == self.count_spec(),
    {
        self.count
    }

    /// The degree of the accumulated MAC.
    pub fn state_degree(&self) -> (r: usize)
        ensures
            r == self.state_spec().qs_degree,
    {
        self.state.qs_degree
    }

    /// Adds a value that must be zero: the accumulator becomes
    /// `chi * (accumulator + MAC)`.
    pub fn check_zero(&mut self, mv: &HDMacVerifier)
        requires
            old(self).count_spec() < usize::MAX,
        ensures
            final(self).delta_spec() == old(self).delta_spec(),
            final(self).chi_spec() == old(self).chi_spec(),
            final(self).count_spec() == old(self).count_spec() + 1,
            final(self).state_spec().qs_degree == top(
                old(self).state_spec().qs_degree as nat,
                mv.qs_degree as nat,
            ),
            final(self).state_spec().mac.val() == (mac_comb(
                old(self).state_spec().mac.val() as int,
                old(self).state_spec().qs_degree as nat,
                mv.mac.val() as int,
                mv.qs_degree as nat,
                old(self).delta_spec().val() as int,
                true,
            ) * old(self).chi_spec().val()) % pp(),
    {
        self.state.add_assign(self.delta, mv);
        self.state.mul_assign_constant(self.chi);
        self.count = self.count + 1;
    }

    /// Checks a multiplication triple: `a * b - c` must be zero.
    pub fn check_mult(&mut self, mv_a: &HDMacVerifier, mv_b: &HDMacVerifier, mv_c: &HDMacVerifier)
        requires
            mv_a.qs_degree + mv_b.qs_degree <= usize::MAX,
            old(self).count_spec() < usize::MAX,
        ensures
            final(self).delta_spec() == old(self).delta_spec(),
            final(self).chi_spec() == old(self).chi_spec(),
            final(self).count_spec() == old(self).count_spec() + 1,
            final(self).state_spec().qs_degree == top(
                old(self).state_spec().qs_degree as nat,
                top((mv_a.qs_degree + mv_b.qs_degree) as nat, mv_c.qs_degree as nat),
            ),
            final(self).state_spec().mac.val() == (mac_comb(
                old(self).state_spec().mac.val() as int,
                old(self).state_spec().qs_degree as nat,
                mac_comb(
                    ((mv_a.mac.val() * mv_b.mac.val()) % p61()) as int,
                    (mv_a.qs_degree + mv_b.qs_degree) as nat,
                    mv_c.mac.val() as int,
                    mv_c.qs_degree as nat,
                    old(self).delta_spec().val() as int,
                    false,
                ),
                top((mv_a.qs_degree + mv_b.qs_degree) as nat, mv_c.qs_degree as nat),
                old(self).delta_spec().val() as int,
                true,
            ) * old(self).chi_spec().val()) % pp(),
    {
        let mut mv = *mv_a;
        mv.mul_assign(mv_b);
        mv.sub_assign(self.delta, mv_c);
        self.check_zero(&mv);
    }

    /// Checks that a value of degree one lies in `0 .. 2^bits`, for `0 < bits <= 60` as on
    /// the prover's side, whose product it must match; the accumulated degree `2^bits`
    /// must fit a `usize`.
    pub fn check_pow2_range(&mut self, bits: u32, mv: &HDMacVerifier)
        requires
            0 < bits <= 60,
            pow2(bits as nat) < usize::MAX,
            mv.qs_degree == 1,
            old(self).count_spec() < usize::MAX,
        ensures
            final(self).delta_spec() == old(self).delta_spec(),
            final(self).chi_spec() == old(self).chi_spec(),
            final(self).count_spec() == old(self).count_spec() + 1,
            final(self).state_spec().qs_degree == top(old(self).state_spec().qs_degree as nat, pow2(bits as nat)),
            final(self).state_spec().mac.val() == (mac_comb(
                old(self).state_spec().mac.val() as int,
                old(self).state_spec().qs_degree as nat,
                range_mac(mv.mac.val() as int, old(self).delta_spec().val() as int, pow2(bits as nat)),
                pow2(bits as nat),
                old(self).delta_spec().val() as int,
                true,
            ) * old(self).chi_spec().val()) % pp(),
    {
        let ghost m = mv.mac.val() as int;
        let ghost d = self.delta.val() as int;
        let n = power_of_two(bits);
        let mut acc = *mv;
        let mut cst = F61p::zero();
        let one = F61p::one();
        let mut j: usize = 1;
        while j < n
            invariant
                1 <= j <= n,
                n == pow2(bits as nat),
                n <= 0x1000_0000_0000_0000,
                mv.qs_degree == 1,
                m == mv.mac.val(),
                d == self.delta.val(),
                acc.qs_degree == j,
                acc.mac.val() == range_mac(m, d, j as nat),
                cst.val() == j - 1,
                one.val() == 1,
            decreases n - j,
        {
            cst.add_assign(&one);
            proof {
                lemma_small_mod(j as nat, p61());
            }
            let mut t = *mv;
            t.sub_assign_constant(self.delta, cst);
            acc.mul_assign(&t);
            j = j + 1;
        }
        self.check_zero(&acc);
    }

    /// Verifies a proof against the accumulated MAC and the verifier's share `mask` of
    /// the mask: the proof must have degree below the accumulated degree and evaluate at
    /// the key to the MAC plus the mask. The check starts afresh.
    pub fn finalize_with_mask_and_verify(&mut self, mask: F61p, proof: &GeneralPolynomial) -> (r: bool)
        ensures
            r == (pzero_from(proof.coeffs(), old(self).state_spec().qs_degree as int)
                && old(self).state_spec().qs_degree > 0
                && peval(proof.coeffs(), old(self).delta_spec().val() as int) % pp() == (
                old(self).state_spec().mac.val() + mask.val()) % p61()),
            final(self).delta_spec() == old(self).delta_spec(),
            final(self).chi_spec() == old(self).chi_spec(),
            final(self).state_spec().mac.val() == 0,
            final(self).state_spec().qs_degree == 1,
            final(self).count_spec() == 0,
    {
        let q = self.state.qs_degree;
        let dg = proof.degree();
        let result = if dg < q {
            let e = proof.eval(self.delta);
            let expected = self.state.mac.add(&mask);
            e.to_u128() == expected.to_u128()
        } else {
            false
        };
        proof {
            if dg >= q && q > 0 {
                if pzero_from(proof.coeffs(), q as int) {
                    assert(proof.coeffs()[dg as int] == 0);
                }
            }
        }
        self.reset();
        result
    }

    /// Starts the check afresh, keeping the key and the challenge.
    pub fn reset(&mut self)
        ensures
            final(self).delta_spec() == old(self).delta_spec(),
            final(self).chi_spec() == old(self).chi_spec(),
            final(self).state_spec().mac.val() == 0,
            final(self).state_spec().qs_degree == 1,
            final(self).count_spec() == 0,
    {
        self.state = HDMacVerifier::default();
        self.count = 0;
    }
}


/// The exponent of the smallest power of two that is at least `d`.
pub open spec fn ceil_log2(d: nat) -> nat
    decreases d,
{
    if d <= 1 {
        0
    } else {
        ceil_log2(((d + 1) / 2) as nat) + 1
    }
}

proof fn lemma_ceil_log2(d: nat, m: nat)
    requires
        d >= 1,
        pow2(m) >= d,
        m == 0 || pow2((m - 1) as nat) < d,
    ensures
        m == ceil_log2(d),
    decreases d,
{
    lemma2_to64();
    if d <= 1 {
        if m > 0 {
            lemma_pow2_pos((m - 1) as nat);
        }
    } else {
        assert(m > 0) by {
            if m == 0 {
                assert(pow2(0) == 1);
            }
        }
        let h = ((d + 1) / 2) as nat;
        lemma_pow2_adds((m - 1) as nat, 1);
        if m >= 2 {
            lemma_pow2_adds((m - 2) as nat, 1);
        }
        lemma_ceil_log2(h, (m - 1) as nat);
    }
}

/// The parameters of a range check `lower_bound < x < upper_bound` by a power-of-two
/// range check: the number of bits `m` with `2^m` the smallest power of two that is at
/// least `upper_bound - lower_bound`, the constant `lower_bound` and the constant
/// `2^m - upper_bound - 1`, both as field elements.
pub fn qs_range_check_prepare(lower_bound: i128, upper_bound: i128) -> (r: (u32, F61p, F61p))
    requires
        -1152921504606846974 < lower_bound < upper_bound < 1152921504606846974,
        upper_bound - lower_bound < pow2(ceil_log2((upper_bound - lower_bound) as nat)),
        pow2(ceil_log2((upper_bound - lower_bound) as nat)) < 1152921504606846974,
    ensures
        r.0 == ceil_log2((upper_bound - lower_bound) as nat),
        r.1.val() == (lower_bound as int) % (p61() as int),
        r.2.val() == (pow2(r.0 as nat) - upper_bound - 1) % (p61() as int),
{
    let d = (upper_bound - lower_bound) as u128;
    let mut m: u32 = 0;
    let mut pw: u128 = 1;
    proof {
        lemma2_to64();
    }
    while pw < d
        invariant
            1 <= d < 0x2000000000000000,
            pw == pow2(m as nat),
            m <= 61,
            m == 0 || pow2((m - 1) as nat) < d,
        decreases 61 - m,
    {
        proof {
            lemma_pow2_adds(m as nat, 1);
            lemma2_to64();
            lemma2_to64_rest();
            if m > 61 {
                lemma_pow2_strictly_increases(61, m as nat);
            }
            assert(m < 61);
        }
        pw = pw * 2;
        m = m + 1;
    }
    proof {
        lemma_ceil_log2(d as nat, m as nat);
    }
    let a = {
        let abs = if lower_bound < 0 {
            (0 - lower_bound) as u128
        } else {
            lower_bound as u128
        };
        let a = match F61p::try_from(abs) {
            Ok(x) => x,
            Err(_) => F61p::zero(),
        };
        if lower_bound < 0 {
            let n = a.neg();
            proof {
                lemma_mod_add_multiples_vanish(lower_bound as int, p61() as int);
                lemma_small_mod((p61() - abs) as nat, p61());
            }
            n
        } else {
            proof {
                lemma_small_mod(abs as nat, p61());
            }
            a
        }
    };
    let c = {
        let cv: i128 = (pw as i128) - upper_bound - 1;
        let abs = if cv < 0 {
            (0 - cv) as u128
        } else {
            cv as u128
        };
        let c = match F61p::try_from(abs) {
            Ok(x) => x,
            Err(_) => F61p::zero(),
        };
        if cv < 0 {
            let n = c.neg();
            proof {
                lemma_mod_add_multiples_vanish(cv as int, p61() as int);
                lemma_small_mod((p61() - abs) as nat, p61());
            }
            n
        } else {
            proof {
                lemma_small_mod(abs as nat, p61());
            }
            c
        }
    };
    (m, a, c)
}


/// The verifier's share of the mask for `k.len()` random authenticated values with keys
/// `k`: by Horner's rule from the last key, multiply by `d` and subtract the key.
pub open spec fn mask_key(k: Seq<int>, d: int) -> int
    decreases k.len(),
{
    if k.len() == 0 {
        0
    } else {
        (mask_key(k.drop_first(), d) * d - k[0]) % pp()
    }
}

proof fn lemma_mask_key_is_minus_eval(k: Seq<int>, d: int)
    ensures
        mask_key(k, d) == (0 - peval(k, d)) % pp(),
    decreases k.len(),
{
    if k.len() > 0 {
        let k1 = k.drop_first();
        lemma_mask_key_is_minus_eval(k1, d);
        let e = peval(k1, d);
        let mk = mask_key(k1, d);
        lemma_mod_twice(0 - e, pp());
        assert(mk % pp() == (0 - e) % pp());
        lemma_mod_mul_congr(mk, 0 - e, d, d);
        lemma_mod_sub_congr(mk * d, (0 - e) * d, k[0], k[0]);
        assert((mk * d - k[0]) % pp() == ((0 - e) * d - k[0]) % pp());
        assert((0 - e) * d - k[0] == 0 - (k[0] + d * e)) by (nonlinear_arith);
        assert(peval(k, d) == k[0] + d * e);
        assert(mask_key(k, d) == (mk * d - k[0]) % pp());
    } else {
        assert(peval(k, d) == 0);
        lemma_small_mod(0, p61());
    }
}

proof fn lemma_eval_correlated(u: Seq<int>, m: Seq<int>, k: Seq<int>, d: int)
    requires
        u.len() == m.len(),
        m.len() == k.len(),
        forall|j: int| 0 <= j < m.len() ==> #[trigger] m[j] % pp() == (k[j] + d * u[j]) % pp(),
    ensures
        peval(m, d) % pp() == (peval(k, d) + d * peval(u, d)) % pp(),
    decreases m.len(),
{
    if m.len() > 0 {
        lemma_eval_correlated(u.drop_first(), m.drop_first(), k.drop_first(), d);
        assert forall|j: int| 0 <= j < m.drop_first().len() implies #[trigger] m.drop_first()[j] % pp() == (k.drop_first()[j] + d * u.drop_first()[j]) % pp() by {
            assert(m[j + 1] % pp() == (k[j + 1] + d * u[j + 1]) % pp());
        }
        let em = peval(m.drop_first(), d);
        let ek = peval(k.drop_first(), d);
        let eu = peval(u.drop_first(), d);
        assert(m[0] % pp() == (k[0] + d * u[0]) % pp());
        lemma_mod_mul_congr(d, d, em, ek + d * eu);
        lemma_mod_add_congr(m[0], k[0] + d * u[0], d * em, d * (ek + d * eu));
        assert(k[0] + d * u[0] + d * (ek + d * eu) == (k[0] + d * ek) + d * (u[0] + d * eu)) by (nonlinear_arith);
    }
}

/// The two shares of the mask of the final zero check agree: when every MAC is its key
/// plus `d` times its value, the prover's mask (the values shifted up by one degree
/// minus the MACs) evaluated at `d` is the verifier's mask.
pub proof fn lemma_masks_agree(u: Seq<int>, m: Seq<int>, k: Seq<int>, d: int)
    requires
        u.len() == m.len(),
        m.len() == k.len(),
        forall|j: int| 0 <= j < m.len() ==> #[trigger] m[j] % pp() == (k[j] + d * u[j]) % pp(),
    ensures
        peval(psub(pshift(u, 1), m), d) % pp() == mask_key(k, d),
{
    lemma_peval_sub(pshift(u, 1), m, d);
    lemma_peval_shift(u, 1, d);
    lemma_pow1(d);
    lemma_eval_correlated(u, m, k, d);
    lemma_mask_key_is_minus_eval(k, d);
    let eu = peval(u, d);
    let em = peval(m, d);
    let ek = peval(k, d);
    lemma_mod_sub_congr(d * eu, d * eu, em, ek + d * eu);
    assert(d * eu - (ek + d * eu) == 0 - ek);
}

/// The prover's mask of the final zero check from random authenticated values: value
/// `values[j]` enters at degree `j + 1` and MAC `macs[j]` is subtracted at degree `j`;
/// the mask has one coefficient more than there are values.
pub fn qs_prover_mask(values: &Vec<F61p>, macs: &Vec<F61p>) -> (mask: GeneralPolynomial)
    requires
        values.len() == macs.len(),
        values.len() < usize::MAX,
    ensures
        mask.coeffs() == psub(pshift(vals(values@), 1), vals(macs@)),
        mask.coefficients.len() == values.len(),
{
    let shifted = vec_shift(values, 1);
    let v = vec_sub(&shifted, macs);
    proof {
        assert(vals(v@).len() == v.len());
        assert(vals(shifted@).len() == shifted.len());
        assert(vals(values@).len() == values.len());
        assert(vals(macs@).len() == macs.len());
    }
    GeneralPolynomial::from_vec(v)
}

/// The verifier's share of the mask from the keys of the random authenticated values:
/// from the last key down, multiply by `delta` and subtract the key.
pub fn qs_verifier_mask(delta: F61p, keys: &Vec<F61p>) -> (r: F61p)
    ensures
        r.val() == mask_key(vals(keys@), delta.val() as int),
{
    let ghost k = vals(keys@);
    let mut mask = F61p::zero();
    let mut j: usize = keys.len();
    proof {
        assert(k.skip(j as int) =~= Seq::<int>::empty());
    }
    while j > 0
        invariant
            j <= keys.len(),
            k == vals(keys@),
            mask.val() == mask_key(k.skip(j as int), delta.val() as int),
        decreases j,
    {
        j = j - 1;
        let ghost prev = mask.val() as int;
        mask.mul_assign(&delta);
        let key = keys[j];
        let ghost after_mul = mask.val() as int;
        mask.sub_assign(&key);
        proof {
            let d = delta.val() as int;
            assert(k.skip(j as int).drop_first() =~= k.skip(j + 1));
            assert(k.skip(j as int)[0] == key.val());
            lemma_mod_add_multiples_vanish(after_mul - key.val(), pp());
            lemma_mod_twice(prev * d, pp());
            lemma_mod_sub_congr(after_mul, prev * d, key.val() as int, key.val() as int);
        }
    }
    assert(k.skip(0) =~= k);
    mask
}

/// Completeness of the whole check: when the prover's accumulated polynomial has a zero
/// coefficient at its degree `q` and evaluates at the key to the verifier's accumulated
/// MAC, and the `q - 1` random authenticated values are correlated (each MAC is its key
/// plus `d` times its value), then the prover's proof (its mask plus the accumulated
/// polynomial) has degree below `q` and evaluates at the key to the MAC plus the
/// verifier's mask: the verifier accepts.
pub proof fn lemma_qs_finalize_complete(
    state: Seq<int>,
    q: nat,
    mac: int,
    u: Seq<int>,
    m: Seq<int>,
    k: Seq<int>,
    d: int,
)
    requires
        q >= 1,
        pzero_from(state, q as int),
        peval(state, d) % pp() == mac,
        u.len() + 1 == q,
        m.len() == u.len(),
        k.len() == u.len(),
        forall|j: int| 0 <= j < m.len() ==> #[trigger] m[j] % pp() == (k[j] + d * u[j]) % pp(),
    ensures
        pzero_from(padd(psub(pshift(u, 1), m), state), q as int),
        peval(padd(psub(pshift(u, 1), m), state), d) % pp() == (mac + mask_key(k, d)) % pp(),
{
    let mask = psub(pshift(u, 1), m);
    assert(mask.len() == q);
    lemma_qs_complete(state, q, mac, mask, d);
    lemma_masks_agree(u, m, k, d);
}

/// The elements of `v` in reverse order.
fn reversed(v: &Vec<F61p>) -> (r: Vec<F61p>)
    ensures
        r@ == v@.reverse(),
{
    let mut r: Vec<F61p> = Vec::new();
    let mut i: usize = v.len();
    while i > 0
        invariant
            i <= v.len(),
            r@ =~= v@.reverse().subrange(0, v.len() - i),
        decreases i,
    {
        i = i - 1;
        r.push(v[i]);
    }
    r
}

impl QSStateProver {
    /// Finishes the check with the mask built from the `qs_degree - 1` random
    /// authenticated values (values and MACs) in the order they were drawn: the first
    /// drawn enters at the top degree, the last at degree one. The proof is the mask plus
    /// the accumulated polynomial; the check starts afresh.
    pub fn finalize(&mut self, values: &Vec<F61p>, macs: &Vec<F61p>) -> (proof: GeneralPolynomial)
        requires
            old(self).wf(),
            values.len() == macs.len(),
            values.len() + 1 == old(self).state_spec().qs_degree,
        ensures
            proof.coeffs() == padd(
                psub(pshift(vals(values@.reverse()), 1), vals(macs@.reverse())),
                old(self).state_spec().poly.coeffs(),
            ),
            final(self).wf(),
            final(self).chi_spec() == old(self).chi_spec(),
            final(self).state_spec().poly.coeffs() == seq![0int],
            final(self).state_spec().qs_degree == 1,
            final(self).count_spec() == 0,
    {
        let rv = reversed(values);
        let rm = reversed(macs);
        let mask = qs_prover_mask(&rv, &rm);
        proof {
            assert(mask.coeffs().len() == mask.coefficients.len() + 1);
        }
        self.finalize_with_mask(mask)
    }
}

impl QSStateVerifier {
    /// Finishes the check with the mask built from the keys of the `qs_degree - 1` random
    /// authenticated values in the order they were drawn, and verifies the proof against
    /// it. The check starts afresh.
    pub fn finalize_and_verify(&mut self, keys: &Vec<F61p>, proof: &GeneralPolynomial) -> (r: bool)
        requires
            keys.len() + 1 == old(self).state_spec().qs_degree,
        ensures
            r == (pzero_from(proof.coeffs(), old(self).state_spec().qs_degree as int) && peval(
                proof.coeffs(),
                old(self).delta_spec().val() as int,
            ) % pp() == (old(self).state_spec().mac.val() + mask_key(
                vals(keys@.reverse()),
                old(self).delta_spec().val() as int,
            )) % pp()),
            final(self).delta_spec() == old(self).delta_spec(),
            final(self).chi_spec() == old(self).chi_spec(),
            final(self).state_spec().mac.val() == 0,
            final(self).state_spec().qs_degree == 1,
            final(self).count_spec() == 0,
    {
        let rk = reversed(keys);
        let mask = qs_verifier_mask(self.delta, &rk);
        self.finalize_with_mask_and_verify(mask, proof)
    }
}

} // verus!
