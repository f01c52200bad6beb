//! The prime field modulo the Mersenne prime 2^61 - 1.
use vstd::prelude::*;
use vstd::arithmetic::div_mod::*;
use vstd::arithmetic::mul::*;
use vstd::arithmetic::power::*;
use crate::f3::BiggerThanModulus;
use crate::bytes::{le_value, le_u64};

verus! {

/// The modulus 2^61 - 1.
pub const MODULUS: u64 = 2305843009213693951;

/// The modulus as a mathematical integer.
pub open spec fn p61() -> nat {
    2305843009213693951
}

/// An element of the field of integers modulo 2^61 - 1.
#[derive(Clone, Copy, Debug, PartialEq, Eq, Structural, Hash)]
pub struct F61p(u64);

impl F61p {
    #[verifier::type_invariant]
    spec fn inv(self) -> bool {
        self.0 < MODULUS
    }

    /// The integer in `0..p` that the element stands for.
    pub closed spec fn val(self) -> nat {
        (self.0 as nat) % p61()
    }

}

/// The value of an element lies below the modulus.
pub proof fn lemma_f61p_val_bound(a: F61p)
    ensures
        a.val() < p61(),
{
    lemma_mod_bound(a.0 as int, p61() as int);
}

/// An element built from a raw integer below the modulus has that integer as its value.
proof fn lemma_raw(x: u64)
    requires
        x < MODULUS,
    ensures
        F61p(x).val() == x,
{
    lemma_small_mod(x as nat, p61());
}

/// The operations' results satisfy the laws of a commutative ring: addition and
/// multiplication modulo the prime are commutative and associative, multiplication
/// distributes over addition, 0 and 1 are neutral, and `p - a` is the negative of `a`.
pub proof fn lemma_f61p_ring_laws(a: nat, b: nat, c: nat)
    requires
        a < p61(),
        b < p61(),
        c < p61(),
    ensures
        (a + b) % p61() == (b + a) % p61(),
        ((a + b) % p61() + c) % p61() == (a + (b + c) % p61()) % p61(),
        (a * b) % p61() == (b * a) % p61(),
        ((a * b) % p61() * c) % p61() == (a * ((b * c) % p61())) % p61(),
        (a * ((b + c) % p61())) % p61() == ((a * b) % p61() + (a * c) % p61()) % p61(),
        (a + 0) % p61() == a,
        (a * 1) % p61() == a,
        (a + (p61() - a) % (p61() as int)) % (p61() as int) == 0,
{
    let p = p61() as int;
    lemma_add_mod_noop((a + b) as int, c as int, p);
    lemma_add_mod_noop(a as int, (b + c) as int, p);
    lemma_mod_twice(a as int, p);
    lemma_mod_twice(c as int, p);
    lemma_small_mod(a, p61());
    lemma_small_mod(c, p61());
    lemma_mul_is_commutative(a as int, b as int);
    lemma_mul_mod_noop_left((a * b) as int, c as int, p);
    lemma_mul_mod_noop_right(a as int, (b * c) as int, p);
    lemma_mul_is_associative(a as int, b as int, c as int);
    lemma_mul_mod_noop_right(a as int, (b + c) as int, p);
    lemma_mul_is_distributive_add(a as int, b as int, c as int);
    lemma_add_mod_noop((a * b) as int, (a * c) as int, p);
    lemma_mul_basics(a as int);
    if a == 0 {
        assert((p - 0) % p == 0) by {
            lemma_mod_self_0(p);
        }
    } else {
        lemma_small_mod((p - a) as nat, p61());
        lemma_mod_self_0(p);
    }
}

proof fn lemma_div_lt(k: int, d: int, m: int)
    requires
        0 <= k < d * m,
        d > 0,
    ensures
        k / d < m,
        k / d >= 0,
{
    lemma_fundamental_div_mod(k, d);
    lemma_div_pos_is_pos(k, d);
    lemma_mod_bound(k, d);
    if k / d >= m {
        lemma_mul_inequality(m, k / d, d);
        lemma_mul_is_commutative(m, d);
        lemma_mul_is_commutative(k / d, d);
    }
}

/// Reduces `k` modulo `2^61 - 1` for every `k < 2^122 - 1`, which covers a sum of two
/// elements and a product of two elements.
fn reduce(k: u128) -> (r: u64)
    requires
        k < 0x3ffffffffffffffffffffffffffffffu128,
    ensures
        r as nat == k as nat % p61(),
{
    let m: u128 = 2305843009213693951;
    let lo = k & m;
    let hi = k >> 61;
    assert(lo == k % 0x2000000000000000u128 && hi == k / 0x2000000000000000u128) by (bit_vector)
        requires
            m == 2305843009213693951u128,
            lo == k & m,
            hi == k >> 61u128,
    ;
    proof {
        lemma_div_lt(k as int, 0x2000000000000000, (m + 1) as int);
        lemma_fundamental_div_mod(k as int, 0x2000000000000000);
        assert(k == hi * (m + 1) + lo);
        lemma_mod_bound(k as int, 0x2000000000000000);
        if hi == m {
            assert(hi * (m + 1) == m * (m + 1));
            assert(m * (m + 1) == 0x3ffffffffffffffe000000000000000u128) by (nonlinear_arith)
                requires
                    m == 2305843009213693951u128,
            ;
            assert(lo < m);
        }
        assert(lo + hi < 2 * m);
        assert(hi * (m + 1) == hi * m + hi) by (nonlinear_arith);
        lemma_mod_multiples_vanish(hi as int, (hi + lo) as int, m as int);
    }
    let i = lo + hi;
    let flag: u128 = if i < m {
        1
    } else {
        0
    };
    let w = flag.wrapping_sub(1);
    assert(w == (if i < m { 0u128 } else { 0xffffffffffffffffffffffffffffffffu128 }));
    let operand = w & m;
    assert(operand == (if i < m {
        0u128
    } else {
        m
    })) by (bit_vector)
        requires
            w == (if i < m { 0u128 } else { 0xffffffffffffffffffffffffffffffffu128 }),
            operand == w & m,
            m == 2305843009213693951u128,
    ;
    proof {
        if i < m {
            lemma_small_mod(i as nat, m as nat);
        } else {
            lemma_mod_sub_multiples_vanish(i as int, m as int);
            lemma_small_mod((i - m) as nat, m as nat);
        }
    }
    (i - operand) as u64
}

impl F61p {
    /// Zero.
    pub fn zero() -> (r: F61p)
        ensures
            r.val() == 0,
    {
        proof {
            lemma_raw(0);
        }
        F61p(0)
    }

    /// One.
    pub fn one() -> (r: F61p)
        ensures
            r.val() == 1,
    {
        proof {
            lemma_raw(1);
        }
        F61p(1)
    }

    /// The generator 37 of the multiplicative group.
    pub fn generator() -> (r: F61p)
        ensures
            r.val() == 37,
    {
        proof {
            lemma_raw(37);
        }
        F61p(37)
    }

    /// The value as a 128-bit integer.
    pub fn to_u128(self) -> (r: u128)
        ensures
            r == self.val(),
            r < p61(),
    {
        proof {
            use_type_invariant(&self);
            lemma_raw(self.0);
        }
        self.0 as u128
    }

    /// Converts an integer below the modulus; larger integers are refused.
    pub fn try_from(value: u128) -> (r: Result<F61p, BiggerThanModulus>)
        ensures
            value < p61() <==> r is Ok,
            r matches Ok(x) ==> x.val() == value,
    {
        if value < MODULUS as u128 {
            proof {
                lemma_raw(value as u64);
            }
            Ok(F61p(value as u64))
        } else {
            Err(BiggerThanModulus)
        }
    }

    /// Field addition.
    pub fn add_assign(&mut self, rhs: &F61p)
        ensures
            final(self).val() == (old(self).val() + rhs.val()) % p61(),
    {
        proof {
            use_type_invariant(&*self);
            use_type_invariant(rhs);
            lemma_raw(self.0);
            lemma_raw(rhs.0);
        }
        let a = self.0 as u128;
        let b = rhs.0 as u128;
        let r = reduce(a + b);
        proof {
            lemma_mod_bound((a + b) as int, p61() as int);
            lemma_raw(r);
        }
        self.0 = r;
    }

    /// Field subtraction.
    pub fn sub_assign(&mut self, rhs: &F61p)
        ensures
            final(self).val() == (old(self).val() + p61() - rhs.val()) % (p61() as int),
    {
        proof {
            use_type_invariant(&*self);
            use_type_invariant(rhs);
            lemma_raw(self.0);
            lemma_raw(rhs.0);
        }
        let a = self.0 as u128 + MODULUS as u128;
        let b = rhs.0 as u128;
        let r = reduce(a - b);
        proof {
            lemma_mod_bound((a - b) as int, p61() as int);
            lemma_raw(r);
        }
        self.0 = r;
    }

    /// Field multiplication.
    pub fn mul_assign(&mut self, rhs: &F61p)
        ensures
            final(self).val() == (old(self).val() * rhs.val()) % p61(),
    {
        proof {
            use_type_invariant(&*self);
            use_type_invariant(rhs);
            lemma_raw(self.0);
            lemma_raw(rhs.0);
        }
        let a = self.0 as u128;
        let b = rhs.0 as u128;
        proof {
            assert(a * b <= 2305843009213693950u128 * 2305843009213693950u128) by (nonlinear_arith)
                requires
                    a < 2305843009213693951u128,
                    b < 2305843009213693951u128,
            ;
        }
        let r = reduce(a * b);
        proof {
            lemma_mod_bound((a * b) as int, p61() as int);
            lemma_raw(r);
        }
        self.0 = r;
    }

    /// The sum of two elements.
    pub fn add(&self, rhs: &F61p) -> (r: F61p)
        ensures
            r.val() == (self.val() + rhs.val()) % p61(),
    {
        let mut r = *self;
        r.add_assign(rhs);
        r
    }

    /// The difference of two elements.
    pub fn sub(&self, rhs: &F61p) -> (r: F61p)
        ensures
            r.val() == (self.val() + p61() - rhs.val()) % (p61() as int),
    {
        let mut r = *self;
        r.sub_assign(rhs);
        r
    }

    /// The product of two elements.
    pub fn mul(&self, rhs: &F61p) -> (r: F61p)
        ensures
            r.val() == (self.val() * rhs.val()) % p61(),
    {
        let mut r = *self;
        r.mul_assign(rhs);
        r
    }

    /// The additive inverse.
    pub fn neg(&self) -> (r: F61p)
        ensures
            r.val() == (p61() - self.val()) % (p61() as int),
    {
        let z = F61p::zero();
        let r = z.sub(self);
        r
    }

    /// `self` raised to the power `e`, by square-and-multiply over the bits of `e`.
    pub fn pow_var_time(&self, e: u128) -> (r: F61p)
        ensures
            r.val() == pow(self.val() as int, e as nat) % (p61() as int),
        decreases e,
    {
        if e == 0 {
            proof {
                lemma_pow0(self.val() as int);
                lemma_small_mod(1, p61());
            }
            F61p::one()
        } else {
            let half = self.pow_var_time(e / 2);
            let sq = half.mul(&half);
            let ghost b = self.val() as int;
            let ghost h = pow(b, (e / 2) as nat);
            proof {
                let pp = p61() as int;
                lemma_mul_mod_noop(h, h, pp);
                lemma_pow_adds(b, (e / 2) as nat, (e / 2) as nat);
            }
            if e % 2 == 0 {
                proof {
                    assert((e / 2) as nat + (e / 2) as nat == e as nat);
                }
                sq
            } else {
                let r = sq.mul(self);
                proof {
                    let pp = p61() as int;
                    let h2 = pow(b, ((e / 2) as nat + (e / 2) as nat) as nat);
                    lemma_mul_mod_noop_left(h2, b, pp);
                    lemma_pow_adds(b, ((e / 2) as nat + (e / 2) as nat) as nat, 1);
                    lemma_pow1(b);
                    assert(((e / 2) as nat + (e / 2) as nat) + 1 == e as nat);
                    use_type_invariant(self);
                    lemma_small_mod(self.val(), p61());
                }
                r
            }
        }
    }

    /// The multiplicative inverse of a non-zero element, computed as `self^(p - 2)`.
    pub fn inverse(&self) -> (r: F61p)
        requires
            self.val() != 0,
        ensures
            r.val() == pow(self.val() as int, (p61() - 2) as nat) % (p61() as int),
    {
        self.pow_var_time(MODULUS as u128 - 2)
    }

    /// Little-endian bits of the value, 61 of them.
    pub fn bit_decomposition(&self) -> (bits: Vec<bool>)
        ensures
            bits.len() == 61,
            forall|i: int| 0 <= i < 61 ==> bits[i] == (((self.val() as int) / pow(2, i as nat)) % 2 == 1),
    {
        let mut bits: Vec<bool> = Vec::new();
        let mut v = self.0;
        proof {
            lemma_pow0(2);
            use_type_invariant(self);
            lemma_raw(self.0);
        }
        let mut i: usize = 0;
        while i < 61
            invariant
                i <= 61,
                bits.len() == i,
                v == (self.val() as int) / pow(2, i as nat),
                forall|j: int| 0 <= j < i ==> bits[j] == (((self.val() as int) / pow(2, j as nat)) % 2 == 1),
            decreases 61 - i,
        {
            bits.push(v % 2 == 1);
            proof {
                lemma_pow_positive(2, i as nat);
                lemma_div_denominator(self.val() as int, pow(2, i as nat), 2);
                lemma_pow_adds(2, i as nat, 1);
                lemma_pow1(2);
            }
            v = v / 2;
            i = i + 1;
        }
        bits
    }

    /// Sums elements with one reduction at the end.
    pub fn sum(xs: &[F61p]) -> (r: F61p)
        requires
            xs.len() < 0x2000000000000000,
        ensures
            r.val() == sum_vals(xs@) % p61(),
    {
        let mut out: u128 = 0;
        let mut i: usize = 0;
        while i < xs.len()
            invariant
                i <= xs.len(),
                xs.len() < 0x2000000000000000,
                out == sum_vals(xs@.take(i as int)),
                out <= i * 2305843009213693950,
            decreases xs.len() - i,
        {
            let e = xs[i];
            proof {
                use_type_invariant(&e);
                lemma_raw(e.0);
                assert(xs@.take(i + 1).drop_last() =~= xs@.take(i as int));
                assert(xs@.take(i + 1).last() == e);
                assert(i * 2305843009213693950 < 0x2000000000000000 * 2305843009213693950)
                    by (nonlinear_arith)
                    requires
                        i < 0x2000000000000000,
                ;
            }
            out = out + e.0 as u128;
            i = i + 1;
        }
        proof {
            assert(xs@.take(xs.len() as int) =~= xs@);
            assert(out <= 0x2000000000000000 * 2305843009213693950) by (nonlinear_arith)
                requires
                    out <= i * 2305843009213693950,
                    i < 0x2000000000000000,
            ;
        }
        let r = reduce(out);
        proof {
            lemma_mod_bound(out as int, p61() as int);
            lemma_raw(r);
        }
        F61p(r)
    }

    /// Interprets eight little-endian bytes; values not below the modulus are refused.
    pub fn from_bytes(bytes: &[u8; 8]) -> (r: Result<F61p, BiggerThanModulus>)
        ensures
            le_value(bytes@) < p61() <==> r is Ok,
            r matches Ok(x) ==> x.val() == le_value(bytes@),
    {
        let raw = le_u64(bytes);
        if raw < MODULUS {
            proof {
                lemma_raw(raw);
            }
            Ok(F61p(raw))
        } else {
            Err(BiggerThanModulus)
        }
    }

    /// The eight little-endian bytes of the value.
    pub fn to_bytes(&self) -> (r: [u8; 8])
        ensures
            le_value(r@) == self.val(),
    {
        proof {
            use_type_invariant(self);
            lemma_raw(self.0);
        }
        crate::bytes::u64_to_le(self.0)
    }

    /// The element of value `x mod p`, where `x` is read from the first eight of the
    /// sixteen bytes in little-endian order.
    pub fn from_uniform_bytes(x: &[u8; 16]) -> (r: F61p)
        ensures
            r.val() == le_value(x@.take(8)) % p61(),
    {
        let mut b = [0u8; 8];
        let mut i: usize = 0;
        while i < 8
            invariant
                i <= 8,
                b@.len() == 8,
                forall|j: int| 0 <= j < i ==> b@[j] == x@[j],
            decreases 8 - i,
        {
            b[i] = x[i];
            i = i + 1;
        }
        assert(b@ =~= x@.take(8));
        let raw = le_u64(&b);
        proof {
            assert(raw < 0x3ffffffffffffffe000000000000000u128);
        }
        let r = reduce(raw as u128);
        proof {
            lemma_mod_bound(raw as int, p61() as int);
            lemma_raw(r);
        }
        F61p(r)
    }

    /// Constant-time equality: 1 when the elements are equal, 0 otherwise.
    pub fn ct_eq(&self, other: &F61p) -> (r: u8)
        ensures
            r == (if *self == *other { 1u8 } else { 0u8 }),
    {
        crate::ct::ct_eq_u64(self.0, other.0)
    }

    /// Constant-time selection: `a` when `choice` is 0, `b` when it is 1.
    pub fn conditional_select(a: &F61p, b: &F61p, choice: u8) -> (r: F61p)
        requires
            choice <= 1,
        ensures
            r == (if choice == 0 { *a } else { *b }),
    {
        proof {
            use_type_invariant(a);
            use_type_invariant(b);
        }
        F61p(crate::ct::conditional_select_u64(a.0, b.0, choice))
    }

    /// The element of a random word: the word modulo the modulus.
    pub fn from_random_u64(v: u64) -> (r: F61p)
        ensures
            r.val() == (v as nat) % p61(),
    {
        let r = reduce(v as u128);
        proof {
            lemma_mod_bound(v as int, p61() as int);
            lemma_raw(r);
        }
        F61p(r)
    }

    /// A random element: 64 random bits reduced modulo the modulus, by
    /// [`F61p::from_random_u64`].
    pub fn random(rng: &mut rand::rngs::StdRng) -> (r: F61p)
        ensures
            r.val() < p61(),
    {
        let v = crate::rng::rng_next_u64(rng);
        F61p::from_random_u64(v)
    }
}

/// The sum of the values of a sequence of elements.
pub open spec fn sum_vals(s: Seq<F61p>) -> nat
    decreases s.len(),
{
    if s.len() == 0 {
        0
    } else {
        sum_vals(s.drop_last()) + s.last().val()
    }
}


/// The value of an element as an integer below the modulus.
impl From<F61p> for u128 {
    fn from(value: F61p) -> (r: u128) {
        value.to_u128()
    }
}

impl vstd::std_specs::convert::FromSpecImpl<F61p> for u128 {
    open spec fn obeys_from_spec() -> bool {
        true
    }

    open spec fn from_spec(value: F61p) -> u128 {
        value.val() as u128
    }
}

} // verus!
