//! Little-endian conversions between integers and bytes.
use vstd::prelude::*;
use vstd::arithmetic::power::*;
use vstd::arithmetic::div_mod::*;

verus! {

/// The integer whose little-endian base-256 digits are `s`.
pub open spec fn le_value(s: Seq<u8>) -> nat
    decreases s.len(),
{
    if s.len() == 0 {
        0
    } else {
        (le_value(s.drop_last()) + pow(256, (s.len() - 1) as nat) * s.last()) as nat
    }
}

pub proof fn lemma_le_value_push(s: Seq<u8>, b: u8)
    ensures
        le_value(s.push(b)) == le_value(s) + pow(256, s.len()) * b,
{
    assert(s.push(b).drop_last() =~= s);
    lemma_pow_positive(256, s.len());
}

/// Reads eight little-endian bytes.
pub fn le_u64(bytes: &[u8; 8]) -> (r: u64)
    ensures
        r == le_value(bytes@),
{
    let mut r: u64 = 0;
    let mut i: usize = 0;
    proof {
        lemma_pow0(256);
        assert(bytes@.take(0) =~= Seq::<u8>::empty());
    }
    while i < 8
        invariant
            i <= 8,
            r == le_value(bytes@.take(i as int)),
            r < pow(256, i as nat),
        decreases 8 - i,
    {
        proof {
            lemma_le_value_push(bytes@.take(i as int), bytes@[i as int]);
            assert(bytes@.take(i + 1) =~= bytes@.take(i as int).push(bytes@[i as int]));
            lemma_pow_adds(256, i as nat, 1);
            lemma_pow1(256);
            assert(pow(256, 8) == 0x10000000000000000) by {
                reveal_with_fuel(pow, 9);
            }
            lemma_pow_increases(256, (i + 1) as nat, 8);
            assert(r + pow(256, i as nat) * bytes@[i as int] < pow(256, i as nat) * 256) by (nonlinear_arith)
                requires
                    r < pow(256, i as nat),
                    bytes@[i as int] < 256,
            ;
        }
        let byte = bytes[i] as u64;
        proof {
            assert((8 * i as u64) / 8 == i as u64);
            vstd::arithmetic::mul::lemma_mul_is_commutative(byte as int, pow(256, i as nat));
            assert(byte * pow(256, ((8 * i as u64) / 8) as nat) < 0x10000000000000000);
        }
        let sh = shl_u64(byte, 8 * i as u64);
        r = r + sh;
        i = i + 1;
    }
    assert(bytes@.take(8) =~= bytes@);
    r
}

/// `v * 256^k` for a byte shifted into place.
fn shl_u64(v: u64, s: u64) -> (r: u64)
    requires
        s < 64,
        s % 8 == 0,
        v < 256,
        v * pow(256, (s / 8) as nat) < 0x10000000000000000,
    ensures
        r == v * pow(256, (s / 8) as nat),
{
    let mut r = v;
    let mut k: u64 = 0;
    proof {
        lemma_pow0(256);
        assert(v * pow(256, 0) == v * 1);
    }
    while k < s / 8
        invariant
            k <= s / 8,
            s < 64,
            v * pow(256, (s / 8) as nat) < 0x10000000000000000,
            r == v * pow(256, k as nat),
        decreases s / 8 - k,
    {
        proof {
            lemma_pow_adds(256, k as nat, 1);
            lemma_pow1(256);
            lemma_pow_increases(256, (k + 1) as nat, (s / 8) as nat);
            lemma_pow_positive(256, k as nat);
            assert(v * pow(256, (k + 1) as nat) <= v * pow(256, (s / 8) as nat)) by (nonlinear_arith)
                requires pow(256, (k + 1) as nat) <= pow(256, (s / 8) as nat);
            assert(r * 256 == v * pow(256, (k + 1) as nat)) by (nonlinear_arith)
                requires r == v * pow(256, k as nat), pow(256, (k + 1) as nat) == pow(256, k as nat) * 256;
        }
        r = r * 256;
        k = k + 1;
    }
    r
}

/// The eight little-endian bytes of `x`.
pub fn u64_to_le(x: u64) -> (r: [u8; 8])
    ensures
        le_value(r@) == x,
{
    let mut r = [0u8; 8];
    let mut v = x;
    let mut i: usize = 0;
    proof {
        lemma_pow0(256);
        assert(r@.take(0) =~= Seq::<u8>::empty());
    }
    while i < 8
        invariant
            i <= 8,
            v as int == (x as int) / pow(256, i as nat),
            le_value(r@.take(i as int)) + pow(256, i as nat) * v == x,
            r@.len() == 8,
        decreases 8 - i,
    {
        let ghost old_r = r@;
        r[i] = (v % 256) as u8;
        proof {
            lemma_pow_positive(256, i as nat);
            lemma_le_value_push(old_r.take(i as int), (v % 256) as u8);
            assert(r@.take(i + 1) =~= old_r.take(i as int).push((v % 256) as u8));
            lemma_fundamental_div_mod(v as int, 256);
            lemma_div_denominator(x as int, pow(256, i as nat), 256);
            lemma_pow_adds(256, i as nat, 1);
            lemma_pow1(256);
            assert(pow(256, i as nat) * v == pow(256, i as nat) * (256 * (v / 256)) + pow(256, i as nat) * (v % 256)) by (nonlinear_arith)
                requires v == 256 * (v / 256) + v % 256;
            assert(pow(256, i as nat) * (256 * (v / 256)) == pow(256, (i + 1) as nat) * (v / 256)) by (nonlinear_arith)
                requires pow(256, (i + 1) as nat) == pow(256, i as nat) * 256;
        }
        v = v / 256;
        i = i + 1;
    }
    proof {
        assert(r@.take(8) =~= r@);
        assert(pow(256, 8) == 0x10000000000000000) by {
            reveal_with_fuel(pow, 9);
        }
        assert(v == 0) by (nonlinear_arith)
            requires
                v as int == (x as int) / 0x10000000000000000,
                x < 0x10000000000000000,
        ;
    }
    r
}

/// Splitting a byte string: the value of the whole is the value of the front plus the
/// value of the back shifted past the front.
pub proof fn lemma_le_value_append(a: Seq<u8>, b: Seq<u8>)
    ensures
        le_value(a + b) == le_value(a) + pow(256, a.len()) * le_value(b),
    decreases b.len(),
{
    if b.len() == 0 {
        assert(a + b =~= a);
        assert(le_value(b) == 0);
        assert(pow(256, a.len()) * le_value(b) == 0) by (nonlinear_arith)
            requires le_value(b) == 0;
    } else {
        let b0 = b.drop_last();
        lemma_le_value_append(a, b0);
        assert((a + b).drop_last() =~= a + b0);
        assert((a + b).last() == b.last());
        lemma_pow_positive(256, (a.len() + b0.len()) as nat);
        lemma_pow_positive(256, b0.len());
        assert((a + b).len() - 1 == a.len() + b0.len());
        assert(le_value(a + b) == le_value(a + b0) + pow(256, (a.len() + b0.len()) as nat) * b.last());
        assert(le_value(b) == le_value(b0) + pow(256, b0.len()) * b.last());
        lemma_pow_adds(256, a.len(), b0.len());
        lemma_pow_positive(256, a.len());
        assert(pow(256, a.len()) * (le_value(b0) + pow(256, b0.len()) * b.last()) == pow(256, a.len()) * le_value(b0) + (pow(256, a.len()) * pow(256, b0.len())) * b.last()) by (nonlinear_arith);
        assert(pow(256, (a.len() + b0.len()) as nat) == pow(256, a.len()) * pow(256, b0.len()));
        assert(le_value(a + b0) == le_value(a) + pow(256, a.len()) * le_value(b0));
    }
}

/// Copies bytes `start..start + 8` of `src`.
pub fn take8(src: &[u8], start: usize) -> (r: [u8; 8])
    requires
        start + 8 <= src.len(),
    ensures
        r@ == src@.subrange(start as int, start + 8),
{
    let mut r = [0u8; 8];
    let mut i: usize = 0;
    while i < 8
        invariant
            i <= 8,
            start + 8 <= src.len(),
            r@.len() == 8,
            forall|j: int| 0 <= j < i ==> r@[j] == src@[start + j],
        decreases 8 - i,
    {
        r[i] = src[start + i];
        i = i + 1;
    }
    assert(r@ =~= src@.subrange(start as int, start + 8));
    r
}

/// The sixteen bytes of two words, each in little-endian order, `lo` first.
pub fn concat8(lo: &[u8; 8], hi: &[u8; 8]) -> (r: [u8; 16])
    ensures
        r@ == lo@ + hi@,
{
    let mut r = [0u8; 16];
    let mut i: usize = 0;
    while i < 8
        invariant
            i <= 8,
            r@.len() == 16,
            forall|j: int| 0 <= j < i ==> r@[j] == lo@[j] && r@[j + 8] == hi@[j],
        decreases 8 - i,
    {
        r[i] = lo[i];
        r[i + 8] = hi[i];
        i = i + 1;
    }
    assert(r@ =~= lo@ + hi@);
    r
}

/// The sixteen little-endian bytes of `x`.
pub fn u128_to_le(x: u128) -> (r: [u8; 16])
    ensures
        le_value(r@) == x,
{
    let lo_w = x as u64;
    let hi_w = (x >> 64) as u64;
    let lo = u64_to_le(lo_w);
    let hi = u64_to_le(hi_w);
    let r = concat8(&lo, &hi);
    proof {
        lemma_le_value_append(lo@, hi@);
        assert(pow(256, 8) == 0x10000000000000000) by {
            reveal_with_fuel(pow, 9);
        }
        assert(lo_w == x % 0x10000000000000000 && hi_w == x / 0x10000000000000000) by (bit_vector)
            requires
                lo_w == x as u64,
                hi_w == (x >> 64u128) as u64,
        ;
        lemma_fundamental_div_mod(x as int, 0x10000000000000000);
    }
    r
}

/// Reads sixteen little-endian bytes.
pub fn le_u128(bytes: &[u8; 16]) -> (r: u128)
    ensures
        r == le_value(bytes@),
{
    let lo = take8(bytes, 0);
    let hi = take8(bytes, 8);
    let l = le_u64(&lo) as u128;
    let h = le_u64(&hi) as u128;
    proof {
        assert(bytes@ =~= lo@ + hi@);
        lemma_le_value_append(lo@, hi@);
        assert(pow(256, 8) == 0x10000000000000000) by {
            reveal_with_fuel(pow, 9);
        }
        assert(h * 0x10000000000000000 + l <= 0xffffffffffffffffffffffffffffffffu128) by (nonlinear_arith)
            requires
                h < 0x10000000000000000,
                l < 0x10000000000000000,
        ;
    }
    h * 0x10000000000000000 + l
}

/// Copies bytes `start..start + 16` of `src`.
pub fn take16(src: &[u8], start: usize) -> (r: [u8; 16])
    requires
        start + 16 <= src.len(),
    ensures
        r@ == src@.subrange(start as int, start + 16),
{
    let mut r = [0u8; 16];
    let mut i: usize = 0;
    while i < 16
        invariant
            i <= 16,
            start + 16 <= src.len(),
            r@.len() == 16,
            forall|j: int| 0 <= j < i ==> r@[j] == src@[start + j],
        decreases 16 - i,
    {
        r[i] = src[start + i];
        i = i + 1;
    }
    assert(r@ =~= src@.subrange(start as int, start + 16));
    r
}

/// The thirty-two bytes of two sixteen-byte strings, `lo` first.
pub fn concat16(lo: &[u8; 16], hi: &[u8; 16]) -> (r: [u8; 32])
    ensures
        r@ == lo@ + hi@,
{
    let mut r = [0u8; 32];
    let mut i: usize = 0;
    while i < 16
        invariant
            i <= 16,
            r@.len() == 32,
            forall|j: int| 0 <= j < i ==> r@[j] == lo@[j] && r@[j + 16] == hi@[j],
        decreases 16 - i,
    {
        r[i] = lo[i];
        r[i + 16] = hi[i];
        i = i + 1;
    }
    assert(r@ =~= lo@ + hi@);
    r
}

/// The first `k` little-endian base-256 digits of `w`.
pub open spec fn le_digits(w: nat, k: nat) -> Seq<u8> {
    Seq::new(k, |i: int| ((w as int / pow(256, i as nat)) % 256) as u8)
}

/// The value of `n` bytes lies below `256^n`.
pub proof fn lemma_le_value_bound(s: Seq<u8>)
    ensures
        le_value(s) < pow(256, s.len()),
    decreases s.len(),
{
    reveal(pow);
    if s.len() > 0 {
        let d = s.drop_last();
        lemma_le_value_bound(d);
        let p = pow(256, d.len());
        assert(pow(256, s.len()) == 256 * p);
        assert(le_value(s) == le_value(d) + p * s.last());
        assert(p * s.last() <= p * 255) by (nonlinear_arith)
            requires
                s.last() <= 255,
                p >= 0,
        ;
    } else {
        assert(pow(256, 0) == 1);
    }
}

/// Byte strings of one length with the same value are equal.
pub proof fn lemma_le_value_injective(s: Seq<u8>, t: Seq<u8>)
    requires
        s.len() == t.len(),
        le_value(s) == le_value(t),
    ensures
        s == t,
    decreases s.len(),
{
    if s.len() > 0 {
        let ds = s.drop_last();
        let dt = t.drop_last();
        lemma_le_value_bound(ds);
        lemma_le_value_bound(dt);
        let p = pow(256, ds.len());
        lemma_pow_positive(256, ds.len());
        assert(le_value(s) == le_value(ds) + p * s.last());
        assert(le_value(t) == le_value(dt) + p * t.last());
        assert(le_value(s) == s.last() * p + le_value(ds)) by (nonlinear_arith)
            requires
                le_value(s) == le_value(ds) + p * s.last(),
        ;
        assert(le_value(t) == t.last() * p + le_value(dt)) by (nonlinear_arith)
            requires
                le_value(t) == le_value(dt) + p * t.last(),
        ;
        lemma_fundamental_div_mod_converse(le_value(s) as int, p, s.last() as int, le_value(ds) as int);
        lemma_fundamental_div_mod_converse(le_value(t) as int, p, t.last() as int, le_value(dt) as int);
        lemma_le_value_injective(ds, dt);
        assert(s =~= ds.push(s.last()));
        assert(t =~= dt.push(t.last()));
    }
}

/// The digits of `w` give back `w` modulo `256^k`.
pub proof fn lemma_le_digits(w: nat, k: nat)
    ensures
        le_value(le_digits(w, k)) == (w as int) % pow(256, k),
    decreases k,
{
    reveal(pow);
    if k == 0 {
        assert(pow(256, 0) == 1);
        assert(le_value(le_digits(w, 0)) == 0);
    } else {
        let d = le_digits(w, k);
        let p = pow(256, (k - 1) as nat);
        lemma_le_digits(w, (k - 1) as nat);
        assert(d.drop_last() =~= le_digits(w, (k - 1) as nat));
        lemma_pow_positive(256, (k - 1) as nat);
        let digit = (w as int / p) % 256;
        lemma_mod_bound(w as int / p, 256);
        assert(d.last() == digit);
        assert(pow(256, k) == 256 * p);
        lemma_mod_breakdown(w as int, p, 256);
        assert(p * 256 == 256 * p) by (nonlinear_arith);
    }
}

/// Sixteen bytes that encode `x` are its digits.
pub proof fn lemma_le_bytes16(x: u128, r: Seq<u8>)
    requires
        r.len() == 16,
        le_value(r) == x,
    ensures
        r == le_digits(x as nat, 16),
{
    lemma_le_value_bound(r);
    lemma_le_digits(x as nat, 16);
    lemma_small_mod(x as nat, pow(256, 16) as nat);
    lemma_le_value_injective(r, le_digits(x as nat, 16));
}

} // verus!
