//! Encoding of a 128-bit input with a systematic ternary linear code, its bit
//! decomposition, and the gadget and parity-check maps that let the parties check the
//! encoding on authenticated shares.
//!
//! The code has `D = 128` message symbols and `N_PRIME = 191` code symbols; its generator
//! `G` is the identity on top of 63 random rows, and its parity-check matrix is `H =
//! [-A | I]`. A code word is decomposed into 254 bits: the 63 high bits of the redundant
//! symbols, the 128 message bits, and the 63 low bits of the redundant symbols.
use vstd::prelude::*;
use crate::f3::F3;
use crate::f64t::{F64t, f3_vals, f64t_polys};
use crate::f82t::{F82t, f82t_polys};
use crate::gf3poly::{padd, pscale, pzero, plincomb};

verus! {

/// Message length of the code.
pub const D: usize = 128;

/// Code length.
pub const N_PRIME: usize = 191;

/// `1` for `true`, `0` for `false`.
pub open spec fn b2n(b: bool) -> nat {
    if b {
        1
    } else {
        0
    }
}

/// Every element of the sequence is well-formed.
pub open spec fn all_wf(s: Seq<F3>) -> bool {
    forall|i: int| 0 <= i < s.len() ==> (#[trigger] s[i]).wf()
}

/// The values of a sequence of ternary elements.
pub open spec fn tvals(s: Seq<F3>) -> Seq<nat> {
    Seq::new(s.len(), |i: int| s[i].val())
}

/// The bit decomposition of a code word, given by its symbol values, whose first 128
/// symbols are bits.
pub open spec fn decomposed(x: Seq<nat>) -> Seq<bool> {
    Seq::new(
        254,
        |k: int|
            if k < 63 {
                x[128 + k] / 2 == 1
            } else if k < 191 {
                x[k - 63] == 1
            } else {
                x[k - 63] % 2 == 1
            },
    )
}

/// Decomposes a code word into bits: first the high bits of the 63 redundant symbols,
/// then the 128 message symbols, which must be bits, then the low bits of the redundant
/// symbols.
pub fn decompose(input: [F3; N_PRIME]) -> (r: [bool; 254])
    requires
        all_wf(input@),
        forall|i: int| 0 <= i < 128 ==> (#[trigger] input@[i]).val() < 2,
    ensures
        r@ == decomposed(tvals(input@)),
{
    let mut out = [false; 254];
    let mut i: usize = 0;
    while i < 128
        invariant
            i <= 128,
            all_wf(input@),
            forall|k: int| 0 <= k < 128 ==> (#[trigger] input@[k]).val() < 2,
            forall|k: int| 63 <= k < 63 + i ==> out@[k] == decomposed(tvals(input@))[k],
        decreases 128 - i,
    {
        let v = input[i].to_u8();
        out[63 + i] = v == 1;
        i = i + 1;
    }
    let mut i: usize = 0;
    while i < 63
        invariant
            i <= 63,
            all_wf(input@),
            forall|k: int| 63 <= k < 191 ==> out@[k] == decomposed(tvals(input@))[k],
            forall|k: int| 0 <= k < i ==> out@[k] == decomposed(tvals(input@))[k],
            forall|k: int| 191 <= k < 191 + i ==> out@[k] == decomposed(tvals(input@))[k],
        decreases 63 - i,
    {
        let v = input[128 + i].to_u8();
        let hi = (v >> 1) & 1 == 1;
        let lo = v & 1 == 1;
        assert(hi == (v / 2 == 1) && lo == (v % 2 == 1)) by (bit_vector)
            requires
                v < 3,
                hi == ((v >> 1) & 1 == 1),
                lo == (v & 1 == 1),
        ;
        out[i] = hi;
        out[191 + i] = lo;
        i = i + 1;
    }
    assert(out@ =~= decomposed(tvals(input@)));
    out
}

/// Bit `k` of the decomposition extended by 128 leading zeros.
pub open spec fn extended(input: Seq<bool>, k: int) -> bool {
    k >= 128 && input[k - 128]
}

/// The gadget applied to a bit decomposition: symbol `i` is
/// `gadget[i][i] * e[i] + gadget[i][i + 191] * e[i + 191]`, where `e` is the
/// decomposition after 128 zeros.
pub open spec fn gadget_converted(input: Seq<bool>, gadget: Seq<[F3; 382]>) -> Seq<nat> {
    Seq::new(
        191,
        |i: int|
            ((gadget[i]@[i].val() * b2n(extended(input, i)) + gadget[i]@[i + 191].val() * b2n(
                extended(input, i + 191),
            )) % 3) as nat,
    )
}

/// Every row of the matrix is well-formed.
pub open spec fn gadget_wf(gadget: Seq<[F3; 382]>) -> bool {
    forall|i: int, j: int| 0 <= i < gadget.len() && 0 <= j < 382 ==> (#[trigger] gadget[i]@[j]).wf()
}

/// Recombining a decomposition gives the code word back: when the first 128 symbols are
/// bits and the gadget has `2` at `(i, i)` and `1` at `(i, i + 191)`, the gadget applied
/// to the decomposition of `x` is `x`.
pub proof fn lemma_gadget_recombines(x: Seq<nat>, gadget: Seq<[F3; 382]>)
    requires
        x.len() == 191,
        forall|i: int| 0 <= i < 191 ==> #[trigger] x[i] < 3,
        forall|i: int| 0 <= i < 128 ==> #[trigger] x[i] < 2,
        gadget.len() == 191,
        forall|i: int, k: int| 0 <= i < 191 && 0 <= k < 382 ==> f3_is(#[trigger] gadget[i]@[k], if k == i {
            2
        } else if k == i + 191 {
            1
        } else {
            0
        }),
    ensures
        gadget_converted(decomposed(x), gadget) == x,
{
    let d = decomposed(x);
    assert forall|i: int| 0 <= i < 191 implies #[trigger] gadget_converted(d, gadget)[i] == x[i] by {
        assert(f3_is(gadget[i]@[i], 2));
        assert(f3_is(gadget[i]@[i + 191], 1));
        if i < 128 {
            assert(!extended(d, i));
            assert(extended(d, i + 191) == (x[i] == 1));
        } else {
            assert(extended(d, i) == (x[i] / 2 == 1));
            assert(extended(d, i + 191) == (x[i] % 2 == 1));
        }
    }
    assert(gadget_converted(d, gadget) =~= x);
}

/// Recombines bits into ternary symbols with the gadget matrix.
pub fn apply_gadget_convert(input: [bool; 254], gadget: [[F3; 382]; N_PRIME]) -> (r: [F3; N_PRIME])
    requires
        gadget_wf(gadget@),
    ensures
        all_wf(r@),
        tvals(r@) == gadget_converted(input@, gadget@),
{
    let mut output = [F3::zero(); N_PRIME];
    let mut extended_input = [false; 382];
    let mut i: usize = 128;
    while i < 382
        invariant
            128 <= i <= 382,
            forall|k: int| 0 <= k < 128 ==> !(#[trigger] extended_input@[k]),
            forall|k: int| 128 <= k < i ==> extended_input@[k] == input@[k - 128],
        decreases 382 - i,
    {
        extended_input[i] = input[i - 128];
        i = i + 1;
    }
    let mut i: usize = 0;
    while i < N_PRIME
        invariant
            i <= 191,
            gadget_wf(gadget@),
            forall|k: int| 0 <= k < 382 ==> extended_input@[k] == extended(input@, k),
            forall|k: int| 0 <= k < i ==> (#[trigger] output@[k]).wf() && output@[k].val() == gadget_converted(input@, gadget@)[k],
            forall|k: int| i <= k < 191 ==> (#[trigger] output@[k]).wf(),
        decreases 191 - i,
    {
        let row = gadget[i];
        let g_2 = row[i];
        let g_1 = row[i + N_PRIME];
        let input_2: u8 = if extended_input[i] { 1 } else { 0 };
        let input_1: u8 = if extended_input[i + N_PRIME] { 1 } else { 0 };
        let mut value_i = F3::zero();
        match F3::try_from(input_2) {
            Ok(value) => value_i.add_assign(&g_2.mul(&value)),
            Err(_) => {},
        }
        match F3::try_from(input_1) {
            Ok(value) => value_i.add_assign(&g_1.mul(&value)),
            Err(_) => {},
        }
        proof {
            let a = g_2.val() * b2n(extended(input@, i as int));
            let b = g_1.val() * b2n(extended(input@, i + 191));
            assert(value_i.val() == (a % 3 + b % 3) % 3);
            vstd::arithmetic::div_mod::lemma_add_mod_noop(a as int, b as int, 3);
        }
        output[i] = value_i;
        i = i + 1;
    }
    assert(tvals(output@) =~= gadget_converted(input@, gadget@));
    output
}

/// `a[0] * x[0] + ... + a[n - 1] * x[n - 1]`, over the integers.
pub open spec fn dot(a: Seq<F3>, x: Seq<nat>, n: nat) -> int
    decreases n,
{
    if n == 0 {
        0
    } else {
        dot(a, x, (n - 1) as nat) + a[n - 1].val() * x[n - 1]
    }
}

/// The parity check `H x` of a code word given by its symbol values: row `i` is
/// `H[i][0..128] . x[0..128] + x[128 + i]`, modulo three.
pub open spec fn parity(x: Seq<nat>, h: Seq<[F3; 191]>) -> Seq<nat> {
    Seq::new(63, |i: int| ((dot(h[i]@, x, 128) + x[128 + i]) % 3) as nat)
}

/// Every row of the parity-check matrix is well-formed.
pub open spec fn h_wf(h: Seq<[F3; 191]>) -> bool {
    forall|i: int, j: int| 0 <= i < h.len() && 0 <= j < 191 ==> (#[trigger] h[i]@[j]).wf()
}

/// Applies the parity-check matrix, which has the identity in its last 63 columns, to a
/// ternary code word.
pub fn apply_parity_check_matrix(input: [F3; N_PRIME], h: [[F3; N_PRIME]; 63]) -> (r: [F3; 63])
    requires
        all_wf(input@),
        h_wf(h@),
    ensures
        all_wf(r@),
        tvals(r@) == parity(tvals(input@), h@),
{
    let mut output = [F3::zero(); 63];
    let mut i: usize = 0;
    while i < 63
        invariant
            i <= 63,
            all_wf(input@),
            h_wf(h@),
            forall|k: int| 0 <= k < i ==> (#[trigger] output@[k]).wf() && output@[k].val() == parity(tvals(input@), h@)[k],
            forall|k: int| i <= k < 63 ==> (#[trigger] output@[k]).wf(),
        decreases 63 - i,
    {
        let row = h[i];
        let mut value_i = F3::zero();
        let mut j: usize = 0;
        while j < D
            invariant
                j <= 128,
                i < 63,
                row == h@[i as int],
                all_wf(input@),
                h_wf(h@),
                value_i.wf(),
                value_i.val() == dot(row@, tvals(input@), j as nat) % 3,
            decreases 128 - j,
        {
            let h_ij = row[j];
            assert(h_ij.wf());
            let t = h_ij.mul(&input[j]);
            proof {
                let prev = dot(row@, tvals(input@), j as nat);
                let p = h_ij.val() * input@[j as int].val();
                assert(dot(row@, tvals(input@), (j + 1) as nat) == prev + p);
                vstd::arithmetic::div_mod::lemma_add_mod_noop(prev, p as int, 3);
            }
            value_i.add_assign(&t);
            j = j + 1;
        }
        let last = input[i + D];
        proof {
            let s = dot(row@, tvals(input@), 128);
            vstd::arithmetic::div_mod::lemma_add_mod_noop(s, last.val() as int, 3);
            vstd::arithmetic::div_mod::lemma_mod_twice(last.val() as int, 3);
        }
        value_i.add_assign(&last);
        output[i] = value_i;
        i = i + 1;
    }
    assert(tvals(output@) =~= parity(tvals(input@), h@));
    output
}


/// The element of value `v`, for `v < 3`.
pub open spec fn f3_is(e: F3, v: nat) -> bool {
    e.wf() && e.val() == v
}

/// `g`, the gadget and `h` form the code built from the 63 * 128 random symbols `v`:
/// `G` is the identity on top of the rows of `v`; the gadget has `2` at `(i, i)` and `1`
/// at `(i, i + 191)`; `H` is the negated rows of `v` followed by the identity.
pub open spec fn is_linear_code(v: Seq<F3>, g: Seq<[F3; 128]>, gadget: Seq<[F3; 382]>, h: Seq<[F3; 191]>) -> bool {
    &&& forall|i: int, j: int| 0 <= i < 128 && 0 <= j < 128 ==> f3_is(#[trigger] g[i]@[j], if i == j { 1 } else { 0 })
    &&& forall|r: int, j: int| 0 <= r < 63 && 0 <= j < 128 ==> #[trigger] g[128 + r]@[j] == v[128 * r + j]
    &&& forall|r: int, j: int| 0 <= r < 63 && 0 <= j < 128 ==> f3_is(#[trigger] h[r]@[j], ((3 - v[128 * r + j].val()) % 3) as nat)
    &&& forall|r: int, c: int| 0 <= r < 63 && 0 <= c < 63 ==> f3_is(#[trigger] h[r]@[128 + c], if r == c { 1 } else { 0 })
    &&& forall|i: int, k: int| 0 <= i < 191 && 0 <= k < 382 ==> f3_is(#[trigger] gadget[i]@[k], if k == i { 2 } else if k == i + 191 { 1 } else { 0 })
}

/// Builds the generator matrix, the gadget and the parity-check matrix from the
/// 63 * 128 symbols `values` of the redundant rows of the generator, row by row.
pub fn build_linear_code(values: &Vec<F3>) -> (r: ([[F3; 128]; 191], [[F3; 382]; 191], [[F3; 191]; 63]))
    requires
        values.len() == 63 * 128,
        all_wf(values@),
    ensures
        is_linear_code(values@, r.0@, r.1@, r.2@),
        forall|i: int, j: int| 0 <= i < 191 && 0 <= j < 128 ==> (#[trigger] r.0@[i]@[j]).wf(),
        gadget_wf(r.1@),
        h_wf(r.2@),
{
    let mut g = [[F3::zero(); 128]; 191];
    let mut h = [[F3::zero(); 191]; 63];
    let mut g_gadget = [[F3::zero(); 382]; 191];
    let mut i: usize = 0;
    while i < 128
        invariant
            i <= 128,
            forall|a: int, b: int| 0 <= a < 191 && 0 <= b < 128 ==> f3_is(#[trigger] g@[a]@[b], if a == b && a < i { 1 } else { 0 }),
        decreases 128 - i,
    {
        let mut row = g[i];
        row[i] = F3::one();
        g[i] = row;
        i = i + 1;
    }
    let mut i: usize = 0;
    while i < 63
        invariant
            i <= 63,
            values.len() == 63 * 128,
            all_wf(values@),
            forall|a: int, b: int| 0 <= a < 128 && 0 <= b < 128 ==> f3_is(#[trigger] g@[a]@[b], if a == b { 1 } else { 0 }),
            forall|r: int, b: int| 0 <= r < i && 0 <= b < 128 ==> #[trigger] g@[128 + r]@[b] == values@[128 * r + b],
            forall|r: int, b: int| i <= r < 63 && 0 <= b < 128 ==> f3_is(#[trigger] g@[128 + r]@[b], 0),
            forall|r: int, b: int| 0 <= r < i && 0 <= b < 128 ==> f3_is(#[trigger] h@[r]@[b], ((3 - values@[128 * r + b].val()) % 3) as nat),
            forall|r: int, b: int| 0 <= r < 63 && 128 <= b < 191 ==> f3_is(#[trigger] h@[r]@[b], 0),
            forall|r: int, b: int| i <= r < 63 && 0 <= b < 191 ==> f3_is(#[trigger] h@[r]@[b], 0),
        decreases 63 - i,
    {
        let mut grow = g[128 + i];
        let mut hrow = h[i];
        let mut j: usize = 0;
        while j < 128
            invariant
                j <= 128,
                i < 63,
                values.len() == 63 * 128,
                all_wf(values@),
                forall|b: int| 0 <= b < j ==> #[trigger] grow@[b] == values@[128 * i + b],
                forall|b: int| j <= b < 128 ==> f3_is(#[trigger] grow@[b], 0),
                forall|b: int| 0 <= b < j ==> f3_is(#[trigger] hrow@[b], ((3 - values@[128 * i + b].val()) % 3) as nat),
                forall|b: int| j <= b < 191 ==> f3_is(#[trigger] hrow@[b], 0),
            decreases 128 - j,
        {
            let value = values[128 * i + j];
            assert(value.wf());
            grow[j] = value;
            hrow[j] = value.neg();
            j = j + 1;
        }
        g[128 + i] = grow;
        h[i] = hrow;
        i = i + 1;
    }
    let mut i: usize = 0;
    while i < 63
        invariant
            i <= 63,
            values.len() == 63 * 128,
            all_wf(values@),
            forall|a: int, b: int| 0 <= a < 128 && 0 <= b < 128 ==> f3_is(#[trigger] g@[a]@[b], if a == b { 1 } else { 0 }),
            forall|r: int, b: int| 0 <= r < 63 && 0 <= b < 128 ==> #[trigger] g@[128 + r]@[b] == values@[128 * r + b],
            forall|r: int, b: int| 0 <= r < 63 && 0 <= b < 128 ==> f3_is(#[trigger] h@[r]@[b], ((3 - values@[128 * r + b].val()) % 3) as nat),
            forall|r: int, c: int| 0 <= r < i && 0 <= c < 63 ==> f3_is(#[trigger] h@[r]@[128 + c], if r == c { 1 } else { 0 }),
            forall|r: int, c: int| i <= r < 63 && 0 <= c < 63 ==> f3_is(#[trigger] h@[r]@[128 + c], 0),
        decreases 63 - i,
    {
        let mut hrow = h[i];
        hrow[i + 128] = F3::one();
        h[i] = hrow;
        i = i + 1;
    }
    let mut i: usize = 0;
    while i < 191
        invariant
            i <= 191,
            values.len() == 63 * 128,
            all_wf(values@),
            forall|a: int, b: int| 0 <= a < 128 && 0 <= b < 128 ==> f3_is(#[trigger] g@[a]@[b], if a == b { 1 } else { 0 }),
            forall|r: int, b: int| 0 <= r < 63 && 0 <= b < 128 ==> #[trigger] g@[128 + r]@[b] == values@[128 * r + b],
            forall|r: int, b: int| 0 <= r < 63 && 0 <= b < 128 ==> f3_is(#[trigger] h@[r]@[b], ((3 - values@[128 * r + b].val()) % 3) as nat),
            forall|r: int, c: int| 0 <= r < 63 && 0 <= c < 63 ==> f3_is(#[trigger] h@[r]@[128 + c], if r == c { 1 } else { 0 }),
            forall|a: int, k: int| 0 <= a < i && 0 <= k < 382 ==> f3_is(#[trigger] g_gadget@[a]@[k], if k == a { 2 } else if k == a + 191 { 1 } else { 0 }),
            forall|a: int, k: int| i <= a < 191 && 0 <= k < 382 ==> f3_is(#[trigger] g_gadget@[a]@[k], 0),
        decreases 191 - i,
    {
        let mut row = g_gadget[i];
        row[i] = F3::one().add(&F3::one());
        row[i + 191] = F3::one();
        g_gadget[i] = row;
        i = i + 1;
    }
    assert forall|a: int, b: int| 0 <= a < 191 && 0 <= b < 128 implies (#[trigger] g@[a]@[b]).wf() by {
        if a >= 128 {
            assert(g@[128 + (a - 128)]@[b] == values@[128 * (a - 128) + b]);
        }
    }
    assert forall|a: int, b: int| 0 <= a < 63 && 0 <= b < 191 implies (#[trigger] h@[a]@[b]).wf() by {
        if b >= 128 {
            assert(f3_is(h@[a]@[128 + (b - 128)], if a == b - 128 { 1 } else { 0 }));
        }
    }
    (g, g_gadget, h)
}


/// The symbols drawn from random words: each word modulo three.
pub open spec fn symbols_of_words(w: Seq<u32>) -> Seq<F3> {
    Seq::new(w.len(), |i: int| F3::of_nat((w[i] % 3) as nat))
}

/// The seed of the public code: 32 zero bytes.
pub open spec fn code_seed() -> Seq<u8> {
    Seq::new(32, |i: int| 0u8)
}

/// Builds the code whose 63 * 128 redundant symbols are the given random words modulo
/// three.
pub fn linear_code_from_words(words: &Vec<u32>) -> (r: ([[F3; 128]; 191], [[F3; 382]; 191], [[F3; 191]; 63]))
    requires
        words.len() == 63 * 128,
    ensures
        is_linear_code(symbols_of_words(words@), r.0@, r.1@, r.2@),
        forall|i: int, j: int| 0 <= i < 191 && 0 <= j < 128 ==> (#[trigger] r.0@[i]@[j]).wf(),
        gadget_wf(r.1@),
        h_wf(r.2@),
{
    let mut values: Vec<F3> = Vec::new();
    let mut k: usize = 0;
    while k < words.len()
        invariant
            k <= words.len(),
            values@ == symbols_of_words(words@).take(k as int),
            all_wf(values@),
        decreases words.len() - k,
    {
        let v = F3::from_u8_mod((words[k] % 3) as u8);
        proof {
            crate::f3::lemma_f3_of_nat((words[k as int] % 3) as nat);
            crate::f3::lemma_f3_val_injective(v, F3::of_nat((words[k as int] % 3) as nat));
        }
        values.push(v);
        k = k + 1;
        assert(values@ =~= symbols_of_words(words@).take(k as int));
    }
    assert(values@ =~= symbols_of_words(words@));
    build_linear_code(&values)
}

/// The public code: its 63 * 128 redundant symbols are the first words of a `StdRng`
/// seeded with zeros, modulo three, so that every call builds the same code.
pub fn generate_linear_code() -> (r: ([[F3; 128]; 191], [[F3; 382]; 191], [[F3; 191]; 63]))
    ensures
        is_linear_code(symbols_of_words(crate::rng::std_rng_u32s(code_seed(), 63 * 128)), r.0@, r.1@, r.2@),
        forall|i: int, j: int| 0 <= i < 191 && 0 <= j < 128 ==> (#[trigger] r.0@[i]@[j]).wf(),
        gadget_wf(r.1@),
        h_wf(r.2@),
{
    let seed = [0u8; 32];
    assert(seed@ =~= code_seed());
    let words = crate::rng::seeded_u32s(seed, 63 * 128);
    linear_code_from_words(&words)
}

/// The 128 bits of `x`, least significant first.
pub open spec fn bits_of(x: u128) -> Seq<nat> {
    Seq::new(128, |j: int| ((x >> (j as u128)) & 1u128) as nat)
}

/// The code word `G x` of the bits of `x`, as symbol values.
pub open spec fn code_word(x: u128, g: Seq<[F3; 128]>) -> Seq<nat> {
    Seq::new(
        191,
        |i: int| if i < 128 { bits_of(x)[i] } else { (dot(g[i]@, bits_of(x), 128) % 3) as nat },
    )
}

/// The 256 bits of the encoding of `x`: the decomposition of `G x` followed by two
/// ones.
pub open spec fn encoded_bits(x: u128, g: Seq<[F3; 128]>) -> Seq<bool> {
    decomposed(code_word(x, g)) + seq![true, true]
}

proof fn lemma_bit_small(x: u128, j: u128)
    by (bit_vector)
    ensures
        (x >> j) & 1u128 <= 1u128,
{
}

/// Encodes a 128-bit input: the code word `G x` of its bits is decomposed into 254 bits,
/// two ones are appended, and bit `k` of the 256 becomes the coefficient of `x^(255 - k)`
/// of the field element.
pub fn encode_input(input: u128, g: [[F3; D]; N_PRIME]) -> (r: crate::f256b::F256b)
    requires
        forall|i: int, j: int| 0 <= i < 191 && 0 <= j < 128 ==> (#[trigger] g@[i]@[j]).wf(),
    ensures
        r.poly() == Seq::new(256, |t: int| encoded_bits(input, g@)[255 - t]),
{
    let mut gx = [F3::zero(); N_PRIME];
    let mut i: usize = 0;
    while i < D
        invariant
            i <= 128,
            forall|k: int| 0 <= k < i ==> f3_is(#[trigger] gx@[k], bits_of(input)[k]),
            forall|k: int| i <= k < 191 ==> f3_is(#[trigger] gx@[k], 0),
        decreases 128 - i,
    {
        let bit = (input >> i) & 1;
        proof {
            lemma_bit_small(input, i as u128);
        }
        gx[i] = F3 { msb: 0, lsb: bit as u8 };
        i = i + 1;
    }
    while i < N_PRIME
        invariant
            128 <= i <= 191,
            forall|a: int, b: int| 0 <= a < 191 && 0 <= b < 128 ==> (#[trigger] g@[a]@[b]).wf(),
            forall|k: int| 0 <= k < 128 ==> f3_is(#[trigger] gx@[k], bits_of(input)[k]),
            forall|k: int| 128 <= k < i ==> f3_is(#[trigger] gx@[k], code_word(input, g@)[k]),
            forall|k: int| i <= k < 191 ==> f3_is(#[trigger] gx@[k], 0),
        decreases 191 - i,
    {
        let row = g[i];
        let mut value_i = F3::zero();
        let mut j: usize = 0;
        while j < D
            invariant
                j <= 128,
                128 <= i < 191,
                row == g@[i as int],
                forall|a: int, b: int| 0 <= a < 191 && 0 <= b < 128 ==> (#[trigger] g@[a]@[b]).wf(),
                value_i.wf(),
                value_i.val() == dot(row@, bits_of(input), j as nat) % 3,
            decreases 128 - j,
        {
            let bit = (input >> j) & 1;
            proof {
                lemma_bit_small(input, j as u128);
            }
            let x_j = F3 { msb: 0, lsb: bit as u8 };
            let g_ij = row[j];
            assert(g_ij.wf());
            let t = g_ij.mul(&x_j);
            proof {
                let prev = dot(row@, bits_of(input), j as nat);
                let p = g_ij.val() * bits_of(input)[j as int];
                assert(dot(row@, bits_of(input), (j + 1) as nat) == prev + p);
                vstd::arithmetic::div_mod::lemma_add_mod_noop(prev, p as int, 3);
            }
            value_i.add_assign(&t);
            j = j + 1;
        }
        gx[i] = value_i;
        i = i + 1;
    }
    assert(tvals(gx@) =~= code_word(input, g@));
    assert forall|k: int| 0 <= k < 128 implies (#[trigger] gx@[k]).val() < 2 by {
        lemma_bit_small(input, k as u128);
    }
    let dec = decompose(gx);
    let ghost enc = encoded_bits(input, g@);
    let mut low: u128 = 0;
    let mut high: u128 = 0;
    assert forall|t: int| 0 <= t < 128 implies !(#[trigger] crate::f256b::bitb(0u128, t)) by {
        crate::f256b::lemma_word_bits(0, 0, t as u128);
    }
    let mut i: usize = 0;
    while i < 128
        invariant
            i <= 128,
            dec@ == decomposed(code_word(input, g@)),
            enc == encoded_bits(input, g@),
            forall|t: int| 0 <= t < 128 ==> #[trigger] crate::f256b::bitb(low, t) == (t >= 128 - i && enc[255 - t]),
            forall|t: int| 0 <= t < 128 ==> #[trigger] crate::f256b::bitb(high, t) == (t >= 128 - i && enc[127 - t]),
        decreases 128 - i,
    {
        let lb = if 128 + i < 254 {
            dec[128 + i]
        } else {
            true
        };
        let hb = dec[i];
        let s: u128 = (127 - i) as u128;
        let ghost low0 = low;
        let ghost high0 = high;
        if lb {
            low = low | (1u128 << s);
        }
        if hb {
            high = high | (1u128 << s);
        }
        proof {
            assert(lb == enc[128 + i]);
            assert(hb == enc[i as int]);
            assert forall|t: int| 0 <= t < 128 implies #[trigger] crate::f256b::bitb(low, t) == (t >= 128 - (i + 1) && enc[255 - t]) by {
                assert(crate::f256b::bitb(low0, t) == (t >= 128 - i && enc[255 - t]));
                if lb {
                    crate::f256b::lemma_word_bits(low0, s, t as u128);
                }
            }
            assert forall|t: int| 0 <= t < 128 implies #[trigger] crate::f256b::bitb(high, t) == (t >= 128 - (i + 1) && enc[127 - t]) by {
                assert(crate::f256b::bitb(high0, t) == (t >= 128 - i && enc[127 - t]));
                if hb {
                    crate::f256b::lemma_word_bits(high0, s, t as u128);
                }
            }
        }
        i = i + 1;
    }
    let r = crate::f256b::F256b { high, low };
    assert(r.poly() =~= Seq::new(256, |t: int| encoded_bits(input, g@)[255 - t]));
    r
}


proof fn lemma_dot_ext(a: Seq<F3>, x: Seq<nat>, y: Seq<nat>, n: nat)
    requires
        forall|j: int| 0 <= j < n ==> x[j] == y[j],
    ensures
        dot(a, x, n) == dot(a, y, n),
    decreases n,
{
    if n > 0 {
        lemma_dot_ext(a, x, y, (n - 1) as nat);
    }
}

proof fn lemma_dot_neg(a: Seq<F3>, b: Seq<F3>, x: Seq<nat>, n: nat)
    requires
        forall|j: int| 0 <= j < n ==> (#[trigger] b[j]).wf() && a[j].val() == (3 - b[j].val()) % 3,
    ensures
        (dot(a, x, n) + dot(b, x, n)) % 3 == 0,
    decreases n,
{
    if n > 0 {
        let k = n - 1;
        lemma_dot_neg(a, b, x, k as nat);
        let prev = dot(a, x, k as nat) + dot(b, x, k as nat);
        assert(b[k].wf());
        let t = a[k].val() * x[k] + b[k].val() * x[k];
        assert(t == 3 * x[k] || t == 0) by (nonlinear_arith)
            requires
                t == a[k].val() * x[k] + b[k].val() * x[k],
                (a[k].val() == 0 && b[k].val() == 0) || a[k].val() + b[k].val() == 3,
        ;
        assert(dot(a, x, n) + dot(b, x, n) == prev + t);
        vstd::arithmetic::div_mod::lemma_mod_multiples_vanish(x[k] as int, prev, 3);
    }
}

/// Every encoding passes the parity check: its first 254 bits, recombined into
/// ternary symbols with the gadget and multiplied by `H`, give zero, for every input
/// and every code built by [`build_linear_code`].
pub proof fn lemma_encoding_passes_parity_check(
    v: Seq<F3>,
    g: Seq<[F3; 128]>,
    gadget: Seq<[F3; 382]>,
    h: Seq<[F3; 191]>,
    x: u128,
)
    requires
        v.len() == 63 * 128,
        all_wf(v),
        g.len() == 191,
        gadget.len() == 191,
        h.len() == 63,
        is_linear_code(v, g, gadget, h),
    ensures
        parity(gadget_converted(encoded_bits(x, g).take(254), gadget), h) == Seq::new(63, |i: int| 0nat),
{
    let w = code_word(x, g);
    let dec = decomposed(w);
    assert(encoded_bits(x, g).take(254) =~= dec);
    assert forall|j: int| 0 <= j < 128 implies #[trigger] w[j] < 2 by {
        lemma_bit_small(x, j as u128);
    }
    assert forall|i: int| 128 <= i < 191 implies #[trigger] w[i] < 3 by {
    }
    let c = gadget_converted(dec, gadget);
    assert forall|i: int| 0 <= i < 191 implies #[trigger] c[i] == w[i] by {
        assert(f3_is(gadget[i]@[i], 2));
        assert(f3_is(gadget[i]@[i + 191], 1));
        if i < 128 {
            assert(!extended(dec, i));
            assert(extended(dec, i + 191) == (w[i] == 1));
        } else {
            assert(extended(dec, i) == (w[i] / 2 == 1));
            assert(extended(dec, i + 191) == (w[i] % 2 == 1));
        }
    }
    assert(c =~= w);
    let bits = bits_of(x);
    assert forall|r: int| 0 <= r < 63 implies #[trigger] parity(w, h)[r] == 0 by {
        let hr = h[r]@;
        let gr = g[128 + r]@;
        assert forall|j: int| 0 <= j < 128 implies (#[trigger] gr[j]).wf() && hr[j].val() == (3 - gr[j].val()) % 3 by {
            assert(g[128 + r]@[j] == v[128 * r + j]);
            assert(f3_is(h[r]@[j], ((3 - v[128 * r + j].val()) % 3) as nat));
        }
        lemma_dot_ext(hr, w, bits, 128);
        lemma_dot_neg(hr, gr, bits, 128);
        let a = dot(hr, bits, 128);
        let b = dot(gr, bits, 128);
        vstd::arithmetic::div_mod::lemma_add_mod_noop(a, b, 3);
        vstd::arithmetic::div_mod::lemma_mod_twice(b, 3);
        vstd::arithmetic::div_mod::lemma_add_mod_noop(a, b % 3, 3);
    }
    assert(parity(w, h) =~= Seq::new(63, |i: int| 0nat));
}


/// Symbol `k` of a decomposition over `F82t` extended by 128 leading zeros.
pub open spec fn extended82(input: Seq<F82t>, k: int) -> Seq<nat> {
    if k < 128 {
        pzero(82)
    } else {
        input[k - 128].poly()
    }
}

/// Recombines authenticated bits (elements of `F82t`) into authenticated ternary symbols
/// with the gadget matrix: symbol `i` is `gadget[i][i] * e[i] + gadget[i][i + 191] *
/// e[i + 191]`, where `e` is the input after 128 zeros.
pub fn apply_gadget(input: [F82t; 254], gadget: [[F3; 382]; N_PRIME]) -> (r: [F82t; N_PRIME])
    requires
        forall|k: int| 0 <= k < 254 ==> (#[trigger] input@[k]).wf(),
        gadget_wf(gadget@),
    ensures
        forall|i: int| 0 <= i < 191 ==> (#[trigger] r@[i]).wf() && r@[i].poly() == padd(
            pscale(gadget@[i]@[i].val(), extended82(input@, i)),
            pscale(gadget@[i]@[i + 191].val(), extended82(input@, i + 191)),
        ),
{
    let mut output = [F82t::zero(); N_PRIME];
    let mut extended_input = [F82t::zero(); 382];
    let mut i: usize = 128;
    while i < 382
        invariant
            128 <= i <= 382,
            forall|k: int| 0 <= k < 254 ==> (#[trigger] input@[k]).wf(),
            forall|k: int| 0 <= k < 382 ==> (#[trigger] extended_input@[k]).wf(),
            forall|k: int| 0 <= k < 128 ==> (#[trigger] extended_input@[k]).poly() == pzero(82),
            forall|k: int| 128 <= k < i ==> #[trigger] extended_input@[k] == input@[k - 128],
        decreases 382 - i,
    {
        extended_input[i] = input[i - 128];
        i = i + 1;
    }
    let mut i: usize = 0;
    while i < N_PRIME
        invariant
            i <= 191,
            gadget_wf(gadget@),
            forall|k: int| 0 <= k < 382 ==> (#[trigger] extended_input@[k]).wf() && extended_input@[k].poly() == extended82(input@, k),
            forall|k: int| 0 <= k < i ==> (#[trigger] output@[k]).wf() && output@[k].poly() == padd(
                pscale(gadget@[k]@[k].val(), extended82(input@, k)),
                pscale(gadget@[k]@[k + 191].val(), extended82(input@, k + 191)),
            ),
            forall|k: int| i <= k < 191 ==> (#[trigger] output@[k]).wf(),
        decreases 191 - i,
    {
        let row = gadget[i];
        let g_2 = row[i];
        let g_1 = row[i + N_PRIME];
        let mut value_i = F82t::scale(g_2, &extended_input[i]);
        value_i.add_assign(&F82t::scale(g_1, &extended_input[i + N_PRIME]));
        output[i] = value_i;
        i = i + 1;
    }
    output
}

/// Copies an array of elements into a vector.
fn f64t_array_to_vec(a: [F64t; N_PRIME]) -> (r: Vec<F64t>)
    ensures
        r@ == a@,
{
    let mut r: Vec<F64t> = Vec::new();
    let mut i: usize = 0;
    while i < N_PRIME
        invariant
            i <= 191,
            r@ == a@.take(i as int),
        decreases 191 - i,
    {
        r.push(a[i]);
        i = i + 1;
        assert(r@ =~= a@.take(i as int));
    }
    assert(a@.take(191) =~= a@);
    r
}

/// Copies an array of elements into a vector.
fn f82t_array_to_vec(a: [F82t; N_PRIME]) -> (r: Vec<F82t>)
    ensures
        r@ == a@,
{
    let mut r: Vec<F82t> = Vec::new();
    let mut i: usize = 0;
    while i < N_PRIME
        invariant
            i <= 191,
            r@ == a@.take(i as int),
        decreases 191 - i,
    {
        r.push(a[i]);
        i = i + 1;
        assert(r@ =~= a@.take(i as int));
    }
    assert(a@.take(191) =~= a@);
    r
}

/// The first 128 entries of a row of the parity-check matrix.
fn message_part(row: [F3; N_PRIME]) -> (r: [F3; D])
    ensures
        r@ == row@.take(128),
{
    let mut r = [F3::zero(); D];
    let mut j: usize = 0;
    while j < D
        invariant
            j <= 128,
            forall|k: int| 0 <= k < j ==> r@[k] == row@[k],
        decreases 128 - j,
    {
        r[j] = row[j];
        j = j + 1;
    }
    assert(r@ =~= row@.take(128));
    r
}

/// Applies the parity-check matrix to a code word over `F64t`: row `i` is
/// `H[i][0..128] . x[0..128] + x[128 + i]`.
pub fn apply_parity_check_matrix_f64t(input: [F64t; N_PRIME], h: [[F3; N_PRIME]; 63]) -> (r: [F64t; 63])
    requires
        forall|k: int| 0 <= k < 191 ==> (#[trigger] input@[k]).wf(),
        h_wf(h@),
    ensures
        forall|i: int| 0 <= i < 63 ==> (#[trigger] r@[i]).wf() && r@[i].poly() == padd(
            plincomb(f3_vals(h@[i]@.take(128)), f64t_polys(input@), 64, 128),
            input@[128 + i].poly(),
        ),
{
    let mut output = [F64t::zero(); 63];
    let v = f64t_array_to_vec(input);
    let mut i: usize = 0;
    while i < 63
        invariant
            i <= 63,
            v@ == input@,
            forall|k: int| 0 <= k < 191 ==> (#[trigger] input@[k]).wf(),
            h_wf(h@),
            forall|k: int| 0 <= k < i ==> (#[trigger] output@[k]).wf() && output@[k].poly() == padd(
                plincomb(f3_vals(h@[k]@.take(128)), f64t_polys(input@), 64, 128),
                input@[128 + k].poly(),
            ),
            forall|k: int| i <= k < 63 ==> (#[trigger] output@[k]).wf(),
        decreases 63 - i,
    {
        let h_arr = message_part(h[i]);
        assert forall|k: int| 0 <= k < 128 implies (#[trigger] h_arr@[k]).wf() by {
            assert(h@[i as int]@[k].wf());
        }
        let mut value_i = F64t::compute_vector(h_arr, &v);
        value_i.add_assign(&input[i + D]);
        output[i] = value_i;
        i = i + 1;
    }
    output
}

/// Applies the parity-check matrix to a code word over `F82t`: row `i` is
/// `H[i][0..128] . x[0..128] + x[128 + i]`.
pub fn apply_parity_check_matrix_f82t(input: [F82t; N_PRIME], h: [[F3; N_PRIME]; 63]) -> (r: [F82t; 63])
    requires
        forall|k: int| 0 <= k < 191 ==> (#[trigger] input@[k]).wf(),
        h_wf(h@),
    ensures
        forall|i: int| 0 <= i < 63 ==> (#[trigger] r@[i]).wf() && r@[i].poly() == padd(
            plincomb(f3_vals(h@[i]@.take(128)), f82t_polys(input@), 82, 128),
            input@[128 + i].poly(),
        ),
{
    let mut output = [F82t::zero(); 63];
    let v = f82t_array_to_vec(input);
    let mut i: usize = 0;
    while i < 63
        invariant
            i <= 63,
            v@ == input@,
            forall|k: int| 0 <= k < 191 ==> (#[trigger] input@[k]).wf(),
            h_wf(h@),
            forall|k: int| 0 <= k < i ==> (#[trigger] output@[k]).wf() && output@[k].poly() == padd(
                plincomb(f3_vals(h@[k]@.take(128)), f82t_polys(input@), 82, 128),
                input@[128 + k].poly(),
            ),
            forall|k: int| i <= k < 63 ==> (#[trigger] output@[k]).wf(),
        decreases 63 - i,
    {
        let h_arr = message_part(h[i]);
        assert forall|k: int| 0 <= k < 128 implies (#[trigger] h_arr@[k]).wf() by {
            assert(h@[i as int]@[k].wf());
        }
        let mut value_i = F82t::compute_vector(h_arr, &v);
        value_i.add_assign(&input[i + D]);
        output[i] = value_i;
        i = i + 1;
    }
    output
}

} // verus!
