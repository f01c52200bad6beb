//! The public ternary matrix `B` of the weak PRF: its product with a ternary vector,
//! directly and with tables of precomputed window sums, and the weak PRF in the clear.
use vstd::prelude::*;
use vstd::arithmetic::div_mod::*;
use crate::f3::F3;
use crate::f256b::{F256b, red256};
use crate::gf2poly::bmul;
use crate::input_encoding::{dot, tvals, b2n, all_wf};

verus! {

/// Every entry of `B` is well-formed.
pub open spec fn b_wf(b: Seq<[F3; 256]>) -> bool {
    forall|i: int, j: int| 0 <= i < b.len() && 0 <= j < 256 ==> (#[trigger] b[i]@[j]).wf()
}

/// `B x` over GF(3): row `r` is `B[r] . x`.
pub open spec fn b_times(b: Seq<[F3; 256]>, x: Seq<nat>) -> Seq<nat> {
    Seq::new(82, |r: int| (dot(b[r]@, x, 256) % 3) as nat)
}

/// Multiplies `B` by a ternary vector.
pub fn apply_b(b: [[F3; 256]; 82], input: [F3; 256]) -> (r: [F3; 82])
    requires
        b_wf(b@),
        all_wf(input@),
    ensures
        all_wf(r@),
        tvals(r@) == b_times(b@, tvals(input@)),
{
    let mut out = [F3::zero(); 82];
    let mut row: usize = 0;
    while row < 82
        invariant
            row <= 82,
            b_wf(b@),
            all_wf(input@),
            forall|k: int| 0 <= k < row ==> (#[trigger] out@[k]).wf() && out@[k].val() == b_times(b@, tvals(input@))[k],
            forall|k: int| row <= k < 82 ==> (#[trigger] out@[k]).wf(),
        decreases 82 - row,
    {
        let brow = b[row];
        let mut value = F3::zero();
        let mut j: usize = 0;
        while j < 256
            invariant
                j <= 256,
                row < 82,
                brow == b@[row as int],
                b_wf(b@),
                all_wf(input@),
                value.wf(),
                value.val() == dot(brow@, tvals(input@), j as nat) % 3,
            decreases 256 - j,
        {
            let bj = brow[j];
            assert(bj.wf());
            let t = bj.mul(&input[j]);
            proof {
                let prev = dot(brow@, tvals(input@), j as nat);
                let p = bj.val() * input@[j as int].val();
                assert(dot(brow@, tvals(input@), (j + 1) as nat) == prev + p);
                lemma_add_mod_noop(prev, p as int, 3);
            }
            value = value.add(&t);
            j = j + 1;
        }
        out[row] = value;
        row = row + 1;
    }
    assert(tvals(out@) =~= b_times(b@, tvals(input@)));
    out
}

/// The coefficients of a field element of GF(2^256) as ternary values 0 and 1.
pub open spec fn poly_bits(s: Seq<bool>) -> Seq<nat> {
    Seq::new(s.len(), |j: int| b2n(s[j]))
}

/// The weak PRF in the clear: the product `key * input` in GF(2^256), read as 256
/// ternary bits (coefficient of `x^j` at index `j`), multiplied by `B` over GF(3).
pub fn w_prf_clear(key: F256b, input: F256b, b: [[F3; 256]; 82]) -> (r: Vec<F3>)
    requires
        b_wf(b@),
    ensures
        all_wf(r@),
        r.len() == 82,
        tvals(r@) == b_times(b@, poly_bits(bmul(key.poly(), input.poly(), red256()))),
{
    let product = key.mul(&input);
    let ghost bits = poly_bits(product.poly());
    let mut product_decompose: Vec<F3> = Vec::new();
    let mut i: u32 = 0;
    while i < 128
        invariant
            i <= 128,
            bits == poly_bits(product.poly()),
            product_decompose.len() == i,
            forall|k: int| 0 <= k < i ==> f3_bit(#[trigger] product_decompose@[k], bits[k]),
        decreases 128 - i,
    {
        let c_i = (product.low >> i) & 1;
        proof {
            lemma_bit_u128(product.low, i as u128);
        }
        match F3::try_from_u128(c_i) {
            Ok(c) => product_decompose.push(c),
            Err(_) => product_decompose.push(F3::zero()),
        }
        i = i + 1;
    }
    let mut i: u32 = 0;
    while i < 128
        invariant
            i <= 128,
            bits == poly_bits(product.poly()),
            product_decompose.len() == 128 + i,
            forall|k: int| 0 <= k < 128 + i ==> f3_bit(#[trigger] product_decompose@[k], bits[k]),
        decreases 128 - i,
    {
        let c_i = (product.high >> i) & 1;
        proof {
            lemma_bit_u128(product.high, i as u128);
        }
        match F3::try_from_u128(c_i) {
            Ok(c) => product_decompose.push(c),
            Err(_) => product_decompose.push(F3::zero()),
        }
        i = i + 1;
    }
    assert(tvals(product_decompose@) =~= bits);
    let mut out: Vec<F3> = Vec::new();
    let mut i: usize = 0;
    while i < 82
        invariant
            i <= 82,
            b_wf(b@),
            product_decompose.len() == 256,
            all_wf(product_decompose@),
            tvals(product_decompose@) == bits,
            out.len() == i,
            forall|k: int| 0 <= k < i ==> (#[trigger] out@[k]).wf() && out@[k].val() == b_times(b@, bits)[k],
        decreases 82 - i,
    {
        let brow = b[i];
        let mut value = F3::zero();
        let mut j: usize = 0;
        while j < 256
            invariant
                j <= 256,
                i < 82,
                brow == b@[i as int],
                b_wf(b@),
                product_decompose.len() == 256,
                all_wf(product_decompose@),
                tvals(product_decompose@) == bits,
                value.wf(),
                value.val() == dot(brow@, bits, j as nat) % 3,
            decreases 256 - j,
        {
            let bj = brow[j];
            assert(bj.wf());
            let x = product_decompose[j];
            let t = bj.mul(&x);
            proof {
                let prev = dot(brow@, bits, j as nat);
                assert(bits[j as int] == x.val());
                let p = bj.val() * bits[j as int];
                assert(dot(brow@, bits, (j + 1) as nat) == prev + p);
                lemma_add_mod_noop(prev, p as int, 3);
            }
            value = value.add(&t);
            j = j + 1;
        }
        out.push(value);
        i = i + 1;
    }
    assert(tvals(out@) =~= b_times(b@, bits));
    out
}

/// `e` is the well-formed element of value `v`.
pub open spec fn f3_bit(e: F3, v: nat) -> bool {
    e.wf() && e.val() == v
}

proof fn lemma_bit_u128(w: u128, i: u128)
    by (bit_vector)
    requires
        i < 128,
    ensures
        (w >> i) & 1u128 <= 1,
        ((w >> i) & 1u128 == 1u128) == ((w >> i) & 1u128 == 1),
{
}


/// Width of the windows of `B`'s columns that the tables cover.
const WINDOWS_SIZE: usize = 16;

/// Bit `j` of the 16-bit integer `i`.
pub open spec fn bit16(i: int, j: int) -> bool {
    ((i as u16) >> (j as u16)) & 1u16 == 1u16
}

/// The sum of the entries of row `r` of `B` in window `k` at the positions `j < n` whose
/// bit is set in `i`, over the integers.
pub open spec fn window_sum(b: Seq<[F3; 256]>, r: int, k: int, i: int, n: nat) -> int
    decreases n,
{
    if n == 0 {
        0
    } else {
        window_sum(b, r, k, i, (n - 1) as nat) + if bit16(i, n - 1) {
            b[r]@[16 * k + (n - 1)].val() as int
        } else {
            0
        }
    }
}

/// The position of the entry for window `k`, window bits `i` and row `r` in the tables.
pub open spec fn tidx(k: int, i: int, r: int) -> int {
    (k * 65536 + i) * 82 + r
}

/// Every entry stored so far is the window sum that belongs at its position.
pub open spec fn table_prefix_ok(t: Seq<F3>, b: Seq<[F3; 256]>) -> bool {
    forall|k: int, i: int, r: int|
        0 <= k < 16 && 0 <= i < 65536 && 0 <= r < 82 && tidx(k, i, r) < t.len() ==> f3_bit(
            #[trigger] t[tidx(k, i, r)],
            (window_sum(b, r, k, i, 16) % 3) as nat,
        )
}

/// `t` holds, for every window `k` of 16 columns, every pattern `i` of 16 bits and
/// every row `r`, the sum modulo three of the entries of row `r` of `B` in window `k`
/// selected by `i`.
pub open spec fn is_table_for(t: Seq<F3>, b: Seq<[F3; 256]>) -> bool {
    t.len() == 16 * 65536 * 82 && table_prefix_ok(t, b)
}

proof fn lemma_tidx_injective(k1: int, i1: int, r1: int, k2: int, i2: int, r2: int)
    requires
        0 <= k1 < 16 && 0 <= i1 < 65536 && 0 <= r1 < 82,
        0 <= k2 < 16 && 0 <= i2 < 65536 && 0 <= r2 < 82,
        tidx(k1, i1, r1) == tidx(k2, i2, r2),
    ensures
        k1 == k2 && i1 == i2 && r1 == r2,
{
    let t = tidx(k1, i1, r1);
    lemma_fundamental_div_mod_converse(t, 82, k1 * 65536 + i1, r1);
    lemma_fundamental_div_mod_converse(t, 82, k2 * 65536 + i2, r2);
    lemma_fundamental_div_mod_converse(k1 * 65536 + i1, 65536, k1, i1);
    lemma_fundamental_div_mod_converse(k2 * 65536 + i2, 65536, k2, i2);
}

proof fn lemma_bit16(v: u16, j: u16)
    by (bit_vector)
    requires
        j < 16,
    ensures
        ((v >> j) & 1u16 == 1u16) == ((v >> j) & 1u16 == 1),
        (v >> j) & 1u16 <= 1,
{
}

/// Tables of window sums of `B`: for each of the 16 windows of 16 columns, each of the
/// 65536 patterns of bits and each of the 82 rows, the sum of the row's entries in the
/// window selected by the pattern.
pub fn generate_precompute_tables(b: [[F3; 256]; 82]) -> (table: Vec<F3>)
    requires
        b_wf(b@),
    ensures
        is_table_for(table@, b@),
        all_wf(table@),
{
    let mut table: Vec<F3> = Vec::new();
    proof {
        vstd::arithmetic::power2::lemma2_to64();
        vstd::bits::lemma_usize_shl_is_mul(1, 16);
    }
    let n_patterns: usize = 1usize << WINDOWS_SIZE;
    let mut k: usize = 0;
    while k < 256 / WINDOWS_SIZE
        invariant
            k <= 16,
            n_patterns == 65536,
            b_wf(b@),
            table.len() == tidx(k as int, 0, 0),
            table_prefix_ok(table@, b@),
            all_wf(table@),
        decreases 16 - k,
    {
        let mut i: usize = 0;
        while i < n_patterns
            invariant
                n_patterns == 65536,
                k < 16,
                i <= 65536,
                b_wf(b@),
                table.len() == tidx(k as int, i as int, 0),
                table_prefix_ok(table@, b@),
            all_wf(table@),
            decreases 65536 - i,
        {
            let mut row: usize = 0;
            while row < 82
                invariant
                    k < 16,
                    i < 65536,
                    row <= 82,
                    b_wf(b@),
                    table.len() == tidx(k as int, i as int, row as int),
                    table_prefix_ok(table@, b@),
            all_wf(table@),
                decreases 82 - row,
            {
                let input = i as u16;
                let brow = b[row];
                let mut output = F3::zero();
                let mut j: usize = 0;
                while j < WINDOWS_SIZE
                    invariant
                        k < 16,
                        i < 65536,
                        row < 82,
                        j <= 16,
                        input == i as u16,
                        brow == b@[row as int],
                        b_wf(b@),
                        output.wf(),
                        output.val() == window_sum(b@, row as int, k as int, i as int, j as nat) % 3,
                    decreases 16 - j,
                {
                    let bit = (input >> j as u16) & 1;
                    proof {
                        lemma_bit16(input, j as u16);
                    }
                    if bit == 1 {
                        let e = brow[k * WINDOWS_SIZE + j];
                        assert(e.wf());
                        proof {
                            lemma_add_mod_noop(window_sum(b@, row as int, k as int, i as int, j as nat), e.val() as int, 3);
                            lemma_mod_twice(e.val() as int, 3);
                        }
                        output.add_assign(&e);
                    }
                    j = j + 1;
                }
                let ghost before = table@;
                table.push(output);
                proof {
                    assert forall|q: int| 0 <= q < table@.len() implies (#[trigger] table@[q]).wf() by {
                        if q < before.len() {
                            assert(table@[q] == before[q]);
                        }
                    }
                    assert forall|kk: int, ii: int, rr: int|
                        0 <= kk < 16 && 0 <= ii < 65536 && 0 <= rr < 82 && tidx(kk, ii, rr) < table@.len() implies f3_bit(
                        #[trigger] table@[tidx(kk, ii, rr)],
                        (window_sum(b@, rr, kk, ii, 16) % 3) as nat,
                    ) by {
                        if tidx(kk, ii, rr) == before.len() {
                            lemma_tidx_injective(kk, ii, rr, k as int, i as int, row as int);
                        } else {
                            assert(table@[tidx(kk, ii, rr)] == before[tidx(kk, ii, rr)]);
                        }
                    }
                }
                row = row + 1;
            }
            i = i + 1;
        }
        k = k + 1;
    }
    table
}


/// Bit `1` (`hi`) or bit `0` of the value of a ternary element.
pub open spec fn sel_bit(e: F3, hi: bool) -> nat {
    if hi {
        e.val() / 2
    } else {
        e.val() % 2
    }
}

/// The 16 bits `sel_bit(input[16 * w + j], hi)` for `j < n`, packed with bit `j` at
/// position `j`.
pub open spec fn pack_bits(input: Seq<F3>, w: int, hi: bool, n: nat) -> u16
    decreases n,
{
    if n == 0 {
        0
    } else {
        pack_bits(input, w, hi, (n - 1) as nat) | ((sel_bit(input[16 * w + (n - 1)], hi) as u16) << ((n - 1) as u16))
    }
}

/// The table lookups of [`compute_row_using_table`] for row `r`, summed over the first
/// `n` windows: the entry for the low bits minus the entry for the high bits.
pub open spec fn table_row_sum(t: Seq<F3>, input: Seq<F3>, r: int, n: nat) -> int
    decreases n,
{
    if n == 0 {
        0
    } else {
        table_row_sum(t, input, r, (n - 1) as nat) + t[tidx(n - 1, pack_bits(input, n - 1, false, 16) as int, r)].val()
            - t[tidx(n - 1, pack_bits(input, n - 1, true, 16) as int, r)].val()
    }
}

proof fn lemma_or_bit(x: u16, s: u16, m: u16, j: u16)
    by (bit_vector)
    requires
        s <= 1,
        m < 16,
        j < 16,
    ensures
        (((x | (s << m)) >> j) & 1u16 == 1u16) == (((x >> j) & 1u16 == 1u16) || (j == m && s == 1)),
{
}

proof fn lemma_zero_bit16(j: u16)
    by (bit_vector)
    requires
        j < 16,
    ensures
        ((0u16 >> j) & 1u16 == 1u16) == false,
{
}

/// The bits of a packed pattern are the selected bits of the symbols.
proof fn lemma_pack_bits(input: Seq<F3>, w: int, hi: bool, n: nat)
    requires
        n <= 16,
        forall|j: int| 0 <= j < n ==> (#[trigger] input[16 * w + j]).wf(),
    ensures
        forall|j: int| 0 <= j < 16 ==> #[trigger] bit16(pack_bits(input, w, hi, n) as int, j) == (j < n && sel_bit(input[16 * w + j], hi) == 1),
    decreases n,
{
    if n == 0 {
        assert forall|j: int| 0 <= j < 16 implies #[trigger] bit16(pack_bits(input, w, hi, n) as int, j) == false by {
            lemma_zero_bit16(j as u16);
        }
    } else {
        lemma_pack_bits(input, w, hi, (n - 1) as nat);
        let e = input[16 * w + (n - 1)];
        assert(e.wf());
        let s = sel_bit(e, hi);
        assert(s <= 1);
        assert forall|j: int| 0 <= j < 16 implies #[trigger] bit16(pack_bits(input, w, hi, n) as int, j) == (j < n && sel_bit(input[16 * w + j], hi) == 1) by {
            lemma_or_bit(pack_bits(input, w, hi, (n - 1) as nat), s as u16, (n - 1) as u16, j as u16);
            assert(bit16(pack_bits(input, w, hi, (n - 1) as nat) as int, j) == (j < n - 1 && sel_bit(input[16 * w + j], hi) == 1));
        }
    }
}

/// The terms of row `row` of `B` times `x` in window `w`, over its first `n` positions.
pub open spec fn block(a: Seq<F3>, x: Seq<nat>, w: int, n: nat) -> int
    decreases n,
{
    if n == 0 {
        0
    } else {
        block(a, x, w, (n - 1) as nat) + a[16 * w + (n - 1)].val() * x[16 * w + (n - 1)]
    }
}

proof fn lemma_dot_blocks(a: Seq<F3>, x: Seq<nat>, w: nat, n: nat)
    ensures
        dot(a, x, 16 * w + n) == dot(a, x, 16 * w) + block(a, x, w as int, n),
    decreases n,
{
    if n > 0 {
        lemma_dot_blocks(a, x, w, (n - 1) as nat);
        assert(dot(a, x, 16 * w + n) == dot(a, x, (16 * w + (n - 1)) as nat) + a[16 * w + (n - 1)].val() * x[16 * w + (n - 1)]);
    }
}

/// The low-bit window sum minus the high-bit window sum, plus three times the high-bit
/// terms, is the block of `B[r] . x`.
proof fn lemma_window_block(b: Seq<[F3; 256]>, r: int, input: Seq<F3>, w: int, n: nat) -> (m: int)
    requires
        0 <= r < b.len(),
        0 <= w < 16,
        n <= 16,
        input.len() == 256,
        all_wf(input),
        forall|j: int| 0 <= j < 256 ==> (#[trigger] b[r]@[j]).wf(),
    ensures
        window_sum(b, r, w, pack_bits(input, w, false, 16) as int, n)
            - window_sum(b, r, w, pack_bits(input, w, true, 16) as int, n) + 3 * m == block(b[r]@, tvals(input), w, n),
    decreases n,
{
    let lp = pack_bits(input, w, false, 16) as int;
    let hp = pack_bits(input, w, true, 16) as int;
    if n == 0 {
        assert(window_sum(b, r, w, lp, n) - window_sum(b, r, w, hp, n) + 3 * 0 == block(b[r]@, tvals(input), w, n));
        0
    } else {
        let m0 = lemma_window_block(b, r, input, w, (n - 1) as nat);
        assert forall|j: int| 0 <= j < 16 implies (#[trigger] input[16 * w + j]).wf() by {
            assert(input[16 * w + j].wf());
        }
        lemma_pack_bits(input, w, false, 16);
        lemma_pack_bits(input, w, true, 16);
        let k = n - 1;
        let e = input[16 * w + k];
        let c = b[r]@[16 * w + k].val() as int;
        assert(e.wf());
        assert(bit16(lp, k) == (e.val() % 2 == 1));
        assert(bit16(hp, k) == (e.val() / 2 == 1));
        let hb: int = if e.val() / 2 == 1 { 1 } else { 0 };
        assert(tvals(input)[16 * w + k] == e.val());
        assert((if e.val() % 2 == 1 { c } else { 0 }) - (if e.val() / 2 == 1 { c } else { 0 }) + 3 * (hb * c) == c * e.val()) by (nonlinear_arith)
            requires
                e.val() < 3,
                hb == (if e.val() / 2 == 1 { 1int } else { 0int }),
        ;
        assert(c * e.val() == b[r]@[16 * w + k].val() * tvals(input)[16 * w + k]);
        assert(window_sum(b, r, w, lp, n) - window_sum(b, r, w, hp, n) + 3 * (m0 + hb * c) == block(b[r]@, tvals(input), w, n));
        m0 + hb * c
    }
}

/// The table lookups over the first `n` windows agree modulo three with `B[r] . x`
/// over the first `16 n` columns.
proof fn lemma_table_row_sum(t: Seq<F3>, b: Seq<[F3; 256]>, input: Seq<F3>, r: int, n: nat)
    requires
        is_table_for(t, b),
        b.len() == 82,
        b_wf(b),
        input.len() == 256,
        all_wf(input),
        0 <= r < 82,
        n <= 16,
    ensures
        table_row_sum(t, input, r, n) % 3 == dot(b[r]@, tvals(input), 16 * n) % 3,
    decreases n,
{
    if n > 0 {
        let w = n - 1;
        lemma_table_row_sum(t, b, input, r, w as nat);
        let lp = pack_bits(input, w, false, 16) as int;
        let hp = pack_bits(input, w, true, 16) as int;
        assert(f3_bit(t[tidx(w, lp, r)], (window_sum(b, r, w, lp, 16) % 3) as nat));
        assert(f3_bit(t[tidx(w, hp, r)], (window_sum(b, r, w, hp, 16) % 3) as nat));
        assert forall|j: int| 0 <= j < 256 implies (#[trigger] b[r]@[j]).wf() by {
            assert(b[r]@[j].wf());
        }
        let m = lemma_window_block(b, r, input, w, 16);
        lemma_dot_blocks(b[r]@, tvals(input), w as nat, 16);
        let prev = table_row_sum(t, input, r, w as nat);
        let wl = window_sum(b, r, w, lp, 16);
        let wh = window_sum(b, r, w, hp, 16);
        let d0 = dot(b[r]@, tvals(input), (16 * w) as nat);
        let bl = block(b[r]@, tvals(input), w, 16);
        assert(table_row_sum(t, input, r, n) == prev + wl % 3 - wh % 3);
        lemma_add_mod_noop(prev, wl % 3 - wh % 3, 3);
        lemma_sub_mod_noop(wl % 3, wh % 3, 3);
        lemma_mod_twice(wl, 3);
        lemma_mod_twice(wh, 3);
        lemma_sub_mod_noop(wl, wh, 3);
        lemma_mod_multiples_vanish(m, wl - wh, 3);
        lemma_add_mod_noop(prev, wl - wh, 3);
        lemma_add_mod_noop(d0, bl, 3);
        assert(16 * w + 16 == 16 * n);
    }
}

/// The rows of `B x` computed from the tables are those of [`apply_b`]: looking up the
/// window sums for the low bits and the high bits of the symbols and subtracting gives
/// `B x`, for every input and every matrix the tables were built for.
pub proof fn lemma_table_lookup_is_apply_b(t: Seq<F3>, b: Seq<[F3; 256]>, input: Seq<F3>)
    requires
        is_table_for(t, b),
        b.len() == 82,
        b_wf(b),
        input.len() == 256,
        all_wf(input),
    ensures
        forall|r: int| 0 <= r < 82 ==> #[trigger] (table_row_sum(t, input, r, 16) % 3) == b_times(b, tvals(input))[r],
{
    assert forall|r: int| 0 <= r < 82 implies #[trigger] (table_row_sum(t, input, r, 16) % 3) == b_times(b, tvals(input))[r] by {
        lemma_table_row_sum(t, b, input, r, 16);
    }
}


proof fn lemma_low_bits(v: u8)
    by (bit_vector)
    requires
        v < 3,
    ensures
        (v & 1) as u16 == (v % 2) as u16,
        ((v >> 1) & 1) as u16 == (v / 2) as u16,
{
}

/// Packs bit 0 (`hi == false`) or bit 1 of the 16 symbols of window `w`.
fn pack_window(input: &[F3; 256], w: usize, hi: bool) -> (r: u16)
    requires
        w < 16,
        all_wf(input@),
    ensures
        r == pack_bits(input@, w as int, hi, 16),
{
    let mut value: u16 = 0;
    let mut j: usize = 0;
    while j < WINDOWS_SIZE
        invariant
            w < 16,
            j <= 16,
            all_wf(input@),
            value == pack_bits(input@, w as int, hi, j as nat),
        decreases 16 - j,
    {
        let u8_value = input[w * WINDOWS_SIZE + j].to_u8();
        proof {
            lemma_low_bits(u8_value);
        }
        let bit: u16 = if hi {
            ((u8_value >> 1) & 1) as u16
        } else {
            (u8_value & 1) as u16
        };
        value = value | (bit << j as u16);
        j = j + 1;
    }
    value
}

/// `B x` from the tables of window sums: for each window, the entry for the low bits of
/// the symbols minus the entry for their high bits (since `2 = -1` modulo three).
pub fn compute_row_using_table(table: &Vec<F3>, input: [F3; 256]) -> (r: Vec<F3>)
    requires
        table.len() == 16 * 65536 * 82,
        all_wf(table@),
        all_wf(input@),
    ensures
        r.len() == 82,
        all_wf(r@),
        forall|row: int| 0 <= row < 82 ==> (#[trigger] r@[row]).val() == table_row_sum(table@, input@, row, 16) % 3,
{
    let mut msb: [u16; 16] = [0; 16];
    let mut lsb: [u16; 16] = [0; 16];
    let mut i: usize = 0;
    while i < 256 / WINDOWS_SIZE
        invariant
            i <= 16,
            all_wf(input@),
            forall|w: int| 0 <= w < i ==> lsb@[w] == pack_bits(input@, w, false, 16) && msb@[w] == pack_bits(input@, w, true, 16),
        decreases 16 - i,
    {
        lsb[i] = pack_window(&input, i, false);
        msb[i] = pack_window(&input, i, true);
        i = i + 1;
    }
    let mut values = [F3::zero(); 82];
    let mut i: usize = 0;
    while i < 256 / WINDOWS_SIZE
        invariant
            i <= 16,
            table.len() == 16 * 65536 * 82,
            all_wf(table@),
            forall|w: int| 0 <= w < 16 ==> lsb@[w] == pack_bits(input@, w, false, 16) && msb@[w] == pack_bits(input@, w, true, 16),
            forall|row: int| 0 <= row < 82 ==> (#[trigger] values@[row]).wf() && values@[row].val() == table_row_sum(table@, input@, row, i as nat) % 3,
        decreases 16 - i,
    {
        let mut row: usize = 0;
        while row < 82
            invariant
                i < 16,
                row <= 82,
                table.len() == 16 * 65536 * 82,
                all_wf(table@),
                forall|w: int| 0 <= w < 16 ==> lsb@[w] == pack_bits(input@, w, false, 16) && msb@[w] == pack_bits(input@, w, true, 16),
                forall|k: int| 0 <= k < row ==> (#[trigger] values@[k]).wf() && values@[k].val() == table_row_sum(table@, input@, k, (i + 1) as nat) % 3,
                forall|k: int| row <= k < 82 ==> (#[trigger] values@[k]).wf() && values@[k].val() == table_row_sum(table@, input@, k, i as nat) % 3,
            decreases 82 - row,
        {
            proof {
                vstd::arithmetic::power2::lemma2_to64();
                vstd::bits::lemma_usize_shl_is_mul(82, 16);
            }
            let stride: usize = 82 * 1 << WINDOWS_SIZE;
            let li = i * stride + (lsb[i] as usize) * 82 + row;
            let mi = i * stride + (msb[i] as usize) * 82 + row;
            assert(li == tidx(i as int, lsb@[i as int] as int, row as int));
            assert(mi == tidx(i as int, msb@[i as int] as int, row as int));
            let a = table[li];
            let b = table[mi];
            let sub_value = a.sub(&b);
            let old_value = values[row];
            let new_value = old_value.add(&sub_value);
            proof {
                let prev = table_row_sum(table@, input@, row as int, i as nat);
                assert(table_row_sum(table@, input@, row as int, (i + 1) as nat) == prev + a.val() - b.val());
                assert(sub_value.val() == (a.val() - b.val()) % 3);
                lemma_add_mod_noop(prev, a.val() - b.val(), 3);
                lemma_mod_twice(a.val() - b.val(), 3);
            }
            values[row] = new_value;
            row = row + 1;
        }
        i = i + 1;
    }
    let mut out: Vec<F3> = Vec::new();
    let mut row: usize = 0;
    while row < 82
        invariant
            row <= 82,
            out.len() == row,
            forall|k: int| 0 <= k < row ==> out@[k] == values@[k],
        decreases 82 - row,
    {
        out.push(values[row]);
        row = row + 1;
    }
    out
}

} // verus!
