//! The computations of the semi-honest OPRF: the binary halves of the shared bits packed
//! into elements of GF(2^256), and the conversion of the opened masked value into GF(3)
//! shares of the weak PRF's output.
use vstd::prelude::*;
use crate::f3::F3;
use crate::f256b::F256b;
use crate::gf2poly::{badd, bmono};
use crate::convert::{bit3, conv_val_client, conv_val_server, lemma_convert_values, lemma_tables_add};
use crate::matrix_util::{b_wf, b_times, poly_bits, table_row_sum, is_table_for};
use crate::input_encoding::all_wf;

verus! {

/// The binary half of bit `i` of batch entry `j`.
pub open spec fn d_bit_of_entry(d_bits: Seq<(u8, F3)>, j: int, i: int) -> bool {
    d_bits[j * 256 + i].0 == 1
}

/// The 256 GF(3) shares of batch entry `j`.
pub open spec fn share_block(shares: Seq<F3>, j: int) -> Seq<F3> {
    Seq::new(256, |i: int| shares[j * 256 + i])
}

/// The GF(3) halves of the shared bits.
pub open spec fn d_bit_values(d_bits: Seq<(u8, F3)>) -> Seq<F3> {
    Seq::new(d_bits.len(), |p: int| d_bits[p].1)
}

/// The GF(3) halves of the bits of batch entry `j`.
pub open spec fn d_bit_shares(d_bits: Seq<(u8, F3)>, j: int) -> Seq<F3> {
    share_block(d_bit_values(d_bits), j)
}

/// The binary halves are bits and the GF(3) halves are elements of GF(3), for the first
/// `batch_size` entries of 256 bits.
pub open spec fn d_bits_ok(d_bits: Seq<(u8, F3)>, batch_size: nat) -> bool {
    &&& batch_size * 256 <= d_bits.len()
    &&& forall|p: int| 0 <= p < batch_size * 256 ==> (#[trigger] d_bits[p]).0 <= 1 && d_bits[p].1.wf()
}

/// The first `batch_size` entries of 256 shares are elements of GF(3).
pub open spec fn shares_ok(shares: Seq<F3>, batch_size: nat) -> bool {
    &&& batch_size * 256 <= shares.len()
    &&& forall|p: int| 0 <= p < batch_size * 256 ==> (#[trigger] shares[p]).wf()
}

proof fn lemma_entry_index(j: int, i: int, batch_size: int)
    requires
        0 <= j < batch_size,
        0 <= i < 256,
    ensures
        0 <= j * 256 + i < batch_size * 256,
{
    assert(j * 256 + 256 <= batch_size * 256) by (nonlinear_arith)
        requires
            j < batch_size,
    ;
}

/// Packs the binary halves of each batch entry into one element of GF(2^256): bit `i` of
/// entry `j` becomes the coefficient of `x^i`.
pub fn pack_d_bits(d_bits: &Vec<(u8, F3)>, batch_size: usize) -> (r: Vec<F256b>)
    requires
        d_bits_ok(d_bits@, batch_size as nat),
    ensures
        r.len() == batch_size,
        forall|j: int, i: int| 0 <= j < batch_size && 0 <= i < 256 ==> (#[trigger] r[j].poly()[i]) == d_bit_of_entry(d_bits@, j, i),
{
    let mut r: Vec<F256b> = Vec::new();
    let mut j: usize = 0;
    while j < batch_size
        invariant
            j <= batch_size,
            d_bits_ok(d_bits@, batch_size as nat),
            r.len() == j,
            forall|jj: int, i: int| 0 <= jj < j && 0 <= i < 256 ==> (#[trigger] r[jj].poly()[i]) == d_bit_of_entry(d_bits@, jj, i),
        decreases batch_size - j,
    {
        let n_bits = d_bits.len();
        proof {
            lemma_entry_index(j as int, 0, batch_size as int);
            assert(j * 256 < n_bits);
        }
        let base = j * 256;
        let mut value = if d_bits[base].0 == 1 {
            F256b::one()
        } else {
            F256b::zero()
        };
        let mut pow = F256b::one();
        let mut i: usize = 1;
        proof {
            assert forall|k: int| 0 <= k < 256 implies (#[trigger] value.poly()[k]) == (k < 1 && d_bit_of_entry(d_bits@, j as int, k)) by {
            }
        }
        while i < 256
            invariant
                1 <= i <= 256,
                j < batch_size,
                base == j * 256,
                d_bits_ok(d_bits@, batch_size as nat),
                pow.poly() == bmono(256, i - 1),
                forall|k: int| 0 <= k < 256 ==> (#[trigger] value.poly()[k]) == (k < i && d_bit_of_entry(d_bits@, j as int, k)),
            decreases 256 - i,
        {
            proof {
                crate::vole_util::lemma_mono_times_x(i - 1);
                lemma_entry_index(j as int, i as int, batch_size as int);
            }
            pow.shift_left_once();
            let ghost before = value.poly();
            if d_bits[base + i].0 == 1 {
                value.add_assign(&pow);
            }
            proof {
                assert forall|k: int| 0 <= k < 256 implies (#[trigger] value.poly()[k]) == (k < i + 1 && d_bit_of_entry(d_bits@, j as int, k)) by {
                    if d_bits@[j * 256 + i].0 == 1 {
                        assert(value.poly()[k] == (before[k] != bmono(256, i as int)[k]));
                    }
                }
            }
            i = i + 1;
        }
        r.push(value);
        j = j + 1;
    }
    r
}

/// The converted GF(3) shares of one batch entry: `c + s + c s` for the party that adds the
/// public bit `c`, `s + c s` for the other.
pub open spec fn semi_conv_seq(shares: Seq<F3>, c: F256b, adds_c: bool) -> Seq<F3> {
    Seq::new(
        256,
        |i: int|
            F3::of_nat(
                if adds_c {
                    conv_val_server(shares[i].val(), c.poly()[i])
                } else {
                    conv_val_client(shares[i].val(), c.poly()[i])
                },
            ),
    )
}

/// Converts GF(3) shares of bits under the opened values `c` and applies `B` by its
/// tables; entry `j`, row `i` lands at `j * 82 + i`.
pub(crate) fn convert_shares(shares: &Vec<F3>, batch_size: usize, b_tables: &Vec<F3>, c: &Vec<F256b>, adds_c: bool) -> (out: Vec<F3>)
    requires
        shares_ok(shares@, batch_size as nat),
        c.len() >= batch_size,
        b_tables.len() == 16 * 65536 * 82,
        all_wf(b_tables@),
    ensures
        out.len() == batch_size * 82,
        forall|p: int| 0 <= p < out.len() ==> (#[trigger] out[p]).wf() && out[p].val() == table_row_sum(
            b_tables@,
            semi_conv_seq(share_block(shares@, p / 82), c[p / 82], adds_c),
            p % 82,
            16,
        ) % 3,
{
    let mut out: Vec<F3> = Vec::new();
    let mut j: usize = 0;
    while j < batch_size
        invariant
            j <= batch_size,
            shares_ok(shares@, batch_size as nat),
            c.len() >= batch_size,
            b_tables.len() == 16 * 65536 * 82,
            all_wf(b_tables@),
            out.len() == j * 82,
            forall|p: int| 0 <= p < out.len() ==> (#[trigger] out[p]).wf() && out[p].val() == table_row_sum(
                b_tables@,
                semi_conv_seq(share_block(shares@, p / 82), c[p / 82], adds_c),
                p % 82,
                16,
            ) % 3,
        decreases batch_size - j,
    {
        let cj = c[j];
        let ghost target = semi_conv_seq(share_block(shares@, j as int), cj, adds_c);
        let mut vals = [F3::zero(); 256];
        let mut i: usize = 0;
        while i < 256
            invariant
                i <= 256,
                j < batch_size,
                shares_ok(shares@, batch_size as nat),
                target == semi_conv_seq(share_block(shares@, j as int), cj, adds_c),
                forall|k: int| 0 <= k < i ==> (#[trigger] vals@[k]) == target[k] && vals@[k].wf(),
            decreases 256 - i,
        {
            let n_shares = shares.len();
            proof {
                lemma_entry_index(j as int, i as int, batch_size as int);
                assert(j * 256 + i < n_shares);
            }
            let s = shares[j * 256 + i];
            let ci = if i < 128 {
                (cj.low >> (i as u128)) & 1 == 1
            } else {
                (cj.high >> ((i - 128) as u128)) & 1 == 1
            };
            assert(ci == cj.poly()[i as int]);
            let c3 = if ci {
                F3::one()
            } else {
                F3::zero()
            };
            let cs = c3.mul(&s);
            let v = if adds_c {
                c3.add(&s).add(&cs)
            } else {
                s.add(&cs)
            };
            proof {
                let x = s.val() as int;
                let b = c3.val() as int;
                assert(b == bit3(ci));
                vstd::arithmetic::div_mod::lemma_add_mod_noop(b + x, b * x, 3);
                vstd::arithmetic::div_mod::lemma_add_mod_noop(x, b * x, 3);
                vstd::arithmetic::div_mod::lemma_mod_twice(b + x, 3);
                vstd::arithmetic::div_mod::lemma_mod_twice(b * x, 3);
                vstd::arithmetic::div_mod::lemma_small_mod(s.val(), 3);
                let want = if adds_c {
                    conv_val_server(s.val(), ci)
                } else {
                    conv_val_client(s.val(), ci)
                };
                crate::f3::lemma_f3_of_nat(want);
                crate::f3::lemma_f3_val_injective(v, F3::of_nat(want));
                assert(share_block(shares@, j as int)[i as int] == s);
            }
            vals[i] = v;
            i = i + 1;
        }
        proof {
            assert(vals@ =~= target);
        }
        let outs = crate::matrix_util::compute_row_using_table(b_tables, vals);
        let mut k: usize = 0;
        while k < 82
            invariant
                k <= 82,
                j < batch_size,
                outs.len() == 82,
                all_wf(outs@),
                forall|row: int| 0 <= row < 82 ==> (#[trigger] outs@[row]).val() == table_row_sum(b_tables@, target, row, 16) % 3,
                target == semi_conv_seq(share_block(shares@, j as int), cj, adds_c),
                cj == c[j as int],
                out.len() == j * 82 + k,
                forall|p: int| 0 <= p < out.len() ==> (#[trigger] out[p]).wf() && out[p].val() == table_row_sum(
                    b_tables@,
                    semi_conv_seq(share_block(shares@, p / 82), c[p / 82], adds_c),
                    p % 82,
                    16,
                ) % 3,
            decreases 82 - k,
        {
            proof {
                vstd::arithmetic::div_mod::lemma_fundamental_div_mod_converse(j * 82 + k, 82, j as int, k as int);
            }
            out.push(outs[k]);
            k = k + 1;
        }
        j = j + 1;
    }
    out
}

/// The GF(3) halves of the shared bits.
fn d_bit_share_vec(d_bits: &Vec<(u8, F3)>, batch_size: usize) -> (r: Vec<F3>)
    requires
        d_bits_ok(d_bits@, batch_size as nat),
    ensures
        r@ == d_bit_values(d_bits@),
        shares_ok(r@, batch_size as nat),
{
    let mut r: Vec<F3> = Vec::new();
    let mut p: usize = 0;
    while p < d_bits.len()
        invariant
            p <= d_bits.len(),
            d_bits_ok(d_bits@, batch_size as nat),
            r@ == d_bit_values(d_bits@).take(p as int),
        decreases d_bits.len() - p,
    {
        r.push(d_bits[p].1);
        p = p + 1;
        assert(r@ =~= d_bit_values(d_bits@).take(p as int));
    }
    assert(r@ =~= d_bit_values(d_bits@));
    r
}

/// The client's GF(3) output shares: it adds the public bits to its converted shares.
pub fn semi_convert_client(d_bits: &Vec<(u8, F3)>, batch_size: usize, b_tables: &Vec<F3>, c: &Vec<F256b>) -> (out: Vec<F3>)
    requires
        d_bits_ok(d_bits@, batch_size as nat),
        c.len() >= batch_size,
        b_tables.len() == 16 * 65536 * 82,
        all_wf(b_tables@),
    ensures
        out.len() == batch_size * 82,
        forall|p: int| 0 <= p < out.len() ==> (#[trigger] out[p]).wf() && out[p].val() == table_row_sum(
            b_tables@,
            semi_conv_seq(d_bit_shares(d_bits@, p / 82), c[p / 82], true),
            p % 82,
            16,
        ) % 3,
{
    let shares = d_bit_share_vec(d_bits, batch_size);
    convert_shares(&shares, batch_size, b_tables, c, true)
}

/// The server's GF(3) output shares.
pub fn semi_convert_server(d_bits: &Vec<(u8, F3)>, batch_size: usize, b_tables: &Vec<F3>, c: &Vec<F256b>) -> (out: Vec<F3>)
    requires
        d_bits_ok(d_bits@, batch_size as nat),
        c.len() >= batch_size,
        b_tables.len() == 16 * 65536 * 82,
        all_wf(b_tables@),
    ensures
        out.len() == batch_size * 82,
        forall|p: int| 0 <= p < out.len() ==> (#[trigger] out[p]).wf() && out[p].val() == table_row_sum(
            b_tables@,
            semi_conv_seq(d_bit_shares(d_bits@, p / 82), c[p / 82], false),
            p % 82,
            16,
        ) % 3,
{
    let shares = d_bit_share_vec(d_bits, batch_size);
    convert_shares(&shares, batch_size, b_tables, c, false)
}

/// Converting plain GF(3) shares evaluates `B` on the unmasked value: when the two
/// parties' shares of each bit add up to bit `i` of `r`, the opened value is `c = y + r`
/// and the tables are those of `B`, the outputs of the party that adds the public bits and
/// of the other party add up, row by row, to `B` times the bits of `y`. This holds for the
/// semi-honest protocol (the client adds) and for the one with a malicious client (the
/// server adds).
pub proof fn lemma_semi_conversion_evaluates_b(
    adding: Seq<F3>,
    other: Seq<F3>,
    r: F256b,
    y: F256b,
    c: F256b,
    b: Seq<[F3; 256]>,
    table: Seq<F3>,
    row: int,
)
    requires
        adding.len() == 256,
        other.len() == 256,
        all_wf(adding),
        all_wf(other),
        forall|i: int| 0 <= i < 256 ==> ((#[trigger] adding[i]).val() + other[i].val()) % 3 == bit3(r.poly()[i]),
        c.poly() == badd(y.poly(), r.poly()),
        is_table_for(table, b),
        b.len() == 82,
        b_wf(b),
        0 <= row < 82,
    ensures
        (table_row_sum(table, semi_conv_seq(adding, c, true), row, 16) % 3 + table_row_sum(
            table,
            semi_conv_seq(other, c, false),
            row,
            16,
        ) % 3) % 3 == b_times(b, poly_bits(y.poly()))[row],
{
    let vc = semi_conv_seq(adding, c, true);
    let vs = semi_conv_seq(other, c, false);
    let w = poly_bits(y.poly());
    assert forall|i: int| 0 <= i < 256 implies (#[trigger] vc[i]).wf() && vs[i].wf() && (vc[i].val() + vs[i].val()) % 3 == w[i] % 3 by {
        let xc = adding[i].val();
        let xs = other[i].val();
        let ci = c.poly()[i];
        let ri = r.poly()[i];
        assert(xc < 3 && xs < 3);
        lemma_convert_values(xs, xc, ri, ci);
        crate::f3::lemma_f3_of_nat(conv_val_server(xc, ci));
        crate::f3::lemma_f3_of_nat(conv_val_client(xs, ci));
        assert(ci == (y.poly()[i] != ri));
    }
    lemma_tables_add(table, b, vc, vs, w, row);
}

} // verus!
