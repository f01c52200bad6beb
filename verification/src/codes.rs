//! Parity-check matrices of the small binary codes used to check the consistency of
//! doubly-authenticated bits, and the bucket size of the cut-and-choose check.
use vstd::prelude::*;
use crate::f3::F3;

verus! {

/// A parity-check matrix `[A | I]` of a binary linear code with `n` rows and `b`
/// columns; `k` is the dimension of the code and `zk_d` a distance parameter.
pub struct ParityCheckMatrix<F> {
    /// Number of columns.
    pub b: usize,
    /// Number of rows.
    pub n: usize,
    /// Dimension of the code.
    pub k: usize,
    /// Distance parameter.
    pub zk_d: usize,
    /// The rows of the matrix.
    pub matrix: Vec<Vec<F>>,
}

/// The kinds of code available.
#[derive(Clone, Copy, Debug, PartialEq, Eq, Structural)]
pub enum CodeType {
    /// [`small_code`].
    Small,
    /// [`medium_code`].
    Medium,
    /// [`large_cpde`].
    Large,
}

/// The rows of a matrix as sequences.
pub open spec fn rows_of<F>(m: Vec<Vec<F>>) -> Seq<Seq<F>> {
    Seq::new(m@.len(), |i: int| m@[i]@)
}

/// The code with `n = 3` rows and `b = 6` columns.
pub fn small_code() -> (r: ParityCheckMatrix<bool>)
    ensures
        r.b == 6,
        r.n == 3,
        r.k == 3,
        r.zk_d == 3,
        rows_of(r.matrix) == seq![
            seq![true, true, false, true, false, false],
            seq![true, false, true, false, true, false],
            seq![false, true, false, false, false, true],
        ],
{
    let r = ParityCheckMatrix {
        b: 6,
        n: 3,
        k: 3,
        zk_d: 3,
        matrix: vec![
            vec![true, true, false, true, false, false],
            vec![true, false, true, false, true, false],
            vec![false, true, false, false, false, true],
        ],
    };
    assert(rows_of(r.matrix) =~= seq![
        seq![true, true, false, true, false, false],
        seq![true, false, true, false, true, false],
        seq![false, true, false, false, false, true],
    ]);
    r
}


/// The code with `n = 3` rows and `b = 7` columns.
pub fn medium_code() -> (r: ParityCheckMatrix<bool>)
    ensures
        r.b == 7,
        r.n == 3,
        r.k == 4,
        r.zk_d == 4,
        rows_of(r.matrix) == seq![
            seq![true, true, false, true, true, false, false],
            seq![true, false, true, true, false, true, false],
            seq![false, true, true, true, false, false, true],
        ],
{
    let r = ParityCheckMatrix {
        b: 7,
        n: 3,
        k: 4,
        zk_d: 4,
        matrix: vec![
            vec![true, true, false, true, true, false, false],
            vec![true, false, true, true, false, true, false],
            vec![false, true, true, true, false, false, true],
        ],
    };
    assert(rows_of(r.matrix) =~= seq![
        seq![true, true, false, true, true, false, false],
        seq![true, false, true, true, false, true, false],
        seq![false, true, true, true, false, false, true],
    ]);
    r
}

/// The code with `n = 5` rows and `b = 12` columns.
pub fn large_cpde() -> (r: ParityCheckMatrix<bool>)
    ensures
        r.b == 12,
        r.n == 5,
        r.k == 7,
        r.zk_d == 6,
        rows_of(r.matrix) == seq![
            seq![true, true, false, true, true, false, false, true, false, false, false, false],
            seq![true, false, true, true, false, true, false, false, true, false, false, false],
            seq![false, true, true, true, false, false, true, false, false, true, false, false],
            seq![true, true, false, false, true, true, true, false, false, false, true, false],
            seq![true, false, true, false, true, true, true, false, false, false, false, true],
        ],
{
    let r = ParityCheckMatrix {
        b: 12,
        n: 5,
        k: 7,
        zk_d: 6,
        matrix: vec![
            vec![true, true, false, true, true, false, false, true, false, false, false, false],
            vec![true, false, true, true, false, true, false, false, true, false, false, false],
            vec![false, true, true, true, false, false, true, false, false, true, false, false],
            vec![true, true, false, false, true, true, true, false, false, false, true, false],
            vec![true, false, true, false, true, true, true, false, false, false, false, true],
        ],
    };
    assert(rows_of(r.matrix) =~= seq![
        seq![true, true, false, true, true, false, false, true, false, false, false, false],
        seq![true, false, true, true, false, true, false, false, true, false, false, false],
        seq![false, true, true, true, false, false, true, false, false, true, false, false],
        seq![true, true, false, false, true, true, true, false, false, false, true, false],
        seq![true, false, true, false, true, true, true, false, false, false, false, true],
    ]);
    r
}

/// The bucket size of the cut-and-choose check: 6 below 512 bits, 5 from there on.
pub fn get_bucket_size(batch_size: usize) -> (r: usize)
    ensures
        r == if batch_size < 512 { 6usize } else { 5usize },
{
    proof {
        vstd::arithmetic::power2::lemma2_to64();
        vstd::bits::lemma_usize_shl_is_mul(1, 9);
    }
    if batch_size < 1 << 9 {
        return 6;
    }
    return 5;
}

/// The number of buckets for `output_size` outputs, `k` per bucket: `output_size / k`
/// rounded up.
pub fn bucket_count(output_size: usize, k: usize) -> (ell: usize)
    requires
        k > 0,
        output_size + k <= usize::MAX,
    ensures
        ell == (output_size + k - 1) as int / k as int,
{
    let x = if output_size % k != 0 {
        output_size + (k - (output_size % k))
    } else {
        output_size
    };
    proof {
        let q = output_size as int / k as int;
        let r = output_size as int % k as int;
        vstd::arithmetic::div_mod::lemma_fundamental_div_mod(output_size as int, k as int);
        if r != 0 {
            assert(x == k * (q + 1)) by (nonlinear_arith)
                requires
                    output_size == k * q + r,
                    x == output_size + (k - r),
            ;
            vstd::arithmetic::div_mod::lemma_div_multiples_vanish(q + 1, k as int);
            assert(output_size + k - 1 == k * (q + 1) + (r - 1)) by (nonlinear_arith)
                requires
                    output_size == k * q + r,
            ;
            vstd::arithmetic::div_mod::lemma_div_multiples_vanish_fancy(q + 1, r - 1, k as int);
        } else {
            vstd::arithmetic::div_mod::lemma_div_multiples_vanish(q, k as int);
            vstd::arithmetic::div_mod::lemma_div_multiples_vanish_fancy(q, k - 1, k as int);
        }
    }
    x / k
}

/// The exclusive or of the first `n` bits that `row` selects.
pub open spec fn row_parity(row: Seq<bool>, bits: Seq<bool>, n: int) -> bool
    decreases n,
{
    if n <= 0 {
        false
    } else if row[n - 1] {
        row_parity(row, bits, n - 1) != bits[n - 1]
    } else {
        row_parity(row, bits, n - 1)
    }
}

/// The matrix has at least `b - k` rows of at least `b` entries, `k <= b`.
pub open spec fn checks_fit(m: ParityCheckMatrix<bool>) -> bool {
    &&& m.k <= m.b
    &&& m.matrix@.len() >= m.b - m.k
    &&& forall|i: int| 0 <= i < m.b - m.k ==> (#[trigger] m.matrix@[i])@.len() >= m.b
}

/// The parity of one row of the matrix over the bits.
fn parity_of_row(row: &Vec<bool>, bits: &Vec<bool>, b: usize) -> (r: bool)
    requires
        row.len() >= b,
        bits.len() >= b,
    ensures
        r == row_parity(row@, bits@, b as int),
{
    let mut acc = false;
    let mut j: usize = 0;
    while j < b
        invariant
            j <= b,
            row.len() >= b,
            bits.len() >= b,
            acc == row_parity(row@, bits@, j as int),
        decreases b - j,
    {
        if row[j] {
            acc = acc != bits[j];
        }
        j = j + 1;
    }
    acc
}

/// The parities of a bucket of `b` bits under the first `b - k` rows of the matrix: the
/// values that the binary side opens.
pub fn bucket_parities(matrix: &ParityCheckMatrix<bool>, bucket: &Vec<bool>) -> (c: Vec<bool>)
    requires
        checks_fit(*matrix),
        bucket.len() >= matrix.b,
    ensures
        c.len() == matrix.b - matrix.k,
        forall|i: int| 0 <= i < c.len() ==> c[i] == row_parity(matrix.matrix@[i]@, bucket@, matrix.b as int),
{
    let mut c: Vec<bool> = Vec::new();
    let mut i: usize = 0;
    let n = matrix.b - matrix.k;
    while i < n
        invariant
            i <= n,
            n == matrix.b - matrix.k,
            checks_fit(*matrix),
            bucket.len() >= matrix.b,
            c.len() == i,
            forall|j: int| 0 <= j < i ==> c[j] == row_parity(matrix.matrix@[j]@, bucket@, matrix.b as int),
        decreases n - i,
    {
        assert(matrix.matrix@[i as int]@.len() >= matrix.b);
        let p = parity_of_row(&matrix.matrix[i], bucket, matrix.b);
        c.push(p);
        i = i + 1;
    }
    c
}

/// Exclusive or written in GF(3): `x + y - 2 x y`, which is `x + y + x y` modulo three.
pub open spec fn xor3(x: nat, y: nat) -> nat {
    (x + y + x * y) % 3
}

/// The GF(3) exclusive or of the entries `from..to` that `row` selects.
pub open spec fn row_xor3(row: Seq<bool>, vals: Seq<F3>, from: int, to: int) -> nat
    decreases to - from,
{
    if to <= from {
        0
    } else if row[to - 1] {
        xor3(row_xor3(row, vals, from, to - 1), vals[to - 1].val())
    } else {
        row_xor3(row, vals, from, to - 1)
    }
}

/// Exclusive or in GF(3): `x + y - 2 x y`.
pub fn xor_f3(x: F3, y: F3) -> (r: F3)
    requires
        x.wf(),
        y.wf(),
    ensures
        r.wf(),
        r.val() == xor3(x.val(), y.val()),
{
    let xy = x.mul(&y);
    let r = x.add(&y).add(&xy);
    proof {
        vstd::arithmetic::div_mod::lemma_add_mod_noop((x.val() + y.val()) as int, (x.val() * y.val()) as int, 3);
        vstd::arithmetic::div_mod::lemma_mod_twice((x.val() + y.val()) as int, 3);
        vstd::arithmetic::div_mod::lemma_mod_twice((x.val() * y.val()) as int, 3);
    }
    r
}

/// The GF(3) exclusive or of the selected entries `from..to`.
fn row_xor_f3(row: &Vec<bool>, vals: &Vec<F3>, from: usize, to: usize) -> (r: F3)
    requires
        from <= to,
        row.len() >= to,
        vals.len() >= to,
        forall|j: int| 0 <= j < vals.len() ==> (#[trigger] vals[j]).wf(),
    ensures
        r.wf(),
        r.val() == row_xor3(row@, vals@, from as int, to as int),
{
    let mut acc = F3::zero();
    let mut j: usize = from;
    while j < to
        invariant
            from <= j <= to,
            row.len() >= to,
            vals.len() >= to,
            forall|t: int| 0 <= t < vals.len() ==> (#[trigger] vals[t]).wf(),
            acc.wf(),
            acc.val() == row_xor3(row@, vals@, from as int, j as int),
        decreases to - j,
    {
        if row[j] {
            acc = xor_f3(acc, vals[j]);
        }
        j = j + 1;
    }
    acc
}

/// What the GF(3) side must show to be zero for one row, given the opened parity `c` and
/// the exclusive ors `left` and `right` of the two halves: `left - right` when `c` is 0,
/// `left + right - 1` when it is 1.
pub open spec fn parity_check_of(left: nat, right: nat, c: bool) -> nat {
    if c {
        ((left + right + 2) % 3) as nat
    } else {
        ((left + 2 * right) % 3) as nat
    }
}

/// The values the GF(3) side shows to be zero for a bucket: one per row, from the
/// exclusive ors of the two halves of the bucket and the opened parities.
pub fn bucket_consistency_values(matrix: &ParityCheckMatrix<bool>, bucket: &Vec<F3>, parities: &Vec<bool>) -> (r: Vec<F3>)
    requires
        checks_fit(*matrix),
        bucket.len() >= matrix.b,
        parities.len() == matrix.b - matrix.k,
        forall|j: int| 0 <= j < bucket.len() ==> (#[trigger] bucket[j]).wf(),
    ensures
        r.len() == parities.len(),
        forall|i: int|
            0 <= i < r.len() ==> (#[trigger] r[i]).wf() && r[i].val() == parity_check_of(
                row_xor3(matrix.matrix@[i]@, bucket@, 0, (matrix.b / 2) as int),
                row_xor3(matrix.matrix@[i]@, bucket@, (matrix.b / 2) as int, matrix.b as int),
                parities[i],
            ),
{
    let mut r: Vec<F3> = Vec::new();
    let mut i: usize = 0;
    let n = matrix.b - matrix.k;
    let half = matrix.b / 2;
    while i < n
        invariant
            i <= n,
            n == matrix.b - matrix.k,
            half == matrix.b / 2,
            checks_fit(*matrix),
            bucket.len() >= matrix.b,
            parities.len() == n,
            forall|j: int| 0 <= j < bucket.len() ==> (#[trigger] bucket[j]).wf(),
            r.len() == i,
            forall|t: int|
                0 <= t < i ==> (#[trigger] r[t]).wf() && r[t].val() == parity_check_of(
                    row_xor3(matrix.matrix@[t]@, bucket@, 0, (matrix.b / 2) as int),
                    row_xor3(matrix.matrix@[t]@, bucket@, (matrix.b / 2) as int, matrix.b as int),
                    parities[t],
                ),
        decreases n - i,
    {
        assert(matrix.matrix@[i as int]@.len() >= matrix.b);
        let row = &matrix.matrix[i];
        let left = row_xor_f3(row, bucket, 0, half);
        let right = row_xor_f3(row, bucket, half, matrix.b);
        let v = if parities[i] {
            let one = F3::one();
            left.add(&right).sub(&one)
        } else {
            left.sub(&right)
        };
        proof {
            let l = left.val() as int;
            let rt = right.val() as int;
            if parities[i as int] {
                vstd::arithmetic::div_mod::lemma_small_mod(v.val(), 3);
                vstd::arithmetic::div_mod::lemma_add_mod_noop(l + rt, 2, 3);
                vstd::arithmetic::div_mod::lemma_mod_twice(l + rt, 3);
            } else {
                vstd::arithmetic::div_mod::lemma_small_mod(v.val(), 3);
            }
        }
        r.push(v);
        i = i + 1;
    }
    r
}

/// The GF(3) copy of a bit.
pub open spec fn bit3(b: bool) -> nat {
    if b {
        1
    } else {
        0
    }
}

/// On bits, the GF(3) exclusive or of the selected entries is the GF(2) one.
pub proof fn lemma_row_xor3_of_bits(row: Seq<bool>, bits: Seq<bool>, vals: Seq<F3>, from: int, to: int)
    requires
        0 <= from <= to <= bits.len(),
        to <= vals.len(),
        forall|j: int| from <= j < to ==> (#[trigger] vals[j]).val() == bit3(bits[j]),
    ensures
        row_xor3(row, vals, from, to) == bit3(row_parity_range(row, bits, from, to)),
    decreases to - from,
{
    if to > from {
        lemma_row_xor3_of_bits(row, bits, vals, from, to - 1);
    }
}

/// The exclusive or of the bits `from..to` that `row` selects.
pub open spec fn row_parity_range(row: Seq<bool>, bits: Seq<bool>, from: int, to: int) -> bool
    decreases to - from,
{
    if to <= from {
        false
    } else if row[to - 1] {
        row_parity_range(row, bits, from, to - 1) != bits[to - 1]
    } else {
        row_parity_range(row, bits, from, to - 1)
    }
}

/// Splitting the selected bits at `mid` splits their exclusive or.
proof fn lemma_parity_split(row: Seq<bool>, bits: Seq<bool>, mid: int, to: int)
    requires
        0 <= mid <= to,
    ensures
        row_parity_range(row, bits, 0, to) == (row_parity_range(row, bits, 0, mid) != row_parity_range(row, bits, mid, to)),
    decreases to - mid,
{
    if to > mid {
        lemma_parity_split(row, bits, mid, to - 1);
    }
}

/// The whole-row parity is the ranged one from the start.
proof fn lemma_row_parity_range(row: Seq<bool>, bits: Seq<bool>, n: int)
    requires
        n >= 0,
    ensures
        row_parity(row, bits, n) == row_parity_range(row, bits, 0, n),
    decreases n,
{
    if n > 0 {
        lemma_row_parity_range(row, bits, n - 1);
    }
}

/// The consistency check of a bucket is sound and complete on bits: when the GF(3)
/// entries are the bits of the GF(2) entries, the value for a row is zero exactly when
/// the opened parity is the row's parity of the bits.
pub proof fn lemma_consistency_check(row: Seq<bool>, bits: Seq<bool>, vals: Seq<F3>, b: int, c: bool)
    requires
        0 <= b <= bits.len(),
        b <= vals.len(),
        forall|j: int| 0 <= j < b ==> (#[trigger] vals[j]).val() == bit3(bits[j]),
    ensures
        (parity_check_of(row_xor3(row, vals, 0, b / 2), row_xor3(row, vals, b / 2, b), c) == 0)
            == (c == row_parity(row, bits, b)),
{
    lemma_row_xor3_of_bits(row, bits, vals, 0, b / 2);
    lemma_row_xor3_of_bits(row, bits, vals, b / 2, b);
    lemma_parity_split(row, bits, b / 2, b);
    lemma_row_parity_range(row, bits, b);
}

} // verus!
