//! Choice of the LPN parameters for the subfield-VOLE extension.
use vstd::prelude::*;
use vstd::arithmetic::power2::*;

verus! {

/// LPN parameters of one phase: the error weight, the number of columns and rows of
/// the matrix, and the number of values the phase produces.
#[derive(Clone, Copy, Debug, PartialEq, Eq, Structural)]
pub struct LpnParams {
    weight: usize,
    cols: usize,
    rows: usize,
    len: usize,
}

impl LpnParams {
    /// Hamming weight of the error vector.
    pub closed spec fn weight_spec(self) -> nat {
        self.weight as nat
    }

    /// Number of columns of the LPN matrix.
    pub closed spec fn cols_spec(self) -> nat {
        self.cols as nat
    }

    /// Number of rows of the LPN matrix.
    pub closed spec fn rows_spec(self) -> nat {
        self.rows as nat
    }

    /// Extension length.
    pub closed spec fn len_spec(self) -> nat {
        self.len as nat
    }

    /// Hamming weight of the error vector.
    pub fn weight(&self) -> (r: usize)
        ensures
            r == self.weight_spec(),
    {
        self.weight
    }

    /// Number of columns of the LPN matrix.
    pub fn cols(&self) -> (r: usize)
        ensures
            r == self.cols_spec(),
    {
        self.cols
    }

    /// Number of rows of the LPN matrix.
    pub fn rows(&self) -> (r: usize)
        ensures
            r == self.rows_spec(),
    {
        self.rows
    }

    /// Extension length.
    pub fn len(&self) -> (r: usize)
        ensures
            r == self.len_spec(),
    {
        self.len
    }

    fn new(weight: usize, cols: usize, rows: usize, len: usize) -> (r: LpnParams)
        ensures
            r.weight_spec() == weight,
            r.cols_spec() == cols,
            r.rows_spec() == rows,
            r.len_spec() == len,
    {
        LpnParams { weight, cols, rows, len }
    }
}

/// Extra small parameters, setup phase.
pub fn lpn_setup_extrasmall() -> (r: LpnParams)
    ensures
        r.weight_spec() == 600 && r.cols_spec() == 2_400 && r.rows_spec() == 1_220 && r.len_spec() == 2_400,
{
    LpnParams::new(600, 2_400, 1_220, 2_400)
}

/// Extra small parameters, extend phase.
pub fn lpn_extend_extrasmall() -> (r: LpnParams)
    ensures
        r.weight_spec() == 600 && r.cols_spec() == 9_600 && r.rows_spec() == 1_220 && r.len_spec() == 9_600,
{
    LpnParams::new(600, 9_600, 1_220, 9_600)
}

/// Small parameters, setup phase.
pub fn lpn_setup_small() -> (r: LpnParams)
    ensures
        r.weight_spec() == 600 && r.cols_spec() == 9_600 && r.rows_spec() == 1_220 && r.len_spec() == 9_600,
{
    LpnParams::new(600, 9_600, 1_220, 9_600)
}

/// Small parameters, extend phase.
pub fn lpn_extend_small() -> (r: LpnParams)
    ensures
        r.weight_spec() == 2_600 && r.cols_spec() == 166_400 && r.rows_spec() == 5_060 && r.len_spec() == 166_400,
{
    LpnParams::new(2_600, 166_400, 5_060, 166_400)
}

/// Medium parameters, setup phase.
pub fn lpn_setup_medium() -> (r: LpnParams)
    ensures
        r.weight_spec() == 2_600 && r.cols_spec() == 166_400 && r.rows_spec() == 5_060 && r.len_spec() == 166_400,
{
    LpnParams::new(2_600, 166_400, 5_060, 166_400)
}

/// Medium parameters, extend phase.
pub fn lpn_extend_medium() -> (r: LpnParams)
    ensures
        r.weight_spec() == 4_965 && r.cols_spec() == 10_168_320 && r.rows_spec() == 158_000 && r.len_spec() == 10_168_320,
{
    LpnParams::new(4_965, 10_168_320, 158_000, 10_168_320)
}

/// Large parameters, setup phase.
pub fn lpn_setup_large() -> (r: LpnParams)
    ensures
        r.weight_spec() == 2_508 && r.cols_spec() == 642_048 && r.rows_spec() == 19_870 && r.len_spec() == 642_048,
{
    LpnParams::new(2_508, 642_048, 19_870, 642_048)
}

/// Large parameters, extend phase.
pub fn lpn_extend_large() -> (r: LpnParams)
    ensures
        r.weight_spec() == 1_319 && r.cols_spec() == 10_805_248 && r.rows_spec() == 589_760 && r.len_spec() == 10_805_248,
{
    LpnParams::new(1_319, 10_805_248, 589_760, 10_805_248)
}

/// The number of values set aside from one extension for the next: the rows, the
/// weight, and the extension degree of the field.
pub open spec fn num_saved(rows: nat, weight: nat, degree: nat) -> nat {
    rows + weight + degree
}

/// The number of values set aside from one extension for the next.
fn compute_num_saved(params: LpnParams, degree: usize) -> (r: usize)
    requires
        degree <= 1_000_000,
        params.rows_spec() <= 1_000_000,
        params.weight_spec() <= 1_000_000,
    ensures
        r == num_saved(params.rows_spec(), params.weight_spec(), degree as nat),
{
    params.rows + params.weight + degree
}

/// The smallest power of two `2^k`, from `k` on, such that `2^k * w` reaches `target`
/// or `cols`.
pub open spec fn lpn_factor(k: nat, w: nat, target: nat, cols: nat) -> nat
    decreases 64 - k,
{
    if k < 64 && pow2(k) * w < target && pow2(k) * w < cols {
        lpn_factor(k + 1, w, target, cols)
    } else {
        pow2(k)
    }
}

/// The (setup, extend) pair of the phase chosen for `num_voles` values, each as
/// (weight, columns, rows, length).
pub open spec fn lpn_phase(num_voles: nat, degree: nat) -> ((nat, nat, nat, nat), (nat, nat, nat, nat)) {
    if num_voles >= 10_168_320 - (158_000 + 4_965 + degree) {
        ((2_508, 642_048, 19_870, 642_048), (1_319, 10_805_248, 589_760, 10_805_248))
    } else if num_voles >= 166_400 - (5_060 + 2_600 + degree) {
        ((2_600, 166_400, 5_060, 166_400), (4_965, 10_168_320, 158_000, 10_168_320))
    } else if num_voles >= 9_600 - (1_220 + 600 + degree) {
        ((600, 9_600, 1_220, 9_600), (2_600, 166_400, 5_060, 166_400))
    } else {
        ((600, 2_400, 1_220, 2_400), (600, 9_600, 1_220, 9_600))
    }
}

/// The four phases, from the smallest: the setup and the extend parameters of each, as
/// (weight, columns, rows, length).
pub open spec fn lpn_table(i: int) -> ((nat, nat, nat, nat), (nat, nat, nat, nat)) {
    if i == 0 {
        ((600, 2_400, 1_220, 2_400), (600, 9_600, 1_220, 9_600))
    } else if i == 1 {
        ((600, 9_600, 1_220, 9_600), (2_600, 166_400, 5_060, 166_400))
    } else if i == 2 {
        ((2_600, 166_400, 5_060, 166_400), (4_965, 10_168_320, 158_000, 10_168_320))
    } else {
        ((2_508, 642_048, 19_870, 642_048), (1_319, 10_805_248, 589_760, 10_805_248))
    }
}

/// The number of values that one extension with the extend parameters of phase `i`
/// produces beyond those it sets aside for the next one.
pub open spec fn phase_capacity(i: int, degree: nat) -> int {
    let e = lpn_table(i).1;
    e.1 - (e.2 + e.0 + degree)
}

/// Phase `i` is the first, from the smallest, whose extension produces `num_voles`
/// values; or the largest, when none does.
pub open spec fn lpn_first_sufficient(num_voles: nat, degree: nat, i: int) -> bool {
    &&& 0 <= i < 4
    &&& (i == 3 || num_voles < phase_capacity(i, degree))
    &&& forall|j: int| 0 <= j < i ==> num_voles >= #[trigger] phase_capacity(j, degree)
}

/// The phase chosen for `num_voles` values is the first one, from the smallest, whose
/// extension produces that many values beyond those it sets aside, or the largest when
/// none does: its setup and extend parameters are those of that phase.
pub proof fn lemma_lpn_phase_first_sufficient(num_voles: nat, degree: nat, i: int)
    requires
        lpn_first_sufficient(num_voles, degree, i),
    ensures
        lpn_phase(num_voles, degree) == lpn_table(i),
{
    if i > 0 {
        assert(num_voles >= phase_capacity(0, degree));
    }
    if i > 1 {
        assert(num_voles >= phase_capacity(1, degree));
    }
    if i > 2 {
        assert(num_voles >= phase_capacity(2, degree));
    }
}

/// The doubling factor is the least power of two, from `2^k` on (up to `2^64`), whose
/// multiple of the weight `w` reaches the target or the columns.
pub proof fn lemma_lpn_factor_least(k: nat, w: nat, target: nat, cols: nat) -> (m: nat)
    requires
        1 <= k <= 64,
    ensures
        k <= m <= 64,
        lpn_factor(k, w, target, cols) == pow2(m),
        m < 64 ==> pow2(m) * w >= target || pow2(m) * w >= cols,
        m > k ==> pow2((m - 1) as nat) * w < target && pow2((m - 1) as nat) * w < cols,
    decreases 64 - k,
{
    if k < 64 && pow2(k) * w < target && pow2(k) * w < cols {
        lemma_lpn_factor_least(k + 1, w, target, cols)
    } else {
        k
    }
}

/// The least power of two `2^m` whose predecessor multiple stays below `2^a * w` is at
/// most `2^a`.
proof fn lemma_factor_within(m: nat, a: nat, w: nat)
    requires
        1 <= m,
        1 <= a,
        w > 0,
        m == 1 || pow2((m - 1) as nat) * w < pow2(a) * w,
    ensures
        pow2(m) * w <= pow2(a) * w,
{
    if m > 1 && (m - 1) as nat >= a {
        if (m - 1) as nat > a {
            lemma_pow2_strictly_increases(a, (m - 1) as nat);
        }
        let x = pow2((m - 1) as nat);
        let y = pow2(a);
        assert(x * w >= y * w) by (nonlinear_arith)
            requires
                x >= y,
                w > 0,
        ;
    }
    if m < a {
        lemma_pow2_strictly_increases(m, a);
    }
    let x = pow2(m);
    let y = pow2(a);
    assert(x * w <= y * w) by (nonlinear_arith)
        requires
            x <= y,
            w > 0,
    ;
}

/// The extend columns of each phase are a power-of-two multiple, from two on, of its
/// weight.
proof fn lemma_table_cols(i: int) -> (a: nat)
    requires
        0 <= i < 4,
    ensures
        1 <= a <= 13,
        lpn_table(i).1.1 == pow2(a) * lpn_table(i).1.0,
{
    lemma2_to64();
    if i == 0 {
        4
    } else if i == 1 {
        6
    } else if i == 2 {
        11
    } else {
        13
    }
}

/// The parameters as (weight, columns, rows, length).
pub open spec fn lpn_values(p: LpnParams) -> (nat, nat, nat, nat) {
    (p.weight_spec(), p.cols_spec(), p.rows_spec(), p.len_spec())
}

/// Chooses the LPN parameters that minimise the number of extensions needed for
/// `num_voles` values over a field of extension degree `degree`: the setup parameters
/// of the chosen phase, and its extend parameters with the length set to the values
/// needed plus those set aside, and the columns to the smallest power-of-two multiple
/// (from two on) of the weight that reaches that length or the original columns.
pub fn choose_lpn_parameters(num_voles: usize, degree: usize) -> (r: (LpnParams, LpnParams))
    requires
        degree <= 7_780,
        num_voles + 589_760 + 2_600 + degree <= usize::MAX,
    ensures
        ({
            let (setup, extend) = lpn_phase(num_voles as nat, degree as nat);
            let to_extend = (num_voles + num_saved(extend.2, extend.0, degree as nat)) as nat;
            &&& lpn_values(r.0) == setup
            &&& lpn_values(r.1) == (
                extend.0,
                lpn_factor(1, extend.0, to_extend, extend.1) * extend.0,
                extend.2,
                to_extend,
            )
        }),
        forall|i: int|
            #![trigger lpn_table(i)]
            lpn_first_sufficient(num_voles as nat, degree as nat, i) ==> {
                &&& lpn_values(r.0) == lpn_table(i).0
                &&& r.1.weight_spec() == lpn_table(i).1.0
                &&& r.1.rows_spec() == lpn_table(i).1.2
                &&& r.1.len_spec() == num_voles + lpn_table(i).1.2 + lpn_table(i).1.0 + degree
                &&& r.1.cols_spec() <= lpn_table(i).1.1
                &&& (r.1.cols_spec() >= r.1.len_spec() || r.1.cols_spec() == lpn_table(i).1.1)
                &&& exists|m: nat|
                    1 <= m && #[trigger] pow2(m) * r.1.weight_spec() == r.1.cols_spec() && (m == 1 || (
                    pow2((m - 1) as nat) * r.1.weight_spec() < r.1.len_spec() && pow2((m - 1) as nat)
                        * r.1.weight_spec() < lpn_table(i).1.1))
            },
{
    let em = lpn_extend_medium();
    let es = lpn_extend_small();
    let ex = lpn_extend_extrasmall();
    let mut param = if num_voles >= em.cols - compute_num_saved(em, degree) {
        (lpn_setup_large(), lpn_extend_large())
    } else if num_voles >= es.cols - compute_num_saved(es, degree) {
        (lpn_setup_medium(), lpn_extend_medium())
    } else if num_voles >= ex.cols - compute_num_saved(ex, degree) {
        (lpn_setup_small(), lpn_extend_small())
    } else {
        (lpn_setup_extrasmall(), lpn_extend_extrasmall())
    };
    proof {
        let ph = lpn_phase(num_voles as nat, degree as nat);
        assert(lpn_values(param.0) == ph.0);
        assert(lpn_values(param.1) == ph.1);
    }
    let num_saved = compute_num_saved(param.1, degree);
    let to_extend = num_voles + num_saved;
    let w = param.1.weight;
    let c = param.1.cols;
    let mut factor: usize = 2;
    let ghost mut k: nat = 1;
    proof {
        lemma2_to64();
        assert(factor * w <= 32768 * 4_965) by (nonlinear_arith)
            requires
                factor <= 32768,
                w <= 4_965,
        ;
    }
    while factor * w < to_extend && factor * w < c
        invariant
            1 <= k <= 15,
            factor == pow2(k),
            factor <= 32768,
            factor * w <= 162_693_120,
            600 <= w <= 4_965,
            c <= 10_805_248,
            lpn_factor(k, w as nat, to_extend as nat, c as nat) == lpn_factor(1, w as nat, to_extend as nat, c as nat),
        decreases 15 - k,
    {
        proof {
            lemma_pow2_adds(k, 1);
            lemma2_to64();
            if k >= 15 {
                if k > 15 {
                    lemma_pow2_strictly_increases(15, k);
                }
                assert(pow2(k) * w >= 32768 * 600) by (nonlinear_arith)
                    requires
                        pow2(k) >= 32768,
                        w >= 600,
                ;
            }
            assert(factor * w <= 32768 * 4_965) by (nonlinear_arith)
                requires
                    factor <= 32768,
                    w <= 4_965,
            ;
        }
        factor = factor * 2;
        proof {
            k = k + 1;
            if k < 15 {
                lemma_pow2_strictly_increases(k, 15);
            }
            assert(factor * w <= 32768 * 4_965) by (nonlinear_arith)
                requires
                    factor <= 32768,
                    w <= 4_965,
            ;
        }
    }
    proof {
        assert(factor * w <= 32768 * 4_965) by (nonlinear_arith)
            requires
                factor <= 32768,
                w <= 4_965,
        ;
    }
    param.1.cols = factor * w;
    param.1.len = to_extend;
    proof {
        let n = num_voles as nat;
        let d = degree as nat;
        assert forall|i: int|
            #![trigger lpn_table(i)]
            lpn_first_sufficient(n, d, i) implies {
            &&& lpn_values(param.0) == lpn_table(i).0
            &&& param.1.weight_spec() == lpn_table(i).1.0
            &&& param.1.rows_spec() == lpn_table(i).1.2
            &&& param.1.len_spec() == num_voles + lpn_table(i).1.2 + lpn_table(i).1.0 + d
            &&& param.1.cols_spec() <= lpn_table(i).1.1
            &&& (param.1.cols_spec() >= param.1.len_spec() || param.1.cols_spec() == lpn_table(i).1.1)
            &&& exists|m: nat|
                1 <= m && #[trigger] pow2(m) * param.1.weight_spec() == param.1.cols_spec() && (m == 1 || (
                pow2((m - 1) as nat) * param.1.weight_spec() < param.1.len_spec() && pow2((m - 1) as nat)
                    * param.1.weight_spec() < lpn_table(i).1.1))
        } by {
            lemma_lpn_phase_first_sufficient(n, d, i);
            let a = lemma_table_cols(i);
            let m = lemma_lpn_factor_least(1, w as nat, to_extend as nat, c as nat);
            lemma2_to64();
            if m == 64 {
                lemma_pow2_strictly_increases(13, 63);
                let x = pow2(63);
                let y = pow2(13);
                assert(x * w >= y * w) by (nonlinear_arith)
                    requires
                        x >= y,
                        w > 0,
                ;
            }
            lemma_factor_within(m, a, w as nat);
            assert(pow2(m) * w == param.1.cols_spec());
            if m > 1 {
                assert(pow2((m - 1) as nat) * w < c);
            }
            if m < a {
                lemma_pow2_strictly_increases(m, a);
            }
            assert(pow2(m) * w >= to_extend || pow2(m) * w >= c);
        }
    }
    param
}

} // verus!
