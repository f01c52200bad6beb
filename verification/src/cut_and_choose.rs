//! Cut-and-choose bookkeeping of the preprocessing protocols: which committed candidates
//! are opened and which stay, how the survivors are dealt into buckets, and the checks
//! that decide whether the opened candidates are accepted.
use vstd::prelude::*;
use vstd::arithmetic::div_mod::*;
use crate::f3::F3;
use crate::rng::shuffle;

verus! {

/// The positions `p < n` with `s[p] == x`, in increasing order.
pub open spec fn positions_of<T>(s: Seq<T>, x: T, n: int) -> Seq<int>
    decreases n,
{
    if n <= 0 {
        Seq::empty()
    } else {
        let r = positions_of(s, x, n - 1);
        if s[n - 1] == x {
            r.push(n - 1)
        } else {
            r
        }
    }
}

/// The positions `p < n` with `s[p] != x`, in increasing order.
pub open spec fn positions_other<T>(s: Seq<T>, x: T, n: int) -> Seq<int>
    decreases n,
{
    if n <= 0 {
        Seq::empty()
    } else {
        let r = positions_other(s, x, n - 1);
        if s[n - 1] != x {
            r.push(n - 1)
        } else {
            r
        }
    }
}

/// The flags before shuffling: `opened` ones (open) and `len - opened` zeros (keep),
/// the ones first or last.
pub open spec fn flags_pattern(len: nat, opened: nat, opened_first: bool) -> Seq<u8> {
    Seq::new(
        len,
        |i: int|
            if opened_first {
                if i < opened { 1u8 } else { 0u8 }
            } else {
                if i < len - opened { 0u8 } else { 1u8 }
            },
    )
}

/// The bucket numbers before shuffling: `per_bucket` rounds of `0, 1, .., buckets - 1`.
pub open spec fn bucket_pattern_spec(buckets: nat, per_bucket: nat) -> Seq<usize> {
    Seq::new(buckets * per_bucket, |i: int| (i % (buckets as int)) as usize)
}

/// Slot `k` of bucket `j` in the flat list of buckets of `per_bucket` slots each.
pub open spec fn slot(j: int, k: int, per_bucket: int) -> int {
    j * per_bucket + k
}

proof fn lemma_positions_props<T>(s: Seq<T>, x: T, n: int)
    requires
        0 <= n <= s.len(),
    ensures
        positions_of(s, x, n).len() <= n,
        positions_of(s, x, n).len() + positions_other(s, x, n).len() == n,
        forall|k: int|
            0 <= k < positions_of(s, x, n).len() ==> 0 <= #[trigger] positions_of(s, x, n)[k] < n
                && s[positions_of(s, x, n)[k]] == x,
        forall|k1: int, k2: int|
            0 <= k1 < k2 < positions_of(s, x, n).len() ==> #[trigger] positions_of(s, x, n)[k1]
                < #[trigger] positions_of(s, x, n)[k2],
    decreases n,
{
    if n > 0 {
        lemma_positions_props(s, x, n - 1);
    }
}

proof fn lemma_positions_monotone<T>(s: Seq<T>, x: T, i: int, n: int)
    requires
        0 <= i <= n,
    ensures
        positions_of(s, x, i).len() <= positions_of(s, x, n).len(),
    decreases n - i,
{
    if i < n {
        lemma_positions_monotone(s, x, i, n - 1);
    }
}

/// The number of positions holding `x` is the multiplicity of `x`.
proof fn lemma_positions_count<T>(s: Seq<T>, x: T, n: int)
    requires
        0 <= n <= s.len(),
    ensures
        positions_of(s, x, n).len() == s.subrange(0, n).to_multiset().count(x),
    decreases n,
{
    if n == 0 {
        assert(s.subrange(0, 0) =~= Seq::<T>::empty());
        vstd::multiset::lemma_multiset_empty_len(Seq::<T>::empty().to_multiset());
        broadcast use vstd::seq_lib::group_to_multiset_ensures;
    } else {
        lemma_positions_count(s, x, n - 1);
        assert(s.subrange(0, n) =~= s.subrange(0, n - 1).push(s[n - 1]));
        vstd::seq_lib::to_multiset_build(s.subrange(0, n - 1), s[n - 1]);
    }
}

proof fn lemma_flags_pattern_count(len: nat, opened: nat, opened_first: bool, n: int)
    requires
        opened <= len,
        0 <= n <= len,
    ensures
        positions_of(flags_pattern(len, opened, opened_first), 1u8, n).len() == if opened_first {
            if n < opened { n } else { opened as int }
        } else {
            if n < len - opened { 0 } else { n - (len - opened) }
        },
    decreases n,
{
    if n > 0 {
        lemma_flags_pattern_count(len, opened, opened_first, n - 1);
    }
}

proof fn lemma_bucket_pattern_count(buckets: nat, per_bucket: nat, j: int, n: int)
    requires
        0 < buckets <= usize::MAX,
        0 <= j < buckets,
        0 <= n <= buckets * per_bucket,
    ensures
        positions_of(bucket_pattern_spec(buckets, per_bucket), j as usize, n).len() == n
            / (buckets as int) + if j < n % (buckets as int) { 1int } else { 0int },
    decreases n,
{
    let b = buckets as int;
    if n == 0 {
        lemma_fundamental_div_mod_converse(0, b, 0, 0);
    } else {
        let m = n - 1;
        lemma_bucket_pattern_count(buckets, per_bucket, j, m);
        lemma_fundamental_div_mod(m, b);
        lemma_mod_bound(m, b);
        let q = m / b;
        let r = m % b;
        assert(bucket_pattern_spec(buckets, per_bucket)[m] == r as usize);
        assert(b * q == q * b) by (nonlinear_arith);
        if r == b - 1 {
            assert((q + 1) * b == q * b + b) by (nonlinear_arith);
            lemma_fundamental_div_mod_converse(n, b, q + 1, 0);
        } else {
            lemma_fundamental_div_mod_converse(n, b, q, r + 1);
        }
    }
}

/// Shuffling the opening flags keeps their numbers: whatever order the shuffle chose,
/// exactly `opened` positions are flagged for opening and `len - opened` are kept.
pub proof fn lemma_shuffled_flags_split(flags: Seq<u8>, len: nat, opened: nat, opened_first: bool)
    requires
        opened <= len,
        flags.to_multiset() == flags_pattern(len, opened, opened_first).to_multiset(),
    ensures
        flags.len() == len,
        positions_of(flags, 1u8, len as int).len() == opened,
        positions_other(flags, 1u8, len as int).len() == len - opened,
{
    let p = flags_pattern(len, opened, opened_first);
    broadcast use vstd::seq_lib::group_to_multiset_ensures;
    assert(flags.len() == len) by {
        assert(flags.to_multiset().len() == p.to_multiset().len());
    }
    assert(flags.subrange(0, len as int) =~= flags);
    assert(p.subrange(0, len as int) =~= p);
    lemma_positions_count(flags, 1u8, len as int);
    lemma_positions_count(p, 1u8, len as int);
    lemma_flags_pattern_count(len, opened, opened_first, len as int);
    lemma_positions_props(flags, 1u8, len as int);
}

/// Shuffling the bucket numbers keeps their numbers: whatever order the shuffle chose,
/// every entry names one of the `buckets` buckets and every bucket is named exactly
/// `per_bucket` times, so the buckets come out full.
pub proof fn lemma_shuffled_buckets_full(assignment: Seq<usize>, buckets: usize, per_bucket: usize)
    requires
        assignment.to_multiset() == bucket_pattern_spec(
            buckets as nat,
            per_bucket as nat,
        ).to_multiset(),
    ensures
        assignment.len() == buckets * per_bucket,
        forall|i: int| 0 <= i < assignment.len() ==> #[trigger] assignment[i] < buckets,
        forall|j: usize|
            j < buckets ==> #[trigger] positions_of(assignment, j, assignment.len() as int).len()
                == per_bucket,
{
    let p = bucket_pattern_spec(buckets as nat, per_bucket as nat);
    let n = (buckets * per_bucket) as int;
    broadcast use vstd::seq_lib::group_to_multiset_ensures;
    if buckets == 0 {
        assert(p.len() == 0);
        assert(assignment.to_multiset().len() == p.to_multiset().len());
        return;
    }
    assert(assignment.len() == n) by {
        assert(assignment.to_multiset().len() == p.to_multiset().len());
    }
    assert(assignment.subrange(0, n) =~= assignment);
    assert(p.subrange(0, n) =~= p);
    assert forall|i: int| 0 <= i < assignment.len() implies #[trigger] assignment[i] < buckets by {
        assert(assignment.to_multiset().count(assignment[i]) > 0);
        assert(p.contains(assignment[i]));
        let w = choose|w: int| 0 <= w < p.len() && p[w] == assignment[i];
        lemma_mod_bound(w, buckets as int);
    }
    assert forall|j: usize| j < buckets implies #[trigger] positions_of(
        assignment,
        j,
        assignment.len() as int,
    ).len() == per_bucket by {
        lemma_positions_count(assignment, j, n);
        lemma_positions_count(p, j, n);
        lemma_bucket_pattern_count(buckets as nat, per_bucket as nat, j as int, n);
        assert(per_bucket * buckets == buckets * per_bucket) by (nonlinear_arith);
        lemma_fundamental_div_mod_converse(n, buckets as int, per_bucket as int, 0);
    }
}

/// The flags of `len` candidates of which `opened` are to be opened: ones mark the
/// candidates to open, zeros those to keep, the ones first or last.
pub fn opening_flags(len: usize, opened: usize, opened_first: bool) -> (flags: Vec<u8>)
    requires
        opened <= len,
    ensures
        flags@ == flags_pattern(len as nat, opened as nat, opened_first),
{
    let mut flags: Vec<u8> = Vec::new();
    let mut i: usize = 0;
    while i < len
        invariant
            i <= len,
            opened <= len,
            flags@ =~= flags_pattern(len as nat, opened as nat, opened_first).subrange(0, i as int),
        decreases len - i,
    {
        let open = if opened_first {
            i < opened
        } else {
            i >= len - opened
        };
        if open {
            flags.push(1u8);
        } else {
            flags.push(0u8);
        }
        i = i + 1;
    }
    flags
}

/// The bucket numbers of `buckets * per_bucket` candidates before shuffling:
/// `per_bucket` rounds of `0, 1, .., buckets - 1`.
pub fn bucket_pattern(buckets: usize, per_bucket: usize) -> (pattern: Vec<usize>)
    requires
        buckets * per_bucket <= usize::MAX,
    ensures
        pattern@ == bucket_pattern_spec(buckets as nat, per_bucket as nat),
{
    let mut pattern: Vec<usize> = Vec::new();
    let mut round: usize = 0;
    while round < per_bucket
        invariant
            round <= per_bucket,
            buckets * per_bucket <= usize::MAX,
            pattern@ =~= bucket_pattern_spec(buckets as nat, per_bucket as nat).subrange(
                0,
                round * buckets,
            ),
        decreases per_bucket - round,
    {
        proof {
            lemma_mul_le(round as int, per_bucket as int, buckets as int);
        }
        let mut j: usize = 0;
        while j < buckets
            invariant
                j <= buckets,
                round < per_bucket,
                (round + 1) * buckets <= buckets * per_bucket <= usize::MAX,
                pattern@ =~= bucket_pattern_spec(buckets as nat, per_bucket as nat).subrange(
                    0,
                    round * buckets + j,
                ),
            decreases buckets - j,
        {
            proof {
                lemma_fundamental_div_mod_converse(
                    (round * buckets + j) as int,
                    buckets as int,
                    round as int,
                    j as int,
                );
                assert((round + 1) * buckets == round * buckets + buckets) by (nonlinear_arith);
            }
            pattern.push(j);
            j = j + 1;
        }
        proof {
            assert((round + 1) * buckets == round * buckets + buckets) by (nonlinear_arith);
        }
        round = round + 1;
    }
    proof {
        assert(per_bucket * buckets == buckets * per_bucket) by (nonlinear_arith);
    }
    pattern
}

proof fn lemma_mul_le(a: int, b: int, c: int)
    requires
        0 <= a < b,
        0 <= c,
    ensures
        (a + 1) * c <= c * b,
{
    assert((a + 1) * c <= b * c) by (nonlinear_arith)
        requires
            a + 1 <= b,
            0 <= c,
    ;
    assert(b * c == c * b) by (nonlinear_arith);
}

/// Flags `len` candidates, `opened` of them for opening, in an order drawn from `rng` by
/// shuffling the pattern of `opening_flags`.
pub fn shuffled_opening_flags(
    len: usize,
    opened: usize,
    opened_first: bool,
    rng: &mut rand::rngs::StdRng,
) -> (flags: Vec<u8>)
    requires
        opened <= len,
    ensures
        flags.len() == len,
        flags@.to_multiset() == flags_pattern(len as nat, opened as nat, opened_first).to_multiset(),
        positions_of(flags@, 1u8, len as int).len() == opened,
        positions_other(flags@, 1u8, len as int).len() == len - opened,
{
    let mut flags = opening_flags(len, opened, opened_first);
    shuffle(&mut flags, rng);
    proof {
        lemma_shuffled_flags_split(flags@, len as nat, opened as nat, opened_first);
    }
    flags
}

/// Assigns `buckets * per_bucket` candidates to `buckets` buckets of `per_bucket` each, in
/// an order drawn from `rng` by shuffling the pattern of `bucket_pattern`; the result meets
/// what `bucket_positions` asks of its input.
pub fn shuffled_bucket_assignment(
    buckets: usize,
    per_bucket: usize,
    rng: &mut rand::rngs::StdRng,
) -> (assignment: Vec<usize>)
    requires
        buckets * per_bucket <= usize::MAX,
    ensures
        assignment@.to_multiset() == bucket_pattern_spec(
            buckets as nat,
            per_bucket as nat,
        ).to_multiset(),
        assignment.len() == buckets * per_bucket,
        forall|i: int| 0 <= i < assignment.len() ==> #[trigger] assignment[i] < buckets,
        forall|j: usize|
            j < buckets ==> #[trigger] positions_of(assignment@, j, assignment.len() as int).len()
                == per_bucket,
{
    let mut assignment = bucket_pattern(buckets, per_bucket);
    shuffle(&mut assignment, rng);
    proof {
        lemma_shuffled_buckets_full(assignment@, buckets, per_bucket);
    }
    assignment
}

/// Splits the candidates by their flags: those flagged one are opened, the others stay;
/// both lists keep the candidates' order.
pub fn split_opened<T: Copy>(items: &Vec<T>, flags: &Vec<u8>) -> (r: (Vec<T>, Vec<T>))
    requires
        items.len() == flags.len(),
    ensures
        r.0@ == positions_of(flags@, 1u8, flags.len() as int).map_values(|p: int| items@[p]),
        r.1@ == positions_other(flags@, 1u8, flags.len() as int).map_values(|p: int| items@[p]),
{
    let mut opened: Vec<T> = Vec::new();
    let mut kept: Vec<T> = Vec::new();
    let mut i: usize = 0;
    while i < items.len()
        invariant
            i <= items.len(),
            items.len() == flags.len(),
            opened@ =~= positions_of(flags@, 1u8, i as int).map_values(|p: int| items@[p]),
            kept@ =~= positions_other(flags@, 1u8, i as int).map_values(|p: int| items@[p]),
        decreases items.len() - i,
    {
        let x = items[i];
        if flags[i] == 1u8 {
            opened.push(x);
        } else {
            kept.push(x);
        }
        i = i + 1;
    }
    (opened, kept)
}

proof fn lemma_slot_bound(j: int, k: int, pb: int, buckets: int)
    requires
        0 <= j < buckets,
        0 <= k < pb,
    ensures
        0 <= slot(j, k, pb) < buckets * pb,
{
    assert(0 <= j * pb) by (nonlinear_arith)
        requires
            0 <= j,
            0 <= pb,
    ;
    assert((j + 1) * pb <= buckets * pb) by (nonlinear_arith)
        requires
            j + 1 <= buckets,
            0 <= pb,
    ;
    assert((j + 1) * pb == j * pb + pb) by (nonlinear_arith);
}

proof fn lemma_slot_distinct(j1: int, k1: int, j2: int, k2: int, pb: int)
    requires
        0 <= j1,
        0 <= j2,
        0 <= k1 < pb,
        0 <= k2 < pb,
        j1 != j2 || k1 != k2,
    ensures
        slot(j1, k1, pb) != slot(j2, k2, pb),
{
    if j1 < j2 {
        assert(j1 * pb + pb <= j2 * pb) by (nonlinear_arith)
            requires
                j1 + 1 <= j2,
                0 <= pb,
        ;
    } else if j2 < j1 {
        assert(j2 * pb + pb <= j1 * pb) by (nonlinear_arith)
            requires
                j2 + 1 <= j1,
                0 <= pb,
        ;
    }
}

/// Deals the candidates into buckets by the shuffled bucket numbers: slot `k` of bucket
/// `j` (at `j * per_bucket + k`) receives the position of the `k`-th candidate whose
/// number is `j`. Every candidate lands in exactly one slot.
pub fn bucket_positions(assignment: &Vec<usize>, buckets: usize, per_bucket: usize) -> (out: Vec<
    usize,
>)
    requires
        assignment.len() == buckets * per_bucket,
        forall|i: int| 0 <= i < assignment.len() ==> #[trigger] assignment[i] < buckets,
        forall|j: usize|
            j < buckets ==> #[trigger] positions_of(assignment@, j, assignment.len() as int).len()
                == per_bucket,
    ensures
        out.len() == assignment.len(),
        forall|j: usize, k: int|
            j < buckets && 0 <= k < per_bucket ==> #[trigger] out@[slot(
                j as int,
                k,
                per_bucket as int,
            )] == positions_of(assignment@, j, assignment.len() as int)[k],
        forall|t: int| 0 <= t < out.len() ==> #[trigger] out@[t] < out.len(),
        forall|t1: int, t2: int|
            0 <= t1 < out.len() && 0 <= t2 < out.len() && t1 != t2 ==> #[trigger] out@[t1]
                != #[trigger] out@[t2],
{
    let n = assignment.len();
    let ghost a = assignment@;
    let ghost pb = per_bucket as int;
    let mut out: Vec<usize> = Vec::new();
    let mut t: usize = 0;
    while t < n
        invariant
            t <= n,
            out.len() == t,
        decreases n - t,
    {
        out.push(0);
        t = t + 1;
    }
    let mut fill: Vec<usize> = Vec::new();
    let mut j: usize = 0;
    while j < buckets
        invariant
            j <= buckets,
            fill.len() == j,
            forall|b: int| 0 <= b < j ==> fill@[b] == 0,
        decreases buckets - j,
    {
        fill.push(0);
        j = j + 1;
    }
    let mut i: usize = 0;
    while i < n
        invariant
            i <= n,
            n == assignment.len(),
            a == assignment@,
            pb == per_bucket,
            n == buckets * per_bucket,
            out.len() == n,
            fill.len() == buckets,
            forall|q: int| 0 <= q < n ==> #[trigger] a[q] < buckets,
            forall|b: usize| b < buckets ==> #[trigger] positions_of(a, b, n as int).len() == pb,
            forall|b: usize|
                b < buckets ==> #[trigger] fill@[b as int] == positions_of(a, b, i as int).len(),
            forall|b: usize, k: int|
                b < buckets && 0 <= k < fill@[b as int] ==> #[trigger] out@[slot(b as int, k, pb)]
                    == positions_of(a, b, i as int)[k],
        decreases n - i,
    {
        let b = assignment[i];
        let k = fill[b];
        proof {
            assert(fill@[b as int] == positions_of(a, b, i as int).len());
            assert(positions_of(a, b, i + 1) == positions_of(a, b, i as int).push(i as int));
            lemma_positions_monotone(a, b, i + 1, n as int);
            assert(positions_of(a, b, n as int).len() == pb);
            lemma_slot_bound(b as int, k as int, pb, buckets as int);
        }
        let s = b * per_bucket + k;
        let ghost old_out = out@;
        let ghost old_fill = fill@;
        out.set(s, i);
        fill.set(b, k + 1);
        proof {
            assert forall|b2: usize| b2 < buckets implies #[trigger] fill@[b2 as int]
                == positions_of(a, b2, i + 1).len() by {
                if b2 != b {
                    assert(fill@[b2 as int] == old_fill[b2 as int]);
                }
            }
            assert forall|b2: usize, k2: int|
                b2 < buckets && 0 <= k2 < fill@[b2 as int] implies #[trigger] out@[slot(
                b2 as int,
                k2,
                pb,
            )] == positions_of(a, b2, i + 1)[k2] by {
                lemma_positions_monotone(a, b2, i + 1, n as int);
                if b2 != b {
                    assert(positions_of(a, b2, i + 1) == positions_of(a, b2, i as int));
                    assert(fill@[b2 as int] == old_fill[b2 as int]);
                    lemma_slot_distinct(b2 as int, k2, b as int, k as int, pb);
                    lemma_slot_bound(b2 as int, k2, pb, buckets as int);
                    assert(out@[slot(b2 as int, k2, pb)] == old_out[slot(b2 as int, k2, pb)]);
                } else if k2 < k {
                    lemma_slot_distinct(b2 as int, k2, b as int, k as int, pb);
                    lemma_slot_bound(b2 as int, k2, pb, buckets as int);
                    assert(out@[slot(b2 as int, k2, pb)] == old_out[slot(b2 as int, k2, pb)]);
                }
            }
        }
        i = i + 1;
    }
    proof {
        lemma_buckets_cover(a, out@, buckets as int, pb);
    }
    out
}

/// The slots filled by `bucket_positions` hold distinct positions below the length.
proof fn lemma_buckets_cover(a: Seq<usize>, out: Seq<usize>, buckets: int, pb: int)
    requires
        0 <= buckets <= usize::MAX,
        pb >= 0,
        a.len() == buckets * pb,
        out.len() == a.len(),
        forall|b: usize| b < buckets ==> #[trigger] positions_of(a, b, a.len() as int).len() == pb,
        forall|b: usize, k: int|
            b < buckets && 0 <= k < pb ==> #[trigger] out[slot(b as int, k, pb)] == positions_of(
                a,
                b,
                a.len() as int,
            )[k],
    ensures
        forall|t: int| 0 <= t < out.len() ==> #[trigger] out[t] < out.len(),
        forall|t1: int, t2: int|
            0 <= t1 < out.len() && 0 <= t2 < out.len() && t1 != t2 ==> #[trigger] out[t1]
                != #[trigger] out[t2],
{
    let n = a.len() as int;
    assert forall|t: int| 0 <= t < out.len() implies #[trigger] out[t] < out.len() && a[out[t] as int]
        == (t / pb) as usize && (t / pb) < buckets && out[t] == positions_of(
        a,
        (t / pb) as usize,
        n,
    )[t % pb] by {
        lemma_slot_of(t, pb, buckets);
        let b = (t / pb) as usize;
        lemma_positions_props(a, b, n);
        assert(out[slot(b as int, t % pb, pb)] == positions_of(a, b, n)[t % pb]);
    }
    assert forall|t1: int, t2: int|
        0 <= t1 < out.len() && 0 <= t2 < out.len() && t1 != t2 implies #[trigger] out[t1]
        != #[trigger] out[t2] by {
        lemma_slot_of(t1, pb, buckets);
        lemma_slot_of(t2, pb, buckets);
        let b1 = (t1 / pb) as usize;
        let b2 = (t2 / pb) as usize;
        lemma_positions_props(a, b1, n);
        lemma_positions_props(a, b2, n);
        assert(out[slot(b1 as int, t1 % pb, pb)] == positions_of(a, b1, n)[t1 % pb]);
        assert(out[slot(b2 as int, t2 % pb, pb)] == positions_of(a, b2, n)[t2 % pb]);
        if b1 == b2 {
            if t1 % pb < t2 % pb {
                assert(positions_of(a, b1, n)[t1 % pb] < positions_of(a, b1, n)[t2 % pb]);
            } else {
                assert(positions_of(a, b1, n)[t2 % pb] < positions_of(a, b1, n)[t1 % pb]);
            }
        }
    }
}

/// Every position below `buckets * pb` is a slot: its bucket is `t / pb`, its index in
/// the bucket `t % pb`.
proof fn lemma_slot_of(t: int, pb: int, buckets: int)
    requires
        0 <= t < buckets * pb,
        pb >= 0,
        buckets >= 0,
    ensures
        pb > 0,
        0 <= t / pb < buckets,
        0 <= t % pb < pb,
        t == slot(t / pb, t % pb, pb),
{
    if pb <= 0 {
        assert(buckets * pb <= 0) by (nonlinear_arith)
            requires
                pb <= 0,
                buckets >= 0,
        ;
    }
    lemma_fundamental_div_mod(t, pb);
    lemma_div_pos_is_pos(t, pb);
    lemma_mod_bound(t, pb);
    if t / pb >= buckets {
        assert(pb * (t / pb) >= pb * buckets) by (nonlinear_arith)
            requires
                t / pb >= buckets,
                pb > 0,
        ;
        assert(pb * buckets == buckets * pb) by (nonlinear_arith);
    }
    assert(pb * (t / pb) == (t / pb) * pb) by (nonlinear_arith);
}

/// The check of the opened triples: every opened `a * b` equals the sum of the two
/// shares of `c`.
pub fn opened_triples_hold(a: &Vec<F3>, b: &Vec<F3>, c0: &Vec<F3>, c1: &Vec<F3>) -> (ok: bool)
    requires
        a.len() == b.len(),
        b.len() == c0.len(),
        c0.len() == c1.len(),
        forall|i: int|
            0 <= i < a.len() ==> (#[trigger] a[i]).wf() && b[i].wf() && c0[i].wf() && c1[i].wf(),
    ensures
        ok == forall|i: int|
            0 <= i < a.len() ==> (#[trigger] a[i].val() * b[i].val()) % 3 == (c0[i].val()
                + c1[i].val()) % 3,
{
    let mut ok = true;
    let mut i: usize = 0;
    while i < a.len()
        invariant
            i <= a.len(),
            a.len() == b.len(),
            b.len() == c0.len(),
            c0.len() == c1.len(),
            forall|q: int|
                0 <= q < a.len() ==> (#[trigger] a[q]).wf() && b[q].wf() && c0[q].wf()
                    && c1[q].wf(),
            ok == forall|q: int|
                0 <= q < i ==> (#[trigger] a[q].val() * b[q].val()) % 3 == (c0[q].val()
                    + c1[q].val()) % 3,
        decreases a.len() - i,
    {
        let lhs = a[i].mul(&b[i]);
        let rhs = c0[i].add(&c1[i]);
        proof {
            if lhs.val() == rhs.val() {
                crate::f3::lemma_f3_val_injective(lhs, rhs);
            }
        }
        ok = ok && lhs == rhs;
        i = i + 1;
    }
    ok
}

/// The check that two lists of opened shares cancel: every `x[i] + y[i]` is zero.
pub fn shares_cancel(x: &Vec<F3>, y: &Vec<F3>) -> (ok: bool)
    requires
        x.len() == y.len(),
        forall|i: int| 0 <= i < x.len() ==> (#[trigger] x[i]).wf() && y[i].wf(),
    ensures
        ok == forall|i: int| 0 <= i < x.len() ==> (#[trigger] x[i].val() + y[i].val()) % 3 == 0,
{
    let mut ok = true;
    let mut i: usize = 0;
    while i < x.len()
        invariant
            i <= x.len(),
            x.len() == y.len(),
            forall|q: int| 0 <= q < x.len() ==> (#[trigger] x[q]).wf() && y[q].wf(),
            ok == forall|q: int| 0 <= q < i ==> (#[trigger] x[q].val() + y[q].val()) % 3 == 0,
        decreases x.len() - i,
    {
        let s = x[i].add(&y[i]);
        ok = ok && s.to_u8() == 0;
        i = i + 1;
    }
    ok
}

/// The members of bucket `j`: the entries at the positions in its `per_bucket` slots, in
/// slot order.
pub fn bucket_members<T: Copy>(v: &Vec<T>, slots: &Vec<usize>, j: usize, per_bucket: usize) -> (r: Vec<T>)
    requires
        (j + 1) * per_bucket <= slots.len(),
        forall|t: int| 0 <= t < slots.len() ==> (#[trigger] slots[t]) < v.len(),
    ensures
        r.len() == per_bucket,
        forall|k: int| 0 <= k < per_bucket ==> #[trigger] r[k] == v[slots[slot(j as int, k, per_bucket as int)] as int],
{
    let mut r: Vec<T> = Vec::new();
    let mut k: usize = 0;
    let n_slots = slots.len();
    while k < per_bucket
        invariant
            k <= per_bucket,
            n_slots == slots.len(),
            (j + 1) * per_bucket <= n_slots,
            forall|t: int| 0 <= t < slots.len() ==> (#[trigger] slots[t]) < v.len(),
            r.len() == k,
            forall|i: int| 0 <= i < k ==> #[trigger] r[i] == v[slots[slot(j as int, i, per_bucket as int)] as int],
        decreases per_bucket - k,
    {
        proof {
            assert((j + 1) * per_bucket == j * per_bucket + per_bucket) by (nonlinear_arith);
        }
        r.push(v[slots[j * per_bucket + k]]);
        k = k + 1;
    }
    r
}

/// The parities opened in a bucket of candidate bits: `c_k = b_0 xor b_(k + 1)` for every
/// candidate after the first.
pub fn candidate_parities(bits: &Vec<bool>) -> (c: Vec<bool>)
    requires
        bits.len() >= 1,
    ensures
        c.len() == bits.len() - 1,
        forall|k: int| 0 <= k < c.len() ==> #[trigger] c[k] == (bits[0] != bits[k + 1]),
{
    let mut c: Vec<bool> = Vec::new();
    let mut k: usize = 0;
    while k + 1 < bits.len()
        invariant
            k + 1 <= bits.len(),
            c.len() == k,
            forall|q: int| 0 <= q < k ==> #[trigger] c[q] == (bits[0] != bits[q + 1]),
        decreases bits.len() - k,
    {
        c.push(bits[0] != bits[k + 1]);
        k = k + 1;
    }
    c
}

/// What the GF(3) copy of candidate `k + 1` must equal, from the copy `b` of the first
/// candidate and the opened parity `c`: `b + c + c b`, which is `b xor c` on bits.
pub open spec fn candidate_expected(b: nat, c: bool) -> nat {
    if c {
        (b + 1 + b) % 3
    } else {
        b % 3
    }
}

/// The values the GF(3) side shows to be zero for a bucket: for each candidate after the
/// first, its copy minus `b_0 + c_k + c_k b_0`.
pub fn candidate_checks(copies: &Vec<F3>, c: &Vec<bool>) -> (r: Vec<F3>)
    requires
        copies.len() == c.len() + 1,
        forall|i: int| 0 <= i < copies.len() ==> (#[trigger] copies[i]).wf(),
    ensures
        r.len() == c.len(),
        forall|k: int| 0 <= k < r.len() ==> (#[trigger] r[k]).wf() && (r[k].val() + candidate_expected(copies[0].val(), c[k])) % 3
            == copies[k + 1].val(),
{
    let mut r: Vec<F3> = Vec::new();
    let b1 = copies[0];
    let mut k: usize = 0;
    while k < c.len()
        invariant
            k <= c.len(),
            copies.len() == c.len() + 1,
            b1 == copies[0],
            forall|i: int| 0 <= i < copies.len() ==> (#[trigger] copies[i]).wf(),
            r.len() == k,
            forall|q: int| 0 <= q < k ==> (#[trigger] r[q]).wf() && (r[q].val() + candidate_expected(copies[0].val(), c[q])) % 3
                == copies[q + 1].val(),
        decreases c.len() - k,
    {
        assert(copies[k + 1].wf() && b1.wf());
        let ck = if c[k] { F3::one() } else { F3::zero() };
        let hat = ck.mul(&b1).add(&ck).add(&b1);
        proof {
            let b = b1.val() as int;
            if c[k as int] {
                assert(hat.val() == ((b % 3 + 1) % 3 + b) % 3);
                assert(hat.val() == (b + 1 + b) % 3);
            } else {
                assert(hat.val() == b % 3);
            }
        }
        let d = copies[k + 1].sub(&hat);
        r.push(d);
        k = k + 1;
    }
    r
}

/// The bucket check holds exactly on consistent candidates: when the first candidate's
/// GF(3) copy is its bit, the check value of candidate `k + 1` is zero exactly when that
/// candidate's copy is its bit.
pub proof fn lemma_candidate_check(b0: bool, bk: bool, copy0: nat, copyk: nat, value: nat)
    requires
        copy0 == (if b0 { 1nat } else { 0nat }),
        copyk < 3,
        value < 3,
        (value + candidate_expected(copy0, b0 != bk)) % 3 == copyk,
    ensures
        (value == 0) == (copyk == (if bk { 1nat } else { 0nat })),
{
}

} // verus!
