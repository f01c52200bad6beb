//! The decisions of the preprocessing of the fully-malicious OPRF: how many commitments
//! per input bit each side reserves, which consistency check the encoding bits get, how
//! the bits are produced in chunks, and the key correction of the lifted delta.
use vstd::prelude::*;
use crate::codes::{CodeType, get_bucket_size};
use crate::oprf_types::OPRFSetting;
use crate::f256b::{F256b, red256};
use crate::gf2poly::{badd, bmul};
use crate::f3::F3;
use crate::f82t::F82t;
use crate::oprf_types::{OPRFSharing, OPRFExtensionSharing};
use crate::vole_util::{lifted, group_values, group_macs, group_keys, lift_sharing};

verus! {

/// The check that the doubly-authenticated encoding bits are consistent.
#[derive(Clone, Copy, Debug, PartialEq, Eq, Structural)]
pub enum ConsistencyCheck {
    /// The check with a binary linear code.
    Code(CodeType),
    /// Cut-and-choose with buckets of the given size.
    CutAndChoose {
        /// Candidates per bucket.
        bucket_size: usize,
    },
}

/// Inputs bits per batch entry.
pub const N_BITS: usize = 256;

/// The largest chunk of bits produced at once.
pub const CHUNK: usize = 1048576;

/// The receiver's GF(3) commitments per input bit: those it proves (`p`) and those it
/// verifies (`v`).
pub open spec fn receiver_sizes(setting: OPRFSetting, batch_size: nat) -> (usize, usize) {
    match setting {
        OPRFSetting::RevealOutput => if batch_size < 256 {
            (18usize, 34usize)
        } else {
            (11usize, 20usize)
        },
        OPRFSetting::SecretShareOutput => if batch_size < 256 {
            (34usize, 34usize)
        } else {
            (20usize, 20usize)
        },
    }
}

/// The consistency check of the encoding bits of `total` bits: the code check from
/// `2^14` bits on, cut-and-choose below.
pub open spec fn consistency_check_of(total: nat) -> ConsistencyCheck {
    if total >= 16384 {
        ConsistencyCheck::Code(CodeType::Large)
    } else {
        ConsistencyCheck::CutAndChoose { bucket_size: if total < 512 { 6usize } else { 5usize } }
    }
}

/// The receiver verifies `32 + 2` GF(3) commitments per bit for batches below 256 and
/// `18 + 2` from 256 on; with a secret-shared output it proves as many as it verifies,
/// with a revealed output half as many beyond the two spare ones. The check of the
/// `256 * batch_size` encoding bits is the code check from 64 entries on, and
/// cut-and-choose below, with buckets of six for a single entry and five otherwise.
pub proof fn lemma_plan_counts(setting: OPRFSetting, batch_size: nat)
    ensures
        receiver_sizes(setting, batch_size).1 == if batch_size < 256 { 34usize } else { 20usize },
        setting == OPRFSetting::SecretShareOutput ==> receiver_sizes(setting, batch_size).0
            == receiver_sizes(setting, batch_size).1,
        setting == OPRFSetting::RevealOutput ==> receiver_sizes(setting, batch_size).0 - 2 == (
        receiver_sizes(setting, batch_size).1 - 2) / 2,
        batch_size >= 64 ==> consistency_check_of(256 * batch_size) == ConsistencyCheck::Code(
            CodeType::Large,
        ),
        batch_size < 64 ==> consistency_check_of(256 * batch_size) == (ConsistencyCheck::CutAndChoose {
            bucket_size: if batch_size < 2 { 6usize } else { 5usize },
        }),
{
}

/// A larger batch never needs more commitments per bit, on either side.
pub proof fn lemma_plan_counts_shrink(setting: OPRFSetting, small: nat, large: nat)
    requires
        small <= large,
    ensures
        receiver_sizes(setting, large).0 <= receiver_sizes(setting, small).0,
        receiver_sizes(setting, large).1 <= receiver_sizes(setting, small).1,
{
}

/// The receiver's plan for a batch: its commitments per bit it proves and verifies, and
/// the consistency check of its `256 * batch_size` encoding bits.
pub fn preprocessing_plan(setting: OPRFSetting, batch_size: usize) -> (r: (usize, usize, ConsistencyCheck))
    requires
        batch_size <= usize::MAX / 256,
    ensures
        (r.0, r.1) == receiver_sizes(setting, batch_size as nat),
        r.2 == consistency_check_of(256 * batch_size as nat),
        r.1 == if batch_size < 256 { 34usize } else { 20usize },
        setting == OPRFSetting::SecretShareOutput ==> r.0 == r.1,
        setting == OPRFSetting::RevealOutput ==> r.0 - 2 == (r.1 - 2) / 2,
        batch_size >= 64 ==> r.2 == ConsistencyCheck::Code(CodeType::Large),
        batch_size < 64 ==> r.2 == (ConsistencyCheck::CutAndChoose {
            bucket_size: if batch_size < 2 { 6usize } else { 5usize },
        }),
{
    proof {
        lemma_plan_counts(setting, batch_size as nat);
    }
    let (p, v) = if setting == OPRFSetting::RevealOutput {
        if batch_size < 256 {
            (16 + 2, 32 + 2)
        } else {
            (9 + 2, 18 + 2)
        }
    } else {
        if batch_size < 256 {
            (32 + 2, 32 + 2)
        } else {
            (18 + 2, 18 + 2)
        }
    };
    let total = N_BITS * batch_size;
    let check = if total >= 16384 {
        ConsistencyCheck::Code(CodeType::Large)
    } else {
        ConsistencyCheck::CutAndChoose { bucket_size: get_bucket_size(total) }
    };
    (p, v, check)
}

/// The sender's plan for a batch: the receiver's counts of proved and verified
/// commitments swap sides, and the consistency check is the same.
pub fn sender_preprocessing_plan(setting: OPRFSetting, batch_size: usize) -> (r: (usize, usize, ConsistencyCheck))
    requires
        batch_size <= usize::MAX / 256,
    ensures
        (r.1, r.0) == receiver_sizes(setting, batch_size as nat),
        r.2 == consistency_check_of(256 * batch_size as nat),
        r.0 == if batch_size < 256 { 34usize } else { 20usize },
        setting == OPRFSetting::SecretShareOutput ==> r.0 == r.1,
        setting == OPRFSetting::RevealOutput ==> r.1 - 2 == (r.0 - 2) / 2,
{
    let (p, v, check) = preprocessing_plan(setting, batch_size);
    (v, p, check)
}

/// The sum of a sequence of sizes.
pub open spec fn sizes_sum(s: Seq<usize>) -> int
    decreases s.len(),
{
    if s.len() == 0 {
        0
    } else {
        sizes_sum(s.drop_last()) + s.last()
    }
}

/// The chunks in which `total` bits are produced: one chunk up to `2^21` bits; above, as
/// many chunks of `2^20` as fit, the last one taking the remainder as well.
pub fn chunk_sizes(total: usize) -> (r: Vec<usize>)
    ensures
        total <= 2 * CHUNK ==> r@ == seq![total],
        total > 2 * CHUNK ==> {
            &&& r.len() == total / CHUNK
            &&& forall|i: int| 0 <= i < r.len() - 1 ==> #[trigger] r[i] == CHUNK
            &&& r[r.len() - 1] == total - (r.len() - 1) * CHUNK
        },
        sizes_sum(r@) == total,
{
    let mut r: Vec<usize> = Vec::new();
    if total <= 2 * CHUNK {
        r.push(total);
        assert(r@.drop_last() =~= Seq::<usize>::empty());
        assert(sizes_sum(Seq::<usize>::empty()) == 0);
        assert(sizes_sum(r@) == sizes_sum(r@.drop_last()) + r@.last());
        return r;
    }
    let iterations = total / CHUNK;
    let mut i: usize = 0;
    while i < iterations
        invariant
            iterations == total / CHUNK,
            total > 2 * CHUNK,
            i <= iterations,
            r.len() == i,
            forall|k: int| 0 <= k < i && k < iterations - 1 ==> #[trigger] r[k] == CHUNK,
            i == iterations ==> r[iterations - 1] == total - (iterations - 1) * CHUNK,
            i < iterations ==> sizes_sum(r@) == i * CHUNK,
            i == iterations ==> sizes_sum(r@) == total,
        decreases iterations - i,
    {
        proof {
            vstd::arithmetic::div_mod::lemma_fundamental_div_mod(total as int, CHUNK as int);
            assert(iterations * CHUNK <= total);
            assert(i * CHUNK < total);
        }
        let size = if i == iterations - 1 {
            total - (iterations - 1) * CHUNK
        } else {
            CHUNK
        };
        let ghost before = r@;
        r.push(size);
        assert(r@.drop_last() =~= before);
        proof {
            assert((i + 1) * CHUNK == i * CHUNK + CHUNK);
        }
        i = i + 1;
    }
    r
}

/// The key of the lifted delta after the other party's correction `d` was sent:
/// `k - delta * d`, which in GF(2^256) is `k + delta * d`.
pub fn corrected_key(k: F256b, delta: F256b, d: F256b) -> (r: F256b)
    ensures
        r.poly() == badd(k.poly(), bmul(delta.poly(), d.poly(), red256())),
{
    let product = delta.mul(&d);
    k.add(&product)
}

/// The GF(3) halves of group `j` of 256 doubly-authenticated bits.
pub open spec fn group_f3_parts(part: Seq<(OPRFSharing<bool, F256b>, OPRFSharing<F3, F82t>)>, j: int) -> Seq<OPRFSharing<F3, F82t>> {
    Seq::new(256, |k: int| part[j * 256 + k].1)
}

/// Groups a chunk of doubly-authenticated bits by 256, one group per input of the batch:
/// the binary halves lifted to one authenticated element of GF(2^256) (value, MAC and
/// key), beside the 256 GF(3) halves.
pub fn group_da_bits(
    part: &Vec<(OPRFSharing<bool, F256b>, OPRFSharing<F3, F82t>)>,
    groups: usize,
) -> (r: Vec<(OPRFExtensionSharing<F256b>, Vec<OPRFSharing<F3, F82t>>)>)
    requires
        groups * 256 <= part.len(),
    ensures
        r.len() == groups,
        forall|j: int| 0 <= j < groups ==> {
            &&& (#[trigger] r[j]).1@ == group_f3_parts(part@, j)
            &&& r[j].0.0.poly() == lifted(group_values(part@, j, 256), 256)
            &&& r[j].0.1.poly() == lifted(group_macs(part@, j, 256), 256)
            &&& r[j].0.2.poly() == lifted(group_keys(part@, j, 256), 256)
        },
{
    let mut r: Vec<(OPRFExtensionSharing<F256b>, Vec<OPRFSharing<F3, F82t>>)> = Vec::new();
    let mut j: usize = 0;
    while j < groups
        invariant
            j <= groups,
            groups * 256 <= part.len(),
            r.len() == j,
            forall|q: int| 0 <= q < j ==> {
                &&& (#[trigger] r[q]).1@ == group_f3_parts(part@, q)
                &&& r[q].0.0.poly() == lifted(group_values(part@, q, 256), 256)
                &&& r[q].0.1.poly() == lifted(group_macs(part@, q, 256), 256)
                &&& r[q].0.2.poly() == lifted(group_keys(part@, q, 256), 256)
            },
        decreases groups - j,
    {
        proof {
            assert(256 * j + 256 <= part.len()) by (nonlinear_arith)
                requires
                    j < groups,
                    groups * 256 <= part.len(),
            ;
        }
        let (value, mac, key) = lift_sharing::<256>(j, part);
        let mut f3_parts: Vec<OPRFSharing<F3, F82t>> = Vec::new();
        let mut k: usize = 0;
        while k < 256
            invariant
                k <= 256,
                j < groups,
                256 * j + 256 <= part.len(),
                f3_parts@ == group_f3_parts(part@, j as int).take(k as int),
            decreases 256 - k,
        {
            f3_parts.push(part[j * 256 + k].1);
            k = k + 1;
            assert(f3_parts@ =~= group_f3_parts(part@, j as int).take(k as int));
        }
        assert(f3_parts@ =~= group_f3_parts(part@, j as int));
        r.push((OPRFExtensionSharing(value, mac, key), f3_parts));
        j = j + 1;
    }
    r
}

} // verus!
