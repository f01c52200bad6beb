//! Values derived from BLAKE3 digests: masks in GF(3) drawn from the digest of a MAC or
//! key, and commitments to lists of field elements.
use vstd::prelude::*;
use crate::bytes::{le_value, take16};
use crate::f3::{F3, lemma_f3_of_nat, lemma_f3_val_injective};
use crate::f82t::F82t;
use crate::f256b::F256b;

verus! {

/// The 32-byte BLAKE3 digest of a byte string.
pub uninterp spec fn blake3_digest(input: Seq<u8>) -> Seq<u8>;

/// `blake3::hash`: the BLAKE3 digest of `input`, as its 32 raw bytes (`Hash::as_bytes`).
/// The contract names the digest and claims no more than that it is determined by the
/// input bytes; feeding the same bytes to `Hasher::update` in pieces gives the same
/// digest, as the crate documents.
#[verifier::external_body]
fn blake3_hash(input: &[u8]) -> (r: [u8; 32])
    ensures
        r@ == blake3_digest(input@),
{
    *blake3::hash(input).as_bytes()
}

/// The element of GF(3) that a digest stands for: its first sixteen bytes, read as a
/// little-endian integer, modulo three.
pub open spec fn digest_mask(digest: Seq<u8>) -> F3 {
    F3::of_nat(le_value(digest.subrange(0, 16)))
}

/// The mask of a byte string: the element of GF(3) that its BLAKE3 digest stands for.
pub open spec fn f3_mask(bytes: Seq<u8>) -> F3 {
    digest_mask(blake3_digest(bytes))
}

/// The element of GF(3) that a digest stands for.
pub fn mask_from_digest(digest: &[u8; 32]) -> (r: F3)
    ensures
        r == digest_mask(digest@),
        r.wf(),
{
    let head = take16(digest, 0);
    let r = F3::from_uniform_bytes(&head);
    proof {
        lemma_f3_of_nat(le_value(head@));
        lemma_f3_val_injective(r, F3::of_nat(le_value(head@)));
    }
    r
}

/// The mask of an element of GF(3^82), drawn from the digest of its encoding.
pub fn mask_f82t(x: &F82t) -> (r: F3)
    ensures
        r == f3_mask(x.encoding()),
        r.wf(),
{
    let bytes = x.to_bytes();
    let digest = blake3_hash(&bytes);
    mask_from_digest(&digest)
}

/// The mask of an element of GF(2^256), drawn from the digest of its encoding.
pub fn mask_f256b(x: &F256b) -> (r: F3)
    ensures
        r == f3_mask(x.encoding()),
        r.wf(),
{
    let bytes = x.to_bytes();
    let digest = blake3_hash(&bytes);
    mask_from_digest(&digest)
}

/// The encodings of a list of elements of GF(2^256), one after the other.
pub open spec fn f256b_encodings(v: Seq<F256b>) -> Seq<u8>
    decreases v.len(),
{
    if v.len() == 0 {
        Seq::empty()
    } else {
        f256b_encodings(v.drop_last()) + v.last().encoding()
    }
}

/// The concatenated encodings of the elements, in order.
pub fn f256b_bytes(values: &Vec<F256b>) -> (r: Vec<u8>)
    ensures
        r@ == f256b_encodings(values@),
{
    let mut out: Vec<u8> = Vec::new();
    let mut i: usize = 0;
    while i < values.len()
        invariant
            i <= values.len(),
            out@ == f256b_encodings(values@.take(i as int)),
        decreases values.len() - i,
    {
        let bytes = values[i].to_bytes();
        let ghost before = out@;
        let mut j: usize = 0;
        while j < 32
            invariant
                j <= 32,
                out@ == before + bytes@.take(j as int),
            decreases 32 - j,
        {
            out.push(bytes[j]);
            j = j + 1;
            assert(bytes@.take(j as int) =~= bytes@.take(j - 1).push(bytes@[j - 1]));
        }
        assert(bytes@.take(32) =~= bytes@);
        assert(values@.take(i + 1).drop_last() =~= values@.take(i as int));
        i = i + 1;
    }
    assert(values@.take(values.len() as int) =~= values@);
    out
}

/// The commitment to a list of elements: the BLAKE3 digest of their encodings.
pub fn commit_f256b(values: &Vec<F256b>) -> (r: [u8; 32])
    ensures
        r@ == blake3_digest(f256b_encodings(values@)),
{
    let bytes = f256b_bytes(values);
    blake3_hash(bytes.as_slice())
}

} // verus!
