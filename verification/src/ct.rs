//! Constant-time equality and selection of machine words, from the `subtle` crate.
//! A `subtle::Choice` is handled here as the byte it holds: 1 for true, 0 for false.
use vstd::prelude::*;

verus! {

/// `subtle::ConstantTimeEq::ct_eq` on bytes, read with `Choice::unwrap_u8`: 1 when the
/// bytes are equal, 0 otherwise.
#[verifier::external_body]
pub(crate) fn ct_eq_u8(a: u8, b: u8) -> (r: u8)
    ensures
        r == (if a == b { 1u8 } else { 0u8 }),
{
    subtle::ConstantTimeEq::ct_eq(&a, &b).unwrap_u8()
}

/// `subtle::ConstantTimeEq::ct_eq` on 64-bit words, read with `Choice::unwrap_u8`: 1
/// when the words are equal, 0 otherwise.
#[verifier::external_body]
pub(crate) fn ct_eq_u64(a: u64, b: u64) -> (r: u8)
    ensures
        r == (if a == b { 1u8 } else { 0u8 }),
{
    subtle::ConstantTimeEq::ct_eq(&a, &b).unwrap_u8()
}

/// `subtle::ConstantTimeEq::ct_eq` on 128-bit words, read with `Choice::unwrap_u8`: 1
/// when the words are equal, 0 otherwise.
#[verifier::external_body]
pub(crate) fn ct_eq_u128(a: u128, b: u128) -> (r: u8)
    ensures
        r == (if a == b { 1u8 } else { 0u8 }),
{
    subtle::ConstantTimeEq::ct_eq(&a, &b).unwrap_u8()
}

/// `subtle::ConditionallySelectable::conditional_select` on bytes, with the choice made
/// by `Choice::from`, which takes 0 or 1: `a` for 0 and `b` for 1.
#[verifier::external_body]
pub(crate) fn conditional_select_u8(a: u8, b: u8, choice: u8) -> (r: u8)
    requires
        choice <= 1,
    ensures
        r == (if choice == 0 { a } else { b }),
{
    <u8 as subtle::ConditionallySelectable>::conditional_select(&a, &b, subtle::Choice::from(choice))
}

/// `subtle::ConditionallySelectable::conditional_select` on 64-bit words, with the
/// choice made by `Choice::from`, which takes 0 or 1: `a` for 0 and `b` for 1.
#[verifier::external_body]
pub(crate) fn conditional_select_u64(a: u64, b: u64, choice: u8) -> (r: u64)
    requires
        choice <= 1,
    ensures
        r == (if choice == 0 { a } else { b }),
{
    <u64 as subtle::ConditionallySelectable>::conditional_select(&a, &b, subtle::Choice::from(choice))
}

/// `subtle::ConditionallySelectable::conditional_select` on 128-bit words, with the
/// choice made by `Choice::from`, which takes 0 or 1: `a` for 0 and `b` for 1.
#[verifier::external_body]
pub(crate) fn conditional_select_u128(a: u128, b: u128, choice: u8) -> (r: u128)
    requires
        choice <= 1,
    ensures
        r == (if choice == 0 { a } else { b }),
{
    <u128 as subtle::ConditionallySelectable>::conditional_select(&a, &b, subtle::Choice::from(choice))
}

/// Both choices, as `Choice & Choice` combines them.
pub(crate) fn choice_and(a: u8, b: u8) -> (r: u8)
    requires
        a <= 1,
        b <= 1,
    ensures
        r == (if a == 1 && b == 1 { 1u8 } else { 0u8 }),
{
    let r = a & b;
    assert(r == (if a == 1 && b == 1 { 1u8 } else { 0u8 })) by (bit_vector)
        requires
            a <= 1,
            b <= 1,
            r == a & b,
    ;
    r
}

} // verus!
