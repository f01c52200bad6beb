//! Bits shared over GF(2) and GF(3) from an oblivious transfer of masks.
//!
//! For each correlation the server has two masks, `m0` and `m1`, and the client learns
//! `m_x` for its bit `x`. Equal masks carry no information and the correlation is
//! discarded. Otherwise the server keeps the bit `d` (1 when `m1 = m0 + 1`) with share
//! `m_d`, the client keeps `x` with share `-m_x`, and the GF(3) shares add up to
//! `x xor d`.
use vstd::prelude::*;
use crate::f3::F3;

verus! {

/// The server's bit for two different masks: 1 when `m1 = m0 + 1`, 0 otherwise.
pub open spec fn d_bit_of(m0: F3, m1: F3) -> u8 {
    if m1.val() == (m0.val() + 1) % 3 {
        1
    } else {
        0
    }
}

/// The server's decision for one correlation: `None` when the masks agree and it is
/// discarded, otherwise the bit `d` and the share `m_d`.
pub fn d_bit_from_masks(m0: F3, m1: F3) -> (r: Option<(u8, F3)>)
    requires
        m0.wf(),
        m1.wf(),
    ensures
        r is None <==> m0 == m1,
        r matches Some((d, s)) ==> d == d_bit_of(m0, m1) && s == (if d == 1 {
            m1
        } else {
            m0
        }),
{
    if m0 == m1 {
        None
    } else {
        let one = F3::one();
        let next = m0.add(&one);
        if m1 == next {
            proof {
                crate::f3::lemma_f3_val_injective(m1, next);
            }
            Some((1u8, m1))
        } else {
            proof {
                if m1.val() == (m0.val() + 1) % 3 {
                    crate::f3::lemma_f3_val_injective(m1, next);
                }
            }
            Some((0u8, m0))
        }
    }
}

/// The client's bit and share for its choice bit `x` and the mask `m_x` it received.
pub fn d_bit_client_share(x: u8, mx: F3) -> (r: (u8, F3))
    requires
        mx.wf(),
    ensures
        r.0 == x,
        r.1.wf(),
        (r.1.val() + mx.val()) % 3 == 0,
{
    (x, mx.neg())
}

/// The shares add up to the exclusive or of the bits: for different masks and a choice
/// bit `x` with its mask `m_x`, the server's share plus the client's is `x xor d`.
pub proof fn lemma_d_bit_shares_add_up(m0: F3, m1: F3, x: u8, client: F3)
    requires
        m0.wf(),
        m1.wf(),
        client.wf(),
        m0 != m1,
        x <= 1,
        (client.val() + (if x == 1 {
            m1
        } else {
            m0
        }).val()) % 3 == 0,
    ensures
        ({
            let d = d_bit_of(m0, m1);
            let s = if d == 1 {
                m1
            } else {
                m0
            };
            (s.val() + client.val()) % 3 == (if x == d {
                0nat
            } else {
                1nat
            })
        }),
{
    if m0.val() == m1.val() {
        crate::f3::lemma_f3_val_injective(m0, m1);
    }
}

} // verus!
