//! Types shared by the oblivious PRF protocols.
use vstd::prelude::*;

verus! {

/// The associated types of an oblivious PRF.
pub trait ObliviousPrf where Self: Sized {
    /// PRF seed.
    type Seed: Sized;
    /// PRF input.
    type Input: Sized;
    /// PRF output.
    type Output: Sized;
}

/// Whether the PRF output is revealed to the receiver or secret-shared between the
/// parties.
#[derive(Clone, Copy, Debug, PartialEq, Eq, Structural)]
pub enum OPRFSetting {
    /// The receiver learns the output.
    RevealOutput,
    /// The output stays secret-shared.
    SecretShareOutput,
}

/// The prover's side of an authenticated value: the value, in the prime field `P`, and
/// its MAC in the extension field `F`.
#[derive(Clone, Copy, Debug, PartialEq, Eq)]
pub struct MacProver<P, F>(
    /// The value.
    pub P,
    /// The MAC.
    pub F,
);

/// The verifier's side of an authenticated value: its key in the extension field `F`.
#[derive(Clone, Copy, Debug, PartialEq, Eq)]
pub struct MacVerifier<F>(
    /// The key.
    pub F,
);

/// A shared value of the preprocessing: the party's share of the value, the share
/// authenticated towards the other party, and the key of the other party's share.
#[derive(Clone, Copy, Debug, PartialEq, Eq)]
pub struct OPRFSharing<P, F>(
    /// Share value.
    pub P,
    /// Share authenticated by this party.
    pub MacProver<P, F>,
    /// Key of the other party's share.
    pub MacVerifier<F>,
);

/// A value with its MAC and key, in the field itself.
pub struct OPRFExtensionSharing<F>(
    /// Share value.
    pub F,
    /// Share MAC.
    pub F,
    /// Share key.
    pub F,
);

} // verus!
