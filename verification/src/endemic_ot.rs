//! The state and messages of the Kyber-based oblivious transfer.
use vstd::prelude::*;

verus! {

/// Receiver state.
#[derive(Clone)]
pub struct KyberOTRecver {
    /// The receiver's secret key.
    pub secret_key: Vec<u8>,
    /// The receiver's choice bit (0 or 1).
    pub b: usize,
    /// The receiver's output string.
    pub rot: Vec<u8>,
}

/// The receiver's two public keys.
pub struct KyberOtRecvPKs {
    /// The two public keys.
    pub keys: [Vec<u8>; 2],
}

/// The sender's two ciphertexts.
#[derive(Clone)]
pub struct KyberOTCtxt {
    /// The two ciphertexts.
    pub sm: [Vec<u8>; 2],
}

/// The sender's two plaintexts.
#[derive(Clone)]
pub struct KyberOTPtxt {
    /// The two strings to send.
    pub sot: [Vec<u8>; 2],
}

} // verus!
