//! Homomorphic multi-operand summation over radix ciphertexts.
//!
//! A large encrypted integer is an ordered sequence of small encrypted
//! digits ("blocks"), least significant first.  Every block carries a
//! cleartext *degree*: an upper bound on the plaintext it encodes.  The
//! modules below implement and verify the carry-propagation protocol and
//! the carry-save column reduction that sums many such integers while
//! keeping every intermediate block inside its capacity.
//!
//! The single-block primitives stand for the block engine of an FHE
//! scheme: each block operation tracks the plaintext a block encodes
//! together with its degree, which is exactly the information the
//! composition algorithms may rely on.  The cryptographic layer beneath
//! (bootstrapping, key material, device dispatch) is out of scope.

pub mod block;
pub mod erc20;
pub mod ops;
mod parallel;
pub mod propagate;
pub mod radix;
pub mod server_key;
pub mod sum;
