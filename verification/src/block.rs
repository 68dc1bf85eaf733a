//! A single encrypted digit and the encrypted boolean built from it.

use vstd::prelude::*;

verus! {

/// One encrypted digit of a radix integer.
///
/// `value` is the plaintext the block encodes; `degree` is the cleartext
/// upper bound on that plaintext which the server tracks to decide when
/// an operation would overflow the block's capacity.  A degree of zero
/// proves the block encrypts zero.
#[derive(Clone, Copy, PartialEq, Eq, Structural, Debug)]
pub struct Block {
    pub value: u64,
    pub degree: u64,
}

/// An encrypted boolean: a block whose plaintext is 0 or 1.
#[derive(Clone, Copy, PartialEq, Eq, Structural, Debug)]
pub struct BooleanBlock {
    pub block: Block,
}

impl BooleanBlock {
    /// Wraps a block that is already known to encrypt 0 or 1.
    pub fn new_unchecked(block: Block) -> (r: BooleanBlock)
        ensures
            r.block == block,
    {
        BooleanBlock { block }
    }

    /// The plaintext of the wrapped block, in specifications.
    pub open spec fn spec_value(self) -> u64 {
        self.block.value
    }

    /// A well-formed encrypted boolean encodes 0 or 1 and its degree
    /// bounds the value.
    pub open spec fn wf(self) -> bool {
        self.block.value <= self.block.degree && self.block.degree <= 1
    }
}

} // verus!
