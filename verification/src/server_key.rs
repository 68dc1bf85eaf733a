//! The server-side key: block parameters and the single-block operations.
//!
//! Every block has a total capacity of `message_modulus * carry_modulus`
//! plaintext values; the low `message_modulus` of them form its message
//! space, the rest its carry space.  The operations here are the block
//! engine the radix algorithms are built on: plain addition (cheap, valid
//! while the degrees stay under capacity) and the bootstrapped message /
//! carry extractions.

use vstd::prelude::*;

use crate::block::Block;

verus! {

/// Parameters shared by every block of every ciphertext a server handles.
#[derive(Clone, Copy, PartialEq, Eq, Structural, Debug)]
pub struct ServerKey {
    pub message_modulus: u64,
    pub carry_modulus: u64,
}

impl ServerKey {
    /// Admissible parameters.
    ///
    /// The carry space must hold at least one bit but never exceed the
    /// message space, so every extracted carry is itself a clean digit.
    /// `3 * message_modulus - 2 <= capacity` makes a block able to hold
    /// the sum of two clean digits and one carry, and it bounds
    /// `max_sum_size` below by two, which is what makes the column
    /// reduction shrink.  The capacity bound leaves `u64` headroom for
    /// every plain addition the algorithms perform.
    pub open spec fn wf(self) -> bool {
        &&& 2 <= self.carry_modulus
        &&& self.carry_modulus <= self.message_modulus
        &&& 3 * self.message_modulus - 2 <= self.message_modulus * self.carry_modulus
        &&& self.message_modulus * self.carry_modulus <= 0x1_0000_0000
    }

    /// Total number of plaintexts a block can hold.
    pub open spec fn capacity(self) -> int {
        self.message_modulus * self.carry_modulus
    }

    /// Largest degree a block of a radix ciphertext is allowed to reach:
    /// it leaves room to add one clean digit (a propagated carry) without
    /// overflowing the capacity.
    pub open spec fn max_degree(self) -> int {
        self.capacity() - self.message_modulus
    }

    /// A block the engine can operate on: its degree really bounds its
    /// plaintext and stays under the capacity.
    pub open spec fn block_wf(self, b: Block) -> bool {
        b.value <= b.degree && b.degree < self.capacity()
    }

    /// A clean block: its degree fits the message space, so no residual
    /// carry is left in it.
    pub open spec fn block_clean(self, b: Block) -> bool {
        b.degree < self.message_modulus
    }

    /// What the bootstrapped message extraction returns.
    pub open spec fn message_extract_spec(self, b: Block) -> Block {
        Block {
            value: (b.value as int % self.message_modulus as int) as u64,
            degree: (self.message_modulus - 1) as u64,
        }
    }

    /// What the bootstrapped carry extraction returns.
    pub open spec fn carry_extract_spec(self, b: Block) -> Block {
        Block {
            value: (b.value as int / self.message_modulus as int) as u64,
            degree: (b.degree as int / self.message_modulus as int) as u64,
        }
    }

    /// How many blocks of the given degree can be added by plain addition
    /// while the accumulated degree stays within `max_degree`, so that a
    /// single extraction pair cleans the accumulator.
    pub fn max_sum_size(&self, degree: u64) -> (r: u64)
        requires
            self.wf(),
            1 <= degree,
        ensures
            r == self.max_degree() / (degree as int),
            r * degree <= self.max_degree(),
            self.max_degree() < (r + 1) * degree,
    {
        let cap = self.message_modulus * self.carry_modulus;
        let r = (cap - self.message_modulus) / degree;
        proof {
            let d = degree as int;
            let m = self.max_degree();
            let q = m / d;
            let rest = m % d;
            vstd::arithmetic::div_mod::lemma_fundamental_div_mod(m, d);
            vstd::arithmetic::div_mod::lemma_mod_bound(m, d);
            assert(q * d <= m && m < (q + 1) * d) by (nonlinear_arith)
                requires
                    m == d * q + rest,
                    0 <= rest,
                    rest < d;
        }
        r
    }

    /// A block holding a public value: its degree is exactly that value.
    pub fn create_trivial(&self, value: u64) -> (r: Block)
        requires
            self.wf(),
            value < self.capacity(),
        ensures
            r == (Block { value, degree: value }),
    {
        Block { value, degree: value }
    }

    /// Plain homomorphic addition: no bootstrap, valid only while the
    /// combined degree stays under the capacity.
    pub fn unchecked_add_assign(&self, lhs: &mut Block, rhs: &Block)
        requires
            self.wf(),
            self.block_wf(*old(lhs)),
            self.block_wf(*rhs),
            old(lhs).degree + rhs.degree < self.capacity(),
        ensures
            *final(lhs) == (Block {
                value: (old(lhs).value + rhs.value) as u64,
                degree: (old(lhs).degree + rhs.degree) as u64,
            }),
            self.block_wf(*final(lhs)),
    {
        lhs.value = lhs.value + rhs.value;
        lhs.degree = lhs.degree + rhs.degree;
    }

    /// What the carry-state lookup returns: 1 when the block surely
    /// generates a carry, 2 when it would pass an incoming single carry
    /// through (never for the first block, whose carry-in is already
    /// absorbed), 0 when it absorbs one.
    pub open spec fn prefix_state_spec(self, b: Block, first: bool) -> Block {
        Block {
            value: if b.value >= self.message_modulus {
                1
            } else if !first && b.value == self.message_modulus - 1 {
                2
            } else {
                0
            },
            degree: 2,
        }
    }

    /// Bootstrapped lookup of the generate/propagate state of one block.
    pub fn compute_prefix_state(&self, b: &Block, first: bool) -> (r: Block)
        requires
            self.wf(),
            self.block_wf(*b),
        ensures
            r == self.prefix_state_spec(*b, first),
    {
        let v: u64 = if b.value >= self.message_modulus {
            1
        } else if !first && b.value == self.message_modulus - 1 {
            2
        } else {
            0
        };
        Block { value: v, degree: 2 }
    }

    /// Bootstrapped combination of two carry states at doubling stride:
    /// a propagating segment defers to the segment below it, any other
    /// state is already resolved.
    pub fn combine_states(&self, hi: &Block, lo: &Block) -> (r: Block)
        requires
            self.wf(),
            hi.value <= 2,
            lo.value <= 2,
        ensures
            r == (Block { value: if hi.value == 2 { lo.value } else { hi.value }, degree: 2 }),
    {
        let v: u64 = if hi.value == 2 {
            lo.value
        } else {
            hi.value
        };
        Block { value: v, degree: 2 }
    }

    /// One lane of a scan round: combine this lane's state with the one
    /// `stride` positions below it, or keep it when no such lane exists.
    pub fn combine_lane(&self, states: &Vec<Block>, stride: usize, i: usize) -> (r: Block)
        requires
            self.wf(),
            stride >= 1,
            i < states@.len(),
            forall|j: int| 0 <= j < states@.len() ==> (#[trigger] states@[j]).value <= 2,
        ensures
            r == (if i >= stride {
                Block {
                    value: if states@[i as int].value == 2 {
                        states@[i - stride].value
                    } else {
                        states@[i as int].value
                    },
                    degree: 2,
                }
            } else {
                states@[i as int]
            }),
    {
        if i >= stride {
            self.combine_states(&states[i], &states[i - stride])
        } else {
            states[i]
        }
    }

    /// Bootstrapped lookup turning a fully combined carry state into the
    /// encrypted carry bit itself.
    pub fn state_to_carry(&self, st: &Block) -> (r: Block)
        requires
            self.wf(),
        ensures
            r == (Block { value: if st.value == 1 { 1u64 } else { 0u64 }, degree: 1 }),
    {
        let v: u64 = if st.value == 1 {
            1
        } else {
            0
        };
        Block { value: v, degree: 1 }
    }

    /// Bootstrapped lookup of the base-complement of a clean digit,
    /// used to subtract by adding.
    pub fn block_neg_digit(&self, b: &Block) -> (r: Block)
        requires
            self.wf(),
            self.block_wf(*b),
            self.block_clean(*b),
        ensures
            r == (Block {
                value: (self.message_modulus - 1 - b.value) as u64,
                degree: (self.message_modulus - 1) as u64,
            }),
    {
        Block { value: self.message_modulus - 1 - b.value, degree: self.message_modulus - 1 }
    }

    /// Bootstrapped lookup comparing a block against a public digit.
    pub fn block_ne_scalar(&self, b: &Block, scalar: u64) -> (r: Block)
        requires
            self.wf(),
            self.block_wf(*b),
        ensures
            r == (Block { value: if b.value != scalar { 1u64 } else { 0u64 }, degree: 1 }),
    {
        let v: u64 = if b.value != scalar {
            1
        } else {
            0
        };
        Block { value: v, degree: 1 }
    }

    /// Bootstrapped selection between two blocks by an encrypted boolean.
    pub fn block_cmux(&self, cond: &crate::block::BooleanBlock, x: &Block, y: &Block) -> (r: Block)
        requires
            self.wf(),
            cond.wf(),
            self.block_wf(*x),
            self.block_wf(*y),
        ensures
            r == (Block {
                value: if cond.spec_value() == 1 {
                    x.value
                } else {
                    y.value
                },
                degree: if x.degree >= y.degree {
                    x.degree
                } else {
                    y.degree
                },
            }),
    {
        let v: u64 = if cond.block.value == 1 {
            x.value
        } else {
            y.value
        };
        let d: u64 = if x.degree >= y.degree {
            x.degree
        } else {
            y.degree
        };
        Block { value: v, degree: d }
    }

    /// Bootstrapped product of a block with an encrypted boolean: keeps
    /// the digit when the boolean holds, zeroes it otherwise.
    pub fn block_zero_if_false(&self, cond: &crate::block::BooleanBlock, x: &Block) -> (r: Block)
        requires
            self.wf(),
            cond.wf(),
            self.block_wf(*x),
        ensures
            r == (Block {
                value: if cond.spec_value() == 1 {
                    x.value
                } else {
                    0u64
                },
                degree: x.degree,
            }),
    {
        let v: u64 = if cond.block.value == 1 {
            x.value
        } else {
            0
        };
        Block { value: v, degree: x.degree }
    }

    /// Bootstrapped OR of two encrypted booleans.
    pub fn boolean_bitor(
        &self,
        a: &crate::block::BooleanBlock,
        b: &crate::block::BooleanBlock,
    ) -> (r: crate::block::BooleanBlock)
        requires
            self.wf(),
            a.wf(),
            b.wf(),
        ensures
            r.wf(),
            r.spec_value() == 1 <==> (a.spec_value() == 1 || b.spec_value() == 1),
    {
        let v: u64 = if a.block.value == 1 || b.block.value == 1 {
            1
        } else {
            0
        };
        crate::block::BooleanBlock { block: Block { value: v, degree: 1 } }
    }

    /// Bootstrapped negation of an encrypted boolean.
    pub fn boolean_not(&self, a: &crate::block::BooleanBlock) -> (r: crate::block::BooleanBlock)
        requires
            self.wf(),
            a.wf(),
        ensures
            r.wf(),
            r.spec_value() == 1 <==> a.spec_value() != 1,
    {
        let v: u64 = if a.block.value == 1 {
            0
        } else {
            1
        };
        crate::block::BooleanBlock { block: Block { value: v, degree: 1 } }
    }

    /// Reads the boolean a trivial encrypted boolean holds.  Every
    /// block in this model is a trivial encryption, so the server can
    /// open it.
    pub fn decrypt_trivial_bool(&self, b: &crate::block::BooleanBlock) -> (r: bool)
        requires
            b.wf(),
        ensures
            r == (b.spec_value() == 1),
    {
        b.block.value == 1
    }

    /// Bootstrapped extraction of the message part of a block.
    pub fn message_extract(&self, b: &Block) -> (r: Block)
        requires
            self.wf(),
            self.block_wf(*b),
        ensures
            r == self.message_extract_spec(*b),
            self.block_wf(r),
            self.block_clean(r),
    {
        proof {
            vstd::arithmetic::div_mod::lemma_mod_bound(b.value as int, self.message_modulus as int);
        }
        Block {
            value: b.value % self.message_modulus,
            degree: self.message_modulus - 1,
        }
    }

    /// Bootstrapped extraction of the carry part of a block.  The carry
    /// of any well-formed block is clean, because the carry space is no
    /// larger than the message space.
    pub fn carry_extract(&self, b: &Block) -> (r: Block)
        requires
            self.wf(),
            self.block_wf(*b),
        ensures
            r == self.carry_extract_spec(*b),
            self.block_wf(r),
            self.block_clean(r),
    {
        proof {
            let m = self.message_modulus as int;
            let c = self.carry_modulus as int;
            vstd::arithmetic::div_mod::lemma_div_is_ordered(b.value as int, b.degree as int, m);
            vstd::arithmetic::div_mod::lemma_div_is_ordered(b.degree as int, self.capacity() - 1, m);
            assert(m * c - 1 == (c - 1) * m + (m - 1)) by (nonlinear_arith);
            vstd::arithmetic::div_mod::lemma_fundamental_div_mod_converse_div(
                self.capacity() - 1,
                m,
                c - 1,
                m - 1,
            );
        }
        Block {
            value: b.value / self.message_modulus,
            degree: b.degree / self.message_modulus,
        }
    }
}

} // verus!
