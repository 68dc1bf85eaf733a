//! The carry propagator: turns a ciphertext whose blocks may hold
//! unpropagated carries into one whose blocks are each independently
//! usable, by a sequential chain of extractions or by a logarithmic
//! parallel-prefix scan over generate/propagate states.
//!
//! Both algorithms satisfy one contract: the clean output and the carry
//! out are the quotient/remainder decomposition of the input's value
//! plus the injected carry, so they agree block for block.

use vstd::arithmetic::div_mod::lemma_basic_div;
use vstd::arithmetic::div_mod::lemma_fundamental_div_mod;
use vstd::arithmetic::div_mod::lemma_fundamental_div_mod_converse;
use vstd::arithmetic::power::pow;
use vstd::prelude::*;

use crate::block::Block;
use crate::radix::lemma_eval_bounds;
use crate::radix::lemma_eval_injective;
use crate::radix::lemma_eval_push;
use crate::radix::radix_eval;
use crate::radix::RadixCiphertext;
use crate::server_key::ServerKey;

verus! {

/// The carry flowing into position `i` of the sequential chain, given
/// the initial carry `c0` flowing into position 0.
pub open spec fn chain_carry(blocks: Seq<Block>, base: int, c0: int, i: int) -> int
    decreases i,
{
    if i <= 0 {
        c0
    } else {
        (blocks[i - 1].value + chain_carry(blocks, base, c0, i - 1)) / base
    }
}

/// A quotient of a value below `2 * b` is its carry bit.
proof fn lemma_div01(v: int, b: int)
    requires
        b >= 1,
        0 <= v,
        v <= 2 * b - 1,
    ensures
        v / b == if v >= b {
            1int
        } else {
            0int
        },
{
    if v >= b {
        lemma_fundamental_div_mod_converse(v, b, 1, v - b);
    } else {
        lemma_basic_div(v, b);
    }
}

/// Pushing the chain one block forward: the carries of the suffix with
/// the first block's carry-out as initial carry are the carries of the
/// whole chain, shifted.
proof fn lemma_chain_shift(blocks: Seq<Block>, base: int, c0: int, i: int)
    requires
        blocks.len() >= 1,
        0 <= i < blocks.len(),
    ensures
        chain_carry(blocks.drop_first(), base, (blocks[0].value + c0) / base, i) == chain_carry(
            blocks,
            base,
            c0,
            i + 1,
        ),
    decreases i,
{
    let c1 = (blocks[0].value + c0) / base;
    if i > 0 {
        lemma_chain_shift(blocks, base, c0, i - 1);
        assert(blocks.drop_first()[i - 1] == blocks[i]);
        assert(chain_carry(blocks.drop_first(), base, c1, i) == (blocks.drop_first()[i - 1].value
            + chain_carry(blocks.drop_first(), base, c1, i - 1)) / base);
        assert(chain_carry(blocks, base, c0, i + 1) == (blocks[i].value + chain_carry(
            blocks,
            base,
            c0,
            i,
        )) / base);
    } else {
        assert(chain_carry(blocks, base, c0, 0) == c0);
        assert(chain_carry(blocks.drop_first(), base, c1, 0) == c1);
        assert(chain_carry(blocks, base, c0, 1) == (blocks[0].value + c0) / base);
    }
}

/// The defining property of carry propagation: blocks holding the
/// chain's remainders, together with the final chain carry, decompose
/// the input value plus the initial carry.
proof fn lemma_chain_eval(work: Seq<Block>, out: Seq<Block>, base: int, c0: int)
    requires
        base >= 1,
        0 <= c0,
        out.len() == work.len(),
        forall|i: int|
            0 <= i < out.len() ==> (#[trigger] out[i]).value == (work[i].value + chain_carry(
                work,
                base,
                c0,
                i,
            )) % base,
        forall|i: int| 0 <= i < work.len() ==> chain_carry(work, base, c0, i) >= 0,
    ensures
        radix_eval(out, base) + pow(base, work.len()) * chain_carry(work, base, c0, work.len() as int)
            == radix_eval(work, base) + c0,
    decreases work.len(),
{
    if work.len() == 0 {
        vstd::arithmetic::power::lemma_pow0(base);
    } else {
        let n = work.len() as int;
        let w0 = work[0].value as int;
        let c1 = (w0 + c0) / base;
        lemma_fundamental_div_mod(w0 + c0, base);
        assert(c1 >= 0) by {
            vstd::arithmetic::div_mod::lemma_div_pos_is_pos(w0 + c0, base);
        }
        assert forall|i: int| 0 <= i < work.len() implies chain_carry(
            work.drop_first(),
            base,
            c1,
            i,
        ) == chain_carry(work, base, c0, i + 1) by {
            lemma_chain_shift(work, base, c0, i);
        }
        assert(forall|i: int|
            0 <= i < out.drop_first().len() ==> (#[trigger] out.drop_first()[i]).value == (
            work.drop_first()[i].value + chain_carry(work.drop_first(), base, c1, i)) % base);
        lemma_chain_eval(work.drop_first(), out.drop_first(), base, c1);
        let cn = chain_carry(work, base, c0, n);
        let eo = radix_eval(out.drop_first(), base);
        let ew = radix_eval(work.drop_first(), base);
        let p = pow(base, (work.len() - 1) as nat);
        assert(chain_carry(work.drop_first(), base, c1, n - 1) == cn);
        assert(eo + p * cn == ew + c1);
        assert(pow(base, work.len()) == base * p) by {
            vstd::arithmetic::power::lemma_pow_adds(base, 1, (work.len() - 1) as nat);
            vstd::arithmetic::power::lemma_pow1(base);
        }
        assert(out[0].value == (w0 + c0) % base);
        // Multiply the suffix identity by the base and absorb the first
        // block's quotient/remainder split.
        assert(out[0].value + base * eo + (base * p) * cn == w0 + base * ew + c0)
            by (nonlinear_arith)
            requires
                eo + p * cn == ew + c1,
                w0 + c0 == base * c1 + out[0].value;
    }
}

/// The generate/propagate/kill state of one block of the carry-injected
/// work sequence: 1 when it generates a carry on its own, 2 when it
/// passes a single incoming carry through, 0 when it absorbs one.  The
/// first block never propagates: its carry-in is already added to it.
pub open spec fn base_state(work: Seq<Block>, base: int, i: int) -> int {
    if work[i].value >= base {
        1
    } else if i != 0 && work[i].value == base - 1 {
        2
    } else {
        0
    }
}

/// The combined state of the window of blocks `lo ..= i`: a propagating
/// block defers to the window below it, any other state is resolved.
pub open spec fn window_state(work: Seq<Block>, base: int, lo: int, i: int) -> int
    decreases i - lo,
{
    if i <= lo {
        base_state(work, base, i)
    } else if base_state(work, base, i) == 2 {
        window_state(work, base, lo, i - 1)
    } else {
        base_state(work, base, i)
    }
}

/// The lowest index a window of span `s` ending at `i` can reach.
pub open spec fn window_lo(i: int, s: int) -> int {
    if i - s + 1 < 0 {
        0
    } else {
        i - s + 1
    }
}

/// Window combination is associative: the state of `lo ..= i` is the
/// state of the upper part deferring, when it propagates, to the state
/// of the lower part.  This is what lets the scan resolve whole windows
/// at doubling strides.
proof fn lemma_window_split(work: Seq<Block>, base: int, lo: int, m: int, i: int)
    requires
        lo <= m < i,
    ensures
        window_state(work, base, lo, i) == if window_state(work, base, m + 1, i) == 2 {
            window_state(work, base, lo, m)
        } else {
            window_state(work, base, m + 1, i)
        },
    decreases i - m,
{
    if i == m + 1 {
        assert(window_state(work, base, m + 1, i) == base_state(work, base, i));
    } else {
        lemma_window_split(work, base, lo, m, i - 1);
    }
}

/// A fully combined window state is the chain carry itself, provided
/// every block (after carry injection) can produce at most one carry:
/// the first block's value stays under `2 * base`, the others under
/// `2 * base - 1`.
proof fn lemma_window_is_chain(work: Seq<Block>, base: int, i: int)
    requires
        base >= 2,
        0 <= i < work.len(),
        work[0].value <= 2 * base - 1,
        forall|j: int| 1 <= j < work.len() ==> (#[trigger] work[j]).value <= 2 * base - 2,
    ensures
        0 <= window_state(work, base, 0, i) <= 1,
        window_state(work, base, 0, i) == chain_carry(work, base, 0, i + 1),
    decreases i,
{
    if i == 0 {
        assert(chain_carry(work, base, 0, 0) == 0);
        lemma_div01(work[0].value as int, base);
        assert(chain_carry(work, base, 0, 1) == (work[0].value + 0) / base);
    } else {
        lemma_window_is_chain(work, base, i - 1);
        let c = chain_carry(work, base, 0, i);
        lemma_div01(work[i].value + c, base);
        assert(chain_carry(work, base, 0, i + 1) == (work[i].value + c) / base);
    }
}

impl ServerKey {
    /// Sequential carry propagation: visit blocks least significant
    /// first; at each position add the incoming carry, extract the clean
    /// message digit and pass the extracted carry on.  Handles any
    /// well-formed radix blocks, at the price of a chain of `n`
    /// dependent extractions.
    pub fn propagate_carry_chain(&self, blocks: &Vec<Block>, carry_in: &Block) -> (r: (
        Vec<Block>,
        Block,
    ))
        requires
            self.wf(),
            forall|i: int| 0 <= i < blocks@.len() ==> self.radix_block_wf(#[trigger] blocks@[i]),
            carry_in.value <= carry_in.degree,
            carry_in.degree < self.message_modulus,
        ensures
            r.0@.len() == blocks@.len(),
            forall|i: int|
                0 <= i < r.0@.len() ==> self.radix_block_wf(#[trigger] r.0@[i]) && self.block_clean(
                    r.0@[i],
                ),
            radix_eval(r.0@, self.message_modulus as int) + pow(
                self.message_modulus as int,
                blocks@.len(),
            ) * r.1.value == radix_eval(blocks@, self.message_modulus as int) + carry_in.value,
            r.1.value <= r.1.degree,
            r.1.degree < self.message_modulus,
    {
        let m = self.message_modulus;
        let ghost base = m as int;
        let n = blocks.len();
        let mut out: Vec<Block> = Vec::new();
        let mut carry: Block = *carry_in;
        let mut i: usize = 0;
        proof {
            vstd::arithmetic::power::lemma_pow0(base);
            assert(blocks@.take(0) =~= Seq::<Block>::empty());
        }
        while i < n
            invariant
                self.wf(),
                m == self.message_modulus,
                base == m as int,
                n == blocks@.len(),
                i <= n,
                out@.len() == i,
                forall|j: int| 0 <= j < n ==> self.radix_block_wf(#[trigger] blocks@[j]),
                forall|j: int|
                    0 <= j < i ==> self.radix_block_wf(#[trigger] out@[j]) && self.block_clean(
                        out@[j],
                    ),
                carry.value <= carry.degree,
                carry.degree < m,
                radix_eval(out@, base) + pow(base, i as nat) * carry.value == radix_eval(
                    blocks@.take(i as int),
                    base,
                ) + carry_in.value,
            decreases n - i,
        {
            let mut acc = blocks[i];
            self.unchecked_add_assign(&mut acc, &carry);
            let msg = self.message_extract(&acc);
            let new_carry = self.carry_extract(&acc);
            let ghost old_out = out@;
            let ghost old_carry = carry.value as int;
            out.push(msg);
            carry = new_carry;
            proof {
                let p = pow(base, i as nat);
                let accv = acc.value as int;
                vstd::arithmetic::power::lemma_pow_positive(base, i as nat);
                lemma_eval_push(old_out, msg, base);
                assert(blocks@.take(i + 1) =~= blocks@.take(i as int).push(blocks@[i as int]));
                lemma_eval_push(blocks@.take(i as int), blocks@[i as int], base);
                lemma_fundamental_div_mod(accv, base);
                assert(pow(base, (i + 1) as nat) == base * p) by {
                    vstd::arithmetic::power::lemma_pow_adds(base, 1, i as nat);
                    vstd::arithmetic::power::lemma_pow1(base);
                }
                // The extraction pair splits the accumulator: weight p of
                // it turns into p times the message plus base * p times
                // the carry.
                assert(p * accv == p * (accv % base) + (base * p) * (accv / base))
                    by (nonlinear_arith)
                    requires
                        accv == base * (accv / base) + accv % base;
                assert(p * accv == p * blocks@[i as int].value + p * old_carry)
                    by (nonlinear_arith)
                    requires
                        accv == blocks@[i as int].value + old_carry;
            }
            i = i + 1;
        }
        proof {
            assert(blocks@.take(n as int) =~= blocks@);
        }
        (out, carry)
    }

    /// Full propagation of a radix ciphertext in place: afterwards every
    /// block is clean and the represented value is reduced modulo the
    /// ciphertext's capacity.  The carry out of the last block is
    /// discarded, which is what reduces the value.
    pub fn full_propagate_parallelized(&self, ct: &mut RadixCiphertext)
        requires
            self.wf(),
            self.radix_wf(*old(ct)),
        ensures
            final(ct).blocks@.len() == old(ct).blocks@.len(),
            self.radix_wf(*final(ct)),
            self.radix_clean(*final(ct)),
            self.radix_value(*final(ct)) == self.radix_value(*old(ct)) % self.radix_capacity(
                old(ct).blocks@.len() as nat,
            ),
    {
        let ghost base = self.message_modulus as int;
        let ghost n = ct.blocks@.len();
        let zero = self.create_trivial(0);
        let (clean_blocks, carry_out) = self.propagate_carry_chain(&ct.blocks, &zero);
        ct.blocks = clean_blocks;
        proof {
            let e = radix_eval(ct.blocks@, base);
            let cap = pow(base, n);
            vstd::arithmetic::power::lemma_pow_positive(base, n);
            lemma_eval_bounds(ct.blocks@, base);
            vstd::arithmetic::mul::lemma_mul_is_commutative(cap, carry_out.value as int);
            lemma_fundamental_div_mod_converse(
                radix_eval(old(ct).blocks@, base),
                cap,
                carry_out.value as int,
                e,
            );
        }
    }
    /// Parallel-prefix carry propagation (Hillis–Steele): one lookup per
    /// block computes a generate/propagate state, `ceil(log2(n))` rounds
    /// of stride-doubling combinations resolve every prefix, and one
    /// final lookup per block applies the resolved carry.  Requires the
    /// single-carry regime: every block's degree at most `2 * (message_modulus - 1)`
    /// (the shape of a block-wise sum of two clean ciphertexts) and a
    /// boolean carry-in.  Same contract as the sequential chain.
    pub fn propagate_carry_prefix(&self, blocks: &Vec<Block>, carry_in: &Block) -> (r: (
        Vec<Block>,
        Block,
    ))
        requires
            self.wf(),
            forall|i: int|
                0 <= i < blocks@.len() ==> (#[trigger] blocks@[i]).value <= blocks@[i].degree
                    && blocks@[i].degree <= 2 * (self.message_modulus - 1),
            carry_in.value <= carry_in.degree,
            carry_in.degree <= 1,
        ensures
            r.0@.len() == blocks@.len(),
            forall|i: int|
                0 <= i < r.0@.len() ==> self.radix_block_wf(#[trigger] r.0@[i]) && self.block_clean(
                    r.0@[i],
                ),
            radix_eval(r.0@, self.message_modulus as int) + pow(
                self.message_modulus as int,
                blocks@.len(),
            ) * r.1.value == radix_eval(blocks@, self.message_modulus as int) + carry_in.value,
            r.1.value <= r.1.degree,
            r.1.degree <= 1,
    {
        let m = self.message_modulus;
        let ghost base = m as int;
        let n = blocks.len();
        if n == 0 {
            proof {
                vstd::arithmetic::power::lemma_pow0(base);
            }
            return (Vec::new(), *carry_in);
        }
        // Inject the external carry into the first block.
        let mut work = crate::radix::copy_blocks(blocks);
        let mut first = work[0];
        self.unchecked_add_assign(&mut first, carry_in);
        work.set(0, first);
        let ghost wseq = work@;
        proof {
            assert(wseq.drop_first() =~= blocks@.drop_first());
        }
        // One bootstrapped lookup per block: the carry states.
        let mut states: Vec<Block> = Vec::new();
        let mut i: usize = 0;
        while i < n
            invariant
                self.wf(),
                m == self.message_modulus,
                base == m as int,
                n == work@.len(),
                wseq == work@,
                i <= n,
                states@.len() == i,
                forall|j: int|
                    0 <= j < n ==> (#[trigger] wseq[j]).value <= wseq[j].degree && wseq[j].degree
                        <= 2 * m - 1,
                forall|j: int|
                    0 <= j < i ==> (#[trigger] states@[j]).value == base_state(wseq, base, j)
                        && states@[j].value <= 2,
            decreases n - i,
        {
            let b = work[i];
            states.push(self.compute_prefix_state(&b, i == 0));
            i = i + 1;
        }
        // Stride-doubling rounds: after a round of stride s, the state
        // at each index covers a window of span 2 * s.
        let mut s: usize = 1;
        while s < n
            invariant
                self.wf(),
                m == self.message_modulus,
                base == m as int,
                n == work@.len(),
                wseq == work@,
                1 <= s,
                states@.len() == n,
                forall|j: int|
                    0 <= j < n ==> (#[trigger] states@[j]).value == window_state(
                        wseq,
                        base,
                        window_lo(j, s as int),
                        j,
                    ) && states@[j].value <= 2,
            decreases n - s,
        {
            let next = crate::parallel::par_combine_lanes(self, &states, s);
            proof {
                assert forall|j: int|
                    0 <= j < n implies (#[trigger] next@[j]).value == window_state(
                        wseq,
                        base,
                        window_lo(j, 2 * (s as int)),
                        j,
                    ) && next@[j].value <= 2 by {
                    assert(states@[j].value == window_state(wseq, base, window_lo(j, s as int), j));
                    if j >= s as int {
                        assert(states@[j - s as int].value == window_state(
                            wseq,
                            base,
                            window_lo(j - s as int, s as int),
                            j - s as int,
                        ));
                        lemma_window_split(wseq, base, window_lo(j, 2 * (s as int)), j - s as int, j);
                    }
                }
            }
            states = next;
            let ghost old_s = s as int;
            if n - s <= s {
                s = n;
            } else {
                s = s + s;
            }
            proof {
                assert forall|j: int| 0 <= j < n implies window_lo(j, 2 * old_s) == window_lo(
                    j,
                    s as int,
                ) by {}
            }
        }
        // Resolve: add each block's incoming carry and extract cleanly.
        let mut out: Vec<Block> = Vec::new();
        let mut i: usize = 0;
        while i < n
            invariant
                self.wf(),
                m == self.message_modulus,
                base == m as int,
                n == work@.len(),
                wseq == work@,
                n >= 1,
                s >= n,
                i <= n,
                out@.len() == i,
                states@.len() == n,
                forall|j: int|
                    0 <= j < n ==> (#[trigger] wseq[j]).value <= wseq[j].degree && wseq[j].degree
                        <= 2 * m - 1,
                forall|j: int|
                    1 <= j < n ==> (#[trigger] wseq[j]).value <= 2 * m - 2 && wseq[j].degree <= 2
                        * m - 2,
                forall|j: int|
                    0 <= j < n ==> (#[trigger] states@[j]).value == window_state(
                        wseq,
                        base,
                        window_lo(j, s as int),
                        j,
                    ),
                forall|j: int|
                    0 <= j < i ==> (#[trigger] out@[j]).value == (wseq[j].value + chain_carry(
                        wseq,
                        base,
                        0,
                        j,
                    )) % base && self.radix_block_wf(out@[j]) && self.block_clean(out@[j]),
            decreases n - i,
        {
            let mut acc = work[i];
            if i >= 1 {
                let st = states[i - 1];
                let cb = self.state_to_carry(&st);
                proof {
                    lemma_window_is_chain(wseq, base, i - 1);
                }
                self.unchecked_add_assign(&mut acc, &cb);
            } else {
                proof {
                    assert(chain_carry(wseq, base, 0, 0) == 0);
                }
            }
            out.push(self.message_extract(&acc));
            i = i + 1;
        }
        let last = states[n - 1];
        proof {
            lemma_window_is_chain(wseq, base, n as int - 1);
        }
        let cout = self.state_to_carry(&last);
        proof {
            assert forall|j: int| 0 <= j < n implies chain_carry(wseq, base, 0, j) >= 0 by {
                if j >= 1 {
                    lemma_window_is_chain(wseq, base, j - 1);
                }
            }
            lemma_chain_eval(wseq, out@, base, 0);
            assert(radix_eval(wseq, base) == radix_eval(blocks@, base) + carry_in.value) by {
                assert(wseq.drop_first() =~= blocks@.drop_first());
            }
        }
        (out, cout)
    }
}

/// Propagation is deterministic in value: two clean ciphertexts of the
/// same width whose value-plus-carry decompositions agree block for
/// block must be the same digits and the same carry.  This is why the
/// sequential chain and the parallel-prefix scan, which both satisfy the
/// decomposition contract, decrypt identically.
pub proof fn lemma_propagation_deterministic(
    sk: ServerKey,
    r1: Seq<Block>,
    c1: int,
    r2: Seq<Block>,
    c2: int,
    total: int,
)
    requires
        sk.wf(),
        r1.len() == r2.len(),
        forall|i: int| 0 <= i < r1.len() ==> (#[trigger] r1[i]).value < sk.message_modulus,
        forall|i: int| 0 <= i < r2.len() ==> (#[trigger] r2[i]).value < sk.message_modulus,
        0 <= c1,
        0 <= c2,
        radix_eval(r1, sk.message_modulus as int) + pow(sk.message_modulus as int, r1.len()) * c1
            == total,
        radix_eval(r2, sk.message_modulus as int) + pow(sk.message_modulus as int, r2.len()) * c2
            == total,
    ensures
        forall|i: int| 0 <= i < r1.len() ==> (#[trigger] r1[i]).value == r2[i].value,
        c1 == c2,
{
    let base = sk.message_modulus as int;
    let p = pow(base, r1.len());
    lemma_eval_bounds(r1, base);
    lemma_eval_bounds(r2, base);
    vstd::arithmetic::power::lemma_pow_positive(base, r1.len());
    vstd::arithmetic::mul::lemma_mul_is_commutative(p, c1);
    vstd::arithmetic::mul::lemma_mul_is_commutative(p, c2);
    lemma_fundamental_div_mod_converse(total, p, c1, radix_eval(r1, base));
    lemma_fundamental_div_mod_converse(total, p, c2, radix_eval(r2, base));
    lemma_eval_injective(r1, r2, base);
}

} // verus!
