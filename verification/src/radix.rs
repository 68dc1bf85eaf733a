//! Radix ciphertexts: ordered sequences of blocks, least significant
//! first, together with the integer they represent and the lemmas the
//! composition algorithms need about that representation.

use vstd::arithmetic::div_mod::lemma_fundamental_div_mod_converse;
use vstd::arithmetic::power::pow;
use vstd::prelude::*;

use crate::block::Block;
use crate::server_key::ServerKey;

verus! {

/// An encrypted integer: blocks in little-endian digit order, all sharing
/// the server key's moduli.
#[derive(Clone, Debug)]
pub struct RadixCiphertext {
    pub blocks: Vec<Block>,
}

/// Copies a radix ciphertext, block for block.
pub fn clone_radix(ct: &RadixCiphertext) -> (r: RadixCiphertext)
    ensures
        r.blocks@ == ct.blocks@,
{
    RadixCiphertext { blocks: copy_blocks(&ct.blocks) }
}

/// Copies a list of radix ciphertexts.
pub fn clone_terms(terms: &Vec<RadixCiphertext>) -> (r: Vec<RadixCiphertext>)
    ensures
        r@.len() == terms@.len(),
        forall|i: int| 0 <= i < r@.len() ==> (#[trigger] r@[i]).blocks@ == terms@[i].blocks@,
{
    let n = terms.len();
    let mut r: Vec<RadixCiphertext> = Vec::new();
    let mut i: usize = 0;
    while i < n
        invariant
            i <= n,
            n == terms@.len(),
            r@.len() == i,
            forall|j: int| 0 <= j < i ==> (#[trigger] r@[j]).blocks@ == terms@[j].blocks@,
        decreases n - i,
    {
        r.push(clone_radix(&terms[i]));
        i = i + 1;
    }
    r
}

/// Ciphertexts made of the same blocks agree in every property the
/// specifications read off a ciphertext.
pub proof fn lemma_same_blocks_same_radix(sk: ServerKey, a: RadixCiphertext, b: RadixCiphertext)
    requires
        a.blocks@ == b.blocks@,
    ensures
        sk.radix_wf(a) == sk.radix_wf(b),
        sk.radix_clean(a) == sk.radix_clean(b),
        sk.radix_value(a) == sk.radix_value(b),
{
    if sk.radix_wf(a) {
        assert forall|i: int| 0 <= i < b.blocks@.len() implies sk.radix_block_wf(
            #[trigger] b.blocks@[i],
        ) by {
            assert(sk.radix_block_wf(a.blocks@[i]));
        }
    }
    if sk.radix_wf(b) {
        assert forall|i: int| 0 <= i < a.blocks@.len() implies sk.radix_block_wf(
            #[trigger] a.blocks@[i],
        ) by {
            assert(sk.radix_block_wf(b.blocks@[i]));
        }
    }
    if sk.radix_clean(a) {
        assert forall|i: int| 0 <= i < b.blocks@.len() implies sk.block_clean(
            #[trigger] b.blocks@[i],
        ) by {
            assert(sk.block_clean(a.blocks@[i]));
        }
    }
    if sk.radix_clean(b) {
        assert forall|i: int| 0 <= i < a.blocks@.len() implies sk.block_clean(
            #[trigger] a.blocks@[i],
        ) by {
            assert(sk.block_clean(b.blocks@[i]));
        }
    }
}

/// The integer a sequence of blocks represents before any reduction:
/// the sum of each block's plaintext weighted by `base` to its position.
pub open spec fn radix_eval(blocks: Seq<Block>, base: int) -> int
    decreases blocks.len(),
{
    if blocks.len() == 0 {
        0
    } else {
        blocks[0].value + base * radix_eval(blocks.drop_first(), base)
    }
}

impl ServerKey {
    /// A block as it may appear inside a radix ciphertext: well formed,
    /// with enough headroom left to absorb one propagated carry.
    pub open spec fn radix_block_wf(self, b: Block) -> bool {
        b.value <= b.degree && b.degree <= self.max_degree()
    }

    /// Every block of the ciphertext is a valid radix block.
    pub open spec fn radix_wf(self, ct: RadixCiphertext) -> bool {
        forall|i: int|
            0 <= i < ct.blocks@.len() ==> self.radix_block_wf(#[trigger] ct.blocks@[i])
    }

    /// The ciphertext is clean: every block's degree fits its message
    /// space, so each digit can be used independently.
    pub open spec fn radix_clean(self, ct: RadixCiphertext) -> bool {
        forall|i: int|
            0 <= i < ct.blocks@.len() ==> self.block_clean(#[trigger] ct.blocks@[i])
    }

    /// The integer this ciphertext represents, before reduction modulo
    /// its capacity.
    pub open spec fn radix_value(self, ct: RadixCiphertext) -> int {
        radix_eval(ct.blocks@, self.message_modulus as int)
    }

    /// How many integers a ciphertext of `n` blocks can represent.
    pub open spec fn radix_capacity(self, n: nat) -> int {
        pow(self.message_modulus as int, n)
    }

    /// Whether every block's carry space is empty, decided from the
    /// cleartext degrees alone.
    pub fn block_carries_are_empty(&self, ct: &RadixCiphertext) -> (r: bool)
        requires
            self.wf(),
        ensures
            r == self.radix_clean(*ct),
    {
        let n = ct.blocks.len();
        let mut i: usize = 0;
        while i < n
            invariant
                i <= n,
                n == ct.blocks@.len(),
                forall|j: int| 0 <= j < i ==> self.block_clean(#[trigger] ct.blocks@[j]),
            decreases n - i,
        {
            if ct.blocks[i].degree >= self.message_modulus {
                return false;
            }
            i = i + 1;
        }
        true
    }

    /// Builds the clean ciphertext of a public value: the base-`message_modulus`
    /// digits of `value`, each in a trivial block.
    pub fn create_trivial_radix(&self, value: u64, num_blocks: usize) -> (r: RadixCiphertext)
        requires
            self.wf(),
        ensures
            r.blocks@.len() == num_blocks,
            self.radix_wf(r),
            self.radix_clean(r),
            self.radix_value(r) == value as int % self.radix_capacity(num_blocks as nat),
    {
        let m = self.message_modulus;
        let ghost base = m as int;
        let mut blocks: Vec<Block> = Vec::new();
        let mut rem: u64 = value;
        let mut i: usize = 0;
        proof {
            vstd::arithmetic::power::lemma_pow0(base);
        }
        while i < num_blocks
            invariant
                self.wf(),
                i <= num_blocks,
                m == self.message_modulus,
                base == m as int,
                blocks@.len() == i,
                forall|j: int|
                    0 <= j < i
                        ==> (#[trigger] blocks@[j]).value < m && blocks@[j].degree == blocks@[j].value,
                radix_eval(blocks@, base) + pow(base, i as nat) * rem == value,
                radix_eval(blocks@, base) >= 0,
            decreases num_blocks - i,
        {
            let digit = rem % m;
            let ghost old_blocks = blocks@;
            let ghost old_rem = rem as int;
            rem = rem / m;
            blocks.push(Block { value: digit, degree: digit });
            proof {
                let p = pow(base, i as nat);
                let q = old_rem / base;
                vstd::arithmetic::power::lemma_pow_positive(base, i as nat);
                lemma_eval_push(old_blocks, Block { value: digit, degree: digit }, base);
                vstd::arithmetic::div_mod::lemma_fundamental_div_mod(old_rem, base);
                assert(pow(base, (i + 1) as nat) == base * p) by {
                    vstd::arithmetic::power::lemma_pow_adds(base, 1, i as nat);
                    vstd::arithmetic::power::lemma_pow1(base);
                }
                // old_rem == base * q + digit, so distributing the weight p
                // over that split keeps the running total unchanged.
                assert(p * old_rem == p * digit + (base * p) * q) by (nonlinear_arith)
                    requires
                        old_rem == base * q + (digit as int);
            }
            i = i + 1;
        }
        let r = RadixCiphertext { blocks };
        proof {
            lemma_eval_bounds(r.blocks@, base);
            vstd::arithmetic::power::lemma_pow_positive(base, num_blocks as nat);
            vstd::arithmetic::mul::lemma_mul_is_commutative(
                pow(base, num_blocks as nat),
                rem as int,
            );
            lemma_fundamental_div_mod_converse(
                value as int,
                self.radix_capacity(num_blocks as nat),
                rem as int,
                self.radix_value(r),
            );
        }
        r
    }

    /// Reads the integer a clean ciphertext represents.  Every block in
    /// this model is a trivial encryption, so the server can open it.
    pub fn decrypt_trivial_radix(&self, ct: &RadixCiphertext) -> (r: u64)
        requires
            self.wf(),
            self.radix_wf(*ct),
            self.radix_clean(*ct),
            self.radix_capacity(ct.blocks@.len() as nat) <= u64::MAX + 1,
        ensures
            r == self.radix_value(*ct),
    {
        let m = self.message_modulus;
        let ghost base = m as int;
        let n = ct.blocks.len();
        let mut acc: u64 = 0;
        let mut p: u64 = 1;
        let mut i: usize = 0;
        proof {
            vstd::arithmetic::power::lemma_pow0(base);
            assert(ct.blocks@.take(0) =~= Seq::<Block>::empty());
        }
        while i < n
            invariant
                self.wf(),
                self.radix_wf(*ct),
                self.radix_clean(*ct),
                i <= n,
                n == ct.blocks@.len(),
                m == self.message_modulus,
                base == m as int,
                pow(base, n as nat) <= u64::MAX + 1,
                acc == radix_eval(ct.blocks@.take(i as int), base),
                i < n ==> p == pow(base, i as nat),
                0 <= acc,
            decreases n - i,
        {
            let v = ct.blocks[i].value;
            proof {
                let taken = ct.blocks@.take(i as int);
                assert(forall|j: int| 0 <= j < taken.len() ==> (#[trigger] taken[j]).value < base);
                lemma_eval_bounds(taken, base);
                lemma_eval_push(taken, ct.blocks@[i as int], base);
                assert(ct.blocks@.take(i as int + 1) =~= taken.push(ct.blocks@[i as int]));
                assert(pow(base, (i + 1) as nat) == base * pow(base, i as nat)) by {
                    vstd::arithmetic::power::lemma_pow_adds(base, 1, i as nat);
                    vstd::arithmetic::power::lemma_pow1(base);
                }
                // acc + v * p stays below base^(i+1) <= base^n.
                assert(acc + v * p < base * pow(base, i as nat)) by (nonlinear_arith)
                    requires
                        acc < pow(base, i as nat),
                        0 <= acc,
                        0 <= v < base,
                        p == pow(base, i as nat),
                        p >= 1;
                vstd::arithmetic::power::lemma_pow_increases(m as nat, (i + 1) as nat, n as nat);
                vstd::arithmetic::power::lemma_pow_positive(base, i as nat);
            }
            acc = acc + v * p;
            if i + 1 < n {
                proof {
                    vstd::arithmetic::power::lemma_pow_strictly_increases(
                        m as nat,
                        (i + 1) as nat,
                        n as nat,
                    );
                    assert(pow(base, (i + 1) as nat) == pow(base, i as nat) * base) by {
                        vstd::arithmetic::power::lemma_pow_adds(base, i as nat, 1);
                        vstd::arithmetic::power::lemma_pow1(base);
                    }
                    vstd::arithmetic::power::lemma_pow_positive(base, (i + 1) as nat);
                }
                p = p * m;
            }
            i = i + 1;
        }
        proof {
            assert(ct.blocks@.take(n as int) =~= ct.blocks@);
        }
        acc
    }
}

/// Copies a block vector.  Blocks are plain values, so this is the
/// ciphertext clone the algorithms use before transforming blocks.
pub fn copy_blocks(v: &Vec<Block>) -> (r: Vec<Block>)
    ensures
        r@ == v@,
{
    let n = v.len();
    let mut r: Vec<Block> = Vec::new();
    let mut i: usize = 0;
    while i < n
        invariant
            i <= n,
            n == v@.len(),
            r@ == v@.take(i as int),
        decreases n - i,
    {
        r.push(v[i]);
        proof {
            assert(v@.take(i + 1) =~= v@.take(i as int).push(v@[i as int]));
        }
        i = i + 1;
    }
    proof {
        assert(v@.take(n as int) =~= v@);
    }
    r
}

/// Appending a block adds its plaintext at the next positional weight.
pub proof fn lemma_eval_push(blocks: Seq<Block>, b: Block, base: int)
    ensures
        radix_eval(blocks.push(b), base) == radix_eval(blocks, base) + pow(
            base,
            blocks.len(),
        ) * b.value,
    decreases blocks.len(),
{
    if blocks.len() == 0 {
        assert(blocks.push(b).drop_first() =~= Seq::<Block>::empty());
        vstd::arithmetic::power::lemma_pow0(base);
        assert(radix_eval(blocks.push(b).drop_first(), base) == 0);
        assert(radix_eval(blocks.push(b), base) == b.value + base * 0);
    } else {
        assert(blocks.push(b).drop_first() =~= blocks.drop_first().push(b));
        lemma_eval_push(blocks.drop_first(), b, base);
        let e = radix_eval(blocks.drop_first(), base);
        let p = pow(base, (blocks.len() - 1) as nat);
        assert(pow(base, blocks.len()) == base * p) by {
            vstd::arithmetic::power::lemma_pow_adds(base, 1, (blocks.len() - 1) as nat);
            vstd::arithmetic::power::lemma_pow1(base);
        }
        assert(radix_eval(blocks.push(b), base) == blocks[0].value + base * (e + p * b.value));
        assert(base * (e + p * b.value) == base * e + (base * p) * b.value) by (nonlinear_arith);
    }
}

/// Blocks whose values stay under `base` represent an integer under
/// `base^len`.
pub proof fn lemma_eval_bounds(blocks: Seq<Block>, base: int)
    requires
        base >= 1,
        forall|i: int| 0 <= i < blocks.len() ==> (#[trigger] blocks[i]).value < base,
    ensures
        0 <= radix_eval(blocks, base),
        radix_eval(blocks, base) < pow(base, blocks.len()),
    decreases blocks.len(),
{
    if blocks.len() == 0 {
        vstd::arithmetic::power::lemma_pow0(base);
    } else {
        lemma_eval_bounds(blocks.drop_first(), base);
        let e = radix_eval(blocks.drop_first(), base);
        let p = pow(base, (blocks.len() - 1) as nat);
        assert(blocks[0].value + base * e < base * p) by (nonlinear_arith)
            requires
                0 <= e,
                e < p,
                0 <= blocks[0].value,
                blocks[0].value < base;
        assert(pow(base, blocks.len()) == base * p) by {
            vstd::arithmetic::power::lemma_pow_adds(base, 1, (blocks.len() - 1) as nat);
            vstd::arithmetic::power::lemma_pow1(base);
        }
        vstd::arithmetic::mul::lemma_mul_nonnegative(base, e);
    }
}

/// Two sequences of digits in the same base represent the same integer
/// only if they agree digit by digit.
pub proof fn lemma_eval_injective(b1: Seq<Block>, b2: Seq<Block>, base: int)
    requires
        base >= 1,
        b1.len() == b2.len(),
        forall|i: int| 0 <= i < b1.len() ==> (#[trigger] b1[i]).value < base,
        forall|i: int| 0 <= i < b2.len() ==> (#[trigger] b2[i]).value < base,
        radix_eval(b1, base) == radix_eval(b2, base),
    ensures
        forall|i: int| 0 <= i < b1.len() ==> (#[trigger] b1[i]).value == b2[i].value,
    decreases b1.len(),
{
    if b1.len() > 0 {
        let e1 = radix_eval(b1.drop_first(), base);
        let e2 = radix_eval(b2.drop_first(), base);
        lemma_eval_bounds(b1.drop_first(), base);
        lemma_eval_bounds(b2.drop_first(), base);
        vstd::arithmetic::mul::lemma_mul_is_commutative(base, e1);
        vstd::arithmetic::mul::lemma_mul_is_commutative(base, e2);
        lemma_fundamental_div_mod_converse(radix_eval(b1, base), base, e1, b1[0].value as int);
        lemma_fundamental_div_mod_converse(radix_eval(b2, base), base, e2, b2[0].value as int);
        lemma_eval_injective(b1.drop_first(), b2.drop_first(), base);
        assert(forall|i: int|
            1 <= i < b1.len() ==> (#[trigger] b1[i]).value == b1.drop_first()[i - 1].value
                && b2[i].value == b2.drop_first()[i - 1].value);
    }
}

/// The representation depends only on the block values, not the degrees.
pub proof fn lemma_eval_values_eq(b1: Seq<Block>, b2: Seq<Block>, base: int)
    requires
        b1.len() == b2.len(),
        forall|i: int| 0 <= i < b1.len() ==> (#[trigger] b1[i]).value == b2[i].value,
    ensures
        radix_eval(b1, base) == radix_eval(b2, base),
    decreases b1.len(),
{
    if b1.len() > 0 {
        lemma_eval_values_eq(b1.drop_first(), b2.drop_first(), base);
    }
}

} // verus!
