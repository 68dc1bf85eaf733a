//! Radix arithmetic built on the propagator: block-wise addition, the
//! overflow-reporting add and subtract, comparison and selection.  Every
//! operation is specified by the integer its result represents.

use vstd::arithmetic::div_mod::lemma_fundamental_div_mod_converse;
use vstd::arithmetic::mul::lemma_mul_is_distributive_add;
use vstd::arithmetic::power::pow;
use vstd::prelude::*;

use crate::block::Block;
use crate::block::BooleanBlock;
use crate::radix::lemma_eval_bounds;
use crate::radix::lemma_eval_push;
use crate::radix::lemma_eval_values_eq;
use crate::radix::radix_eval;
use crate::radix::RadixCiphertext;
use crate::server_key::ServerKey;

verus! {

/// Adding sequences block by block adds the integers they represent.
pub proof fn lemma_eval_add(x: Seq<Block>, y: Seq<Block>, z: Seq<Block>, base: int)
    requires
        x.len() == y.len(),
        z.len() == x.len(),
        forall|i: int| 0 <= i < z.len() ==> (#[trigger] z[i]).value == x[i].value + y[i].value,
    ensures
        radix_eval(z, base) == radix_eval(x, base) + radix_eval(y, base),
    decreases x.len(),
{
    if x.len() > 0 {
        lemma_eval_add(x.drop_first(), y.drop_first(), z.drop_first(), base);
        lemma_mul_is_distributive_add(
            base,
            radix_eval(x.drop_first(), base),
            radix_eval(y.drop_first(), base),
        );
    }
}

/// Complementing every digit complements the represented integer with
/// respect to the ciphertext capacity.
pub proof fn lemma_eval_complement(x: Seq<Block>, z: Seq<Block>, base: int)
    requires
        z.len() == x.len(),
        forall|i: int| 0 <= i < z.len() ==> (#[trigger] z[i]).value == base - 1 - x[i].value,
    ensures
        radix_eval(z, base) == pow(base, x.len()) - 1 - radix_eval(x, base),
    decreases x.len(),
{
    if x.len() == 0 {
        vstd::arithmetic::power::lemma_pow0(base);
    } else {
        lemma_eval_complement(x.drop_first(), z.drop_first(), base);
        let p = pow(base, (x.len() - 1) as nat);
        let e = radix_eval(x.drop_first(), base);
        assert(pow(base, x.len()) == base * p) by {
            vstd::arithmetic::power::lemma_pow_adds(base, 1, (x.len() - 1) as nat);
            vstd::arithmetic::power::lemma_pow1(base);
        }
        assert(base * (p - 1 - e) == base * p - base - base * e) by (nonlinear_arith);
    }
}

/// All-zero digits represent zero.
pub proof fn lemma_eval_zero(z: Seq<Block>, base: int)
    requires
        forall|i: int| 0 <= i < z.len() ==> (#[trigger] z[i]).value == 0,
    ensures
        radix_eval(z, base) == 0,
    decreases z.len(),
{
    if z.len() > 0 {
        lemma_eval_zero(z.drop_first(), base);
    }
}

impl ServerKey {
    /// Block-wise addition of two clean ciphertexts of the same width.
    /// Cheap (no bootstrap), but the result is dirty: every block may
    /// hold one unpropagated carry.
    pub fn unchecked_add(&self, a: &RadixCiphertext, b: &RadixCiphertext) -> (r: RadixCiphertext)
        requires
            self.wf(),
            self.radix_wf(*a),
            self.radix_wf(*b),
            self.radix_clean(*a),
            self.radix_clean(*b),
            a.blocks@.len() == b.blocks@.len(),
        ensures
            r.blocks@.len() == a.blocks@.len(),
            self.radix_wf(r),
            forall|i: int|
                0 <= i < r.blocks@.len() ==> (#[trigger] r.blocks@[i]).value <= r.blocks@[i].degree
                    && r.blocks@[i].degree <= 2 * (self.message_modulus - 1),
            self.radix_value(r) == self.radix_value(*a) + self.radix_value(*b),
    {
        let ghost base = self.message_modulus as int;
        let n = a.blocks.len();
        let mut blocks: Vec<Block> = Vec::new();
        let mut i: usize = 0;
        while i < n
            invariant
                self.wf(),
                base == self.message_modulus as int,
                self.radix_wf(*a),
                self.radix_wf(*b),
                self.radix_clean(*a),
                self.radix_clean(*b),
                n == a.blocks@.len(),
                n == b.blocks@.len(),
                i <= n,
                blocks@.len() == i,
                forall|j: int|
                    0 <= j < i ==> (#[trigger] blocks@[j]).value == a.blocks@[j].value
                        + b.blocks@[j].value && blocks@[j].degree == a.blocks@[j].degree
                        + b.blocks@[j].degree,
            decreases n - i,
        {
            let mut acc = a.blocks[i];
            self.unchecked_add_assign(&mut acc, &b.blocks[i]);
            blocks.push(acc);
            i = i + 1;
        }
        let r = RadixCiphertext { blocks };
        proof {
            lemma_eval_add(a.blocks@, b.blocks@, r.blocks@, base);
        }
        r
    }

    /// Clean addition: block-wise add, then parallel-prefix propagation.
    /// The carry out of the last block is discarded, so the result is
    /// the sum reduced modulo the ciphertext capacity.
    pub fn add_parallelized(&self, a: &RadixCiphertext, b: &RadixCiphertext) -> (r:
        RadixCiphertext)
        requires
            self.wf(),
            self.radix_wf(*a),
            self.radix_wf(*b),
            self.radix_clean(*a),
            self.radix_clean(*b),
            a.blocks@.len() == b.blocks@.len(),
        ensures
            r.blocks@.len() == a.blocks@.len(),
            self.radix_wf(r),
            self.radix_clean(r),
            self.radix_value(r) == (self.radix_value(*a) + self.radix_value(*b))
                % self.radix_capacity(a.blocks@.len() as nat),
    {
        let (r, _) = self.unsigned_overflowing_add_parallelized(a, b);
        r
    }

    /// Addition that also reports whether the true sum exceeded the
    /// ciphertext capacity: the flag is the carry out of the last block.
    pub fn unsigned_overflowing_add_parallelized(
        &self,
        a: &RadixCiphertext,
        b: &RadixCiphertext,
    ) -> (r: (RadixCiphertext, BooleanBlock))
        requires
            self.wf(),
            self.radix_wf(*a),
            self.radix_wf(*b),
            self.radix_clean(*a),
            self.radix_clean(*b),
            a.blocks@.len() == b.blocks@.len(),
        ensures
            r.0.blocks@.len() == a.blocks@.len(),
            self.radix_wf(r.0),
            self.radix_clean(r.0),
            r.1.wf(),
            self.radix_value(r.0) + self.radix_capacity(a.blocks@.len() as nat) * r.1.spec_value()
                == self.radix_value(*a) + self.radix_value(*b),
            self.radix_value(r.0) == (self.radix_value(*a) + self.radix_value(*b))
                % self.radix_capacity(a.blocks@.len() as nat),
            r.1.spec_value() == 1 <==> self.radix_value(*a) + self.radix_value(*b)
                >= self.radix_capacity(a.blocks@.len() as nat),
    {
        let ghost base = self.message_modulus as int;
        let ghost n = a.blocks@.len();
        let sum = self.unchecked_add(a, b);
        let zero = self.create_trivial(0);
        let (clean_blocks, carry_out) = self.propagate_carry_prefix(&sum.blocks, &zero);
        let result = RadixCiphertext { blocks: clean_blocks };
        let flag = BooleanBlock::new_unchecked(carry_out);
        proof {
            let cap = pow(base, n);
            let e = radix_eval(result.blocks@, base);
            lemma_eval_bounds(result.blocks@, base);
            vstd::arithmetic::power::lemma_pow_positive(base, n);
            vstd::arithmetic::mul::lemma_mul_is_commutative(cap, carry_out.value as int);
            lemma_fundamental_div_mod_converse(
                self.radix_value(*a) + self.radix_value(*b),
                cap,
                carry_out.value as int,
                e,
            );
        }
        (result, flag)
    }

    /// Subtraction that also reports whether it borrowed, by adding the
    /// digit-wise complement of the subtrahend with a carry in of one:
    /// the borrow is the missing carry out.
    pub fn unsigned_overflowing_sub_parallelized(
        &self,
        a: &RadixCiphertext,
        b: &RadixCiphertext,
    ) -> (r: (RadixCiphertext, BooleanBlock))
        requires
            self.wf(),
            self.radix_wf(*a),
            self.radix_wf(*b),
            self.radix_clean(*a),
            self.radix_clean(*b),
            a.blocks@.len() == b.blocks@.len(),
        ensures
            r.0.blocks@.len() == a.blocks@.len(),
            self.radix_wf(r.0),
            self.radix_clean(r.0),
            r.1.wf(),
            self.radix_value(r.0) == (self.radix_value(*a) - self.radix_value(*b))
                % self.radix_capacity(a.blocks@.len() as nat),
            r.1.spec_value() == 1 <==> self.radix_value(*a) < self.radix_value(*b),
    {
        let ghost base = self.message_modulus as int;
        let n = a.blocks.len();
        let mut work: Vec<Block> = Vec::new();
        let mut i: usize = 0;
        while i < n
            invariant
                self.wf(),
                base == self.message_modulus as int,
                self.radix_wf(*a),
                self.radix_wf(*b),
                self.radix_clean(*a),
                self.radix_clean(*b),
                n == a.blocks@.len(),
                n == b.blocks@.len(),
                i <= n,
                work@.len() == i,
                forall|j: int|
                    0 <= j < i ==> (#[trigger] work@[j]).value == a.blocks@[j].value + (base - 1
                        - b.blocks@[j].value) && work@[j].value <= work@[j].degree
                        && work@[j].degree <= 2 * (self.message_modulus - 1),
            decreases n - i,
        {
            let mut acc = a.blocks[i];
            let neg = self.block_neg_digit(&b.blocks[i]);
            self.unchecked_add_assign(&mut acc, &neg);
            work.push(acc);
            i = i + 1;
        }
        let one = self.create_trivial(1);
        let (clean_blocks, carry_out) = self.propagate_carry_prefix(&work, &one);
        let result = RadixCiphertext { blocks: clean_blocks };
        let borrow = self.boolean_not(&BooleanBlock::new_unchecked(carry_out));
        proof {
            let cap = pow(base, n as nat);
            let e = radix_eval(result.blocks@, base);
            let ea = self.radix_value(*a);
            let eb = self.radix_value(*b);
            // The work blocks are the block-wise sum of `a` and the
            // complement of `b`.
            assert(radix_eval(work@, base) == ea + (cap - 1) - eb) by {
                let compb = Seq::new(
                    n as nat,
                    |j: int| Block { value: (base - 1 - b.blocks@[j].value) as u64, degree: 0 },
                );
                lemma_eval_complement(b.blocks@, compb, base);
                lemma_eval_add(a.blocks@, compb, work@, base);
            }
            lemma_eval_bounds(result.blocks@, base);
            vstd::arithmetic::power::lemma_pow_positive(base, n as nat);
            // result + cap * carry == a - b + cap.
            let cv = carry_out.value as int;
            assert(e + cap * cv == (ea - eb) + cap);
            if carry_out.value == 1 {
                assert(cap * cv == cap) by (nonlinear_arith)
                    requires
                        cv == 1;
                lemma_fundamental_div_mod_converse(ea - eb, cap, 0, e);
            } else {
                assert(cap * cv == 0) by (nonlinear_arith)
                    requires
                        cv == 0;
                lemma_fundamental_div_mod_converse(ea - eb, cap, -1, e);
            }
        }
        (result, borrow)
    }

    /// Clean wrapping subtraction.
    pub fn sub_parallelized(&self, a: &RadixCiphertext, b: &RadixCiphertext) -> (r:
        RadixCiphertext)
        requires
            self.wf(),
            self.radix_wf(*a),
            self.radix_wf(*b),
            self.radix_clean(*a),
            self.radix_clean(*b),
            a.blocks@.len() == b.blocks@.len(),
        ensures
            r.blocks@.len() == a.blocks@.len(),
            self.radix_wf(r),
            self.radix_clean(r),
            self.radix_value(r) == (self.radix_value(*a) - self.radix_value(*b))
                % self.radix_capacity(a.blocks@.len() as nat),
    {
        let (r, _) = self.unsigned_overflowing_sub_parallelized(a, b);
        r
    }

    /// Greater-or-equal, through the borrow of the subtraction: `a >= b`
    /// exactly when `a - b` does not borrow.
    pub fn ge_parallelized(&self, a: &RadixCiphertext, b: &RadixCiphertext) -> (r: BooleanBlock)
        requires
            self.wf(),
            self.radix_wf(*a),
            self.radix_wf(*b),
            self.radix_clean(*a),
            self.radix_clean(*b),
            a.blocks@.len() == b.blocks@.len(),
        ensures
            r.wf(),
            r.spec_value() == 1 <==> self.radix_value(*a) >= self.radix_value(*b),
    {
        let (_, borrow) = self.unsigned_overflowing_sub_parallelized(a, b);
        self.boolean_not(&borrow)
    }

    /// Selection by an encrypted boolean, one lookup per block.
    pub fn if_then_else_parallelized(
        &self,
        cond: &BooleanBlock,
        a: &RadixCiphertext,
        b: &RadixCiphertext,
    ) -> (r: RadixCiphertext)
        requires
            self.wf(),
            cond.wf(),
            self.radix_wf(*a),
            self.radix_wf(*b),
            self.radix_clean(*a),
            self.radix_clean(*b),
            a.blocks@.len() == b.blocks@.len(),
        ensures
            r.blocks@.len() == a.blocks@.len(),
            self.radix_wf(r),
            self.radix_clean(r),
            self.radix_value(r) == if cond.spec_value() == 1 {
                self.radix_value(*a)
            } else {
                self.radix_value(*b)
            },
    {
        let ghost base = self.message_modulus as int;
        let n = a.blocks.len();
        let mut blocks: Vec<Block> = Vec::new();
        let mut i: usize = 0;
        while i < n
            invariant
                self.wf(),
                cond.wf(),
                base == self.message_modulus as int,
                self.radix_wf(*a),
                self.radix_wf(*b),
                self.radix_clean(*a),
                self.radix_clean(*b),
                n == a.blocks@.len(),
                n == b.blocks@.len(),
                i <= n,
                blocks@.len() == i,
                forall|j: int|
                    0 <= j < i ==> (#[trigger] blocks@[j]).value == (if cond.spec_value() == 1 {
                        a.blocks@[j].value
                    } else {
                        b.blocks@[j].value
                    }) && self.radix_block_wf(blocks@[j]) && self.block_clean(blocks@[j]),
            decreases n - i,
        {
            let picked = self.block_cmux(cond, &a.blocks[i], &b.blocks[i]);
            blocks.push(picked);
            i = i + 1;
        }
        let r = RadixCiphertext { blocks };
        proof {
            if cond.spec_value() == 1 {
                lemma_eval_values_eq(r.blocks@, a.blocks@, base);
            } else {
                lemma_eval_values_eq(r.blocks@, b.blocks@, base);
            }
        }
        r
    }

    /// Product with an encrypted boolean: the ciphertext itself or zero.
    pub fn zero_if_false_parallelized(&self, cond: &BooleanBlock, a: &RadixCiphertext) -> (r:
        RadixCiphertext)
        requires
            self.wf(),
            cond.wf(),
            self.radix_wf(*a),
            self.radix_clean(*a),
        ensures
            r.blocks@.len() == a.blocks@.len(),
            self.radix_wf(r),
            self.radix_clean(r),
            self.radix_value(r) == if cond.spec_value() == 1 {
                self.radix_value(*a)
            } else {
                0
            },
    {
        let ghost base = self.message_modulus as int;
        let n = a.blocks.len();
        let mut blocks: Vec<Block> = Vec::new();
        let mut i: usize = 0;
        while i < n
            invariant
                self.wf(),
                cond.wf(),
                base == self.message_modulus as int,
                self.radix_wf(*a),
                self.radix_clean(*a),
                n == a.blocks@.len(),
                i <= n,
                blocks@.len() == i,
                forall|j: int|
                    0 <= j < i ==> (#[trigger] blocks@[j]).value == (if cond.spec_value() == 1 {
                        a.blocks@[j].value
                    } else {
                        0u64
                    }) && self.radix_block_wf(blocks@[j]) && self.block_clean(blocks@[j]),
            decreases n - i,
        {
            let picked = self.block_zero_if_false(cond, &a.blocks[i]);
            blocks.push(picked);
            i = i + 1;
        }
        let r = RadixCiphertext { blocks };
        proof {
            if cond.spec_value() == 1 {
                lemma_eval_values_eq(r.blocks@, a.blocks@, base);
            } else {
                lemma_eval_zero(r.blocks@, base);
            }
        }
        r
    }

    /// Whether a clean ciphertext holds a value different from a public
    /// integer: one lookup per block against the matching digit of the
    /// scalar, folded by OR.  A scalar beyond the ciphertext capacity
    /// differs trivially.
    pub fn scalar_ne_parallelized(&self, ct: &RadixCiphertext, scalar: u64) -> (r: BooleanBlock)
        requires
            self.wf(),
            self.radix_wf(*ct),
            self.radix_clean(*ct),
        ensures
            r.wf(),
            r.spec_value() == 1 <==> self.radix_value(*ct) != scalar,
    {
        let m = self.message_modulus;
        let ghost base = m as int;
        let ghost sc = scalar as int;
        let n = ct.blocks.len();
        let mut acc = BooleanBlock::new_unchecked(self.create_trivial(0));
        let mut rem: u64 = scalar;
        let mut i: usize = 0;
        proof {
            vstd::arithmetic::power::lemma_pow0(base);
            vstd::arithmetic::div_mod::lemma_div_basics(sc);
            vstd::arithmetic::div_mod::lemma_mod_bound(sc, 1);
            assert(ct.blocks@.take(0) =~= Seq::<Block>::empty());
        }
        while i < n
            invariant
                self.wf(),
                m == self.message_modulus,
                base == m as int,
                sc == scalar as int,
                self.radix_wf(*ct),
                self.radix_clean(*ct),
                n == ct.blocks@.len(),
                i <= n,
                rem == sc / pow(base, i as nat),
                acc.wf(),
                acc.spec_value() == 1 <==> radix_eval(ct.blocks@.take(i as int), base) != sc % pow(
                    base,
                    i as nat,
                ),
            decreases n - i,
        {
            let d = rem % m;
            let neb = self.block_ne_scalar(&ct.blocks[i], d);
            let ne_bool = BooleanBlock::new_unchecked(neb);
            proof {
                let p = pow(base, i as nat);
                let pi1 = pow(base, (i + 1) as nat);
                let taken = ct.blocks@.take(i as int);
                let v = ct.blocks@[i as int].value as int;
                let low = sc % p;
                vstd::arithmetic::power::lemma_pow_positive(base, i as nat);
                assert(pi1 == p * base) by {
                    vstd::arithmetic::power::lemma_pow_adds(base, i as nat, 1);
                    vstd::arithmetic::power::lemma_pow1(base);
                }
                vstd::arithmetic::div_mod::lemma_breakdown(sc, p, base);
                // the scalar's digit at this position
                assert(sc % pi1 == p * (d as int) + low);
                lemma_eval_bounds(taken, base);
                lemma_eval_push(taken, ct.blocks@[i as int], base);
                assert(ct.blocks@.take(i as int + 1) =~= taken.push(ct.blocks@[i as int]));
                vstd::arithmetic::div_mod::lemma_mod_bound(sc, p);
                vstd::arithmetic::div_mod::lemma_mod_bound(rem as int, base);
                // Both sides decompose uniquely at weight p, so they are
                // equal exactly when digit and low part both agree.
                vstd::arithmetic::mul::lemma_mul_is_commutative(p, v);
                vstd::arithmetic::mul::lemma_mul_is_commutative(p, d as int);
                lemma_fundamental_div_mod_converse(
                    radix_eval(taken, base) + p * v,
                    p,
                    v,
                    radix_eval(taken, base),
                );
                lemma_fundamental_div_mod_converse(sc % pi1, p, d as int, low);
                // the remaining upper digits of the scalar
                vstd::arithmetic::div_mod::lemma_div_denominator(sc, p, base);
            }
            acc = self.boolean_bitor(&acc, &ne_bool);
            rem = rem / m;
            i = i + 1;
        }
        if rem > 0 {
            proof {
                let cap = pow(base, n as nat);
                vstd::arithmetic::power::lemma_pow_positive(base, n as nat);
                vstd::arithmetic::div_mod::lemma_fundamental_div_mod(sc, cap);
                vstd::arithmetic::div_mod::lemma_mod_bound(sc, cap);
                assert(cap * (sc / cap) >= cap) by (nonlinear_arith)
                    requires
                        sc / cap >= 1,
                        cap >= 1;
                lemma_eval_bounds(ct.blocks@, base);
            }
            BooleanBlock::new_unchecked(self.create_trivial(1))
        } else {
            proof {
                let cap = pow(base, n as nat);
                vstd::arithmetic::power::lemma_pow_positive(base, n as nat);
                vstd::arithmetic::div_mod::lemma_fundamental_div_mod(sc, cap);
                assert(cap * (sc / cap) == 0) by (nonlinear_arith)
                    requires
                        sc / cap == 0;
                assert(ct.blocks@.take(n as int) =~= ct.blocks@);
            }
            acc
        }
    }
}

} // verus!
