//! The column reducer and the multi-operand summation entry points.
//!
//! Summation partitions the terms' blocks into per-position columns,
//! repeatedly folds chunks of each column by plain addition followed by
//! one message/carry extraction pair (a carry-save reduction: only
//! additions that could overflow pay for a bootstrap), and finally folds
//! what remains into one dirty block per position.

use vstd::arithmetic::div_mod::lemma_fundamental_div_mod;
use vstd::arithmetic::power::pow;
use vstd::prelude::*;

use crate::block::Block;
use crate::block::BooleanBlock;
use crate::radix::radix_eval;
use crate::radix::RadixCiphertext;
use crate::server_key::ServerKey;

verus! {

/// The plaintext total held by one column of blocks.
pub open spec fn col_sum(s: Seq<Block>) -> int
    decreases s.len(),
{
    if s.len() == 0 {
        0
    } else {
        s[0].value + col_sum(s.drop_first())
    }
}

/// The degree total of one column of blocks.
pub open spec fn col_deg_sum(s: Seq<Block>) -> int
    decreases s.len(),
{
    if s.len() == 0 {
        0
    } else {
        s[0].degree + col_deg_sum(s.drop_first())
    }
}

/// The columns of a reduction state, as mathematical sequences.
pub open spec fn cols_seq(cols: Seq<Vec<Block>>) -> Seq<Seq<Block>> {
    cols.map_values(|c: Vec<Block>| c@)
}

/// The integer an entire column state represents: each column's total at
/// its positional weight.
pub open spec fn colsval(cols: Seq<Seq<Block>>, base: int) -> int
    decreases cols.len(),
{
    if cols.len() == 0 {
        0
    } else {
        col_sum(cols[0]) + base * colsval(cols.drop_first(), base)
    }
}

/// Termination measure of the reduction: blocks weighted by how far the
/// carries they may shed can still travel (`w` at the first column,
/// decreasing by one per position).
pub open spec fn wt_from(cols: Seq<Seq<Block>>, w: int) -> int
    decreases cols.len(),
{
    if cols.len() == 0 {
        0
    } else {
        w * cols[0].len() + wt_from(cols.drop_first(), w - 1)
    }
}

/// The `j`-th full chunk of a column being reduced with chunk size `k`.
pub open spec fn chunk_at(col: Seq<Block>, k: int, j: int) -> Seq<Block> {
    col.subrange(j * k, j * k + k)
}

/// The clean message block one chunk folds and extracts to.
pub open spec fn chunk_msg_block(sk: ServerKey, s: Seq<Block>) -> Block {
    Block {
        value: (col_sum(s) % sk.message_modulus as int) as u64,
        degree: (sk.message_modulus - 1) as u64,
    }
}

/// The clean carry block one chunk folds and extracts to.
pub open spec fn chunk_carry_block(sk: ServerKey, s: Seq<Block>) -> Block {
    Block {
        value: (col_sum(s) / sk.message_modulus as int) as u64,
        degree: (col_deg_sum(s) / sk.message_modulus as int) as u64,
    }
}

/// Total of the messages the first `j` chunks of a column extract.
pub open spec fn chunks_msg_total(col: Seq<Block>, k: int, base: int, j: int) -> int
    decreases j,
{
    if j <= 0 {
        0
    } else {
        chunks_msg_total(col, k, base, j - 1) + col_sum(chunk_at(col, k, j - 1)) % base
    }
}

/// Total of the carries the first `j` chunks of a column extract.
pub open spec fn chunks_carry_total(col: Seq<Block>, k: int, base: int, j: int) -> int
    decreases j,
{
    if j <= 0 {
        0
    } else {
        chunks_carry_total(col, k, base, j - 1) + col_sum(chunk_at(col, k, j - 1)) / base
    }
}

/// How many full chunks one round extracts over all columns.
pub open spec fn total_chunks(cols: Seq<Seq<Block>>, k: int) -> int
    decreases cols.len(),
{
    if cols.len() == 0 {
        0
    } else {
        cols[0].len() as int / k + total_chunks(cols.drop_first(), k)
    }
}

/// The integers a list of terms represents, added as unbounded integers.
pub open spec fn sum_values(sk: ServerKey, terms: Seq<RadixCiphertext>) -> int
    decreases terms.len(),
{
    if terms.len() == 0 {
        0
    } else {
        sk.radix_value(terms[0]) + sum_values(sk, terms.drop_first())
    }
}

/// The same sum restricted to each term's first `i` blocks.
pub open spec fn sum_prefix_values(sk: ServerKey, terms: Seq<RadixCiphertext>, i: int) -> int
    decreases terms.len(),
{
    if terms.len() == 0 {
        0
    } else {
        radix_eval(terms[0].blocks@.take(i), sk.message_modulus as int) + sum_prefix_values(
            sk,
            terms.drop_first(),
            i,
        )
    }
}

/// The plaintext total of the blocks at one position across all terms.
pub open spec fn col_total_at(terms: Seq<RadixCiphertext>, i: int) -> int
    decreases terms.len(),
{
    if terms.len() == 0 {
        0
    } else {
        terms[0].blocks@[i].value + col_total_at(terms.drop_first(), i)
    }
}

pub proof fn lemma_col_sum_nonneg(s: Seq<Block>)
    ensures
        col_sum(s) >= 0,
    decreases s.len(),
{
    if s.len() > 0 {
        lemma_col_sum_nonneg(s.drop_first());
    }
}

pub proof fn lemma_col_sum_push(s: Seq<Block>, b: Block)
    ensures
        col_sum(s.push(b)) == col_sum(s) + b.value,
        col_deg_sum(s.push(b)) == col_deg_sum(s) + b.degree,
    decreases s.len(),
{
    if s.len() == 0 {
        assert(s.push(b).drop_first() =~= Seq::<Block>::empty());
        assert(col_sum(s.push(b).drop_first()) == 0);
        assert(col_deg_sum(s.push(b).drop_first()) == 0);
    } else {
        assert(s.push(b).drop_first() =~= s.drop_first().push(b));
        lemma_col_sum_push(s.drop_first(), b);
    }
}

pub proof fn lemma_col_sum_concat(s: Seq<Block>, t: Seq<Block>)
    ensures
        col_sum(s + t) == col_sum(s) + col_sum(t),
    decreases s.len(),
{
    if s.len() == 0 {
        assert(s + t =~= t);
    } else {
        assert((s + t).drop_first() =~= s.drop_first() + t);
        lemma_col_sum_concat(s.drop_first(), t);
    }
}

pub proof fn lemma_colsval_push(cols: Seq<Seq<Block>>, c: Seq<Block>, base: int)
    ensures
        colsval(cols.push(c), base) == colsval(cols, base) + pow(base, cols.len()) * col_sum(c),
    decreases cols.len(),
{
    if cols.len() == 0 {
        assert(cols.push(c).drop_first() =~= Seq::<Seq<Block>>::empty());
        assert(colsval(cols.push(c).drop_first(), base) == 0);
        vstd::arithmetic::power::lemma_pow0(base);
    } else {
        assert(cols.push(c).drop_first() =~= cols.drop_first().push(c));
        lemma_colsval_push(cols.drop_first(), c, base);
        let e = colsval(cols.drop_first(), base);
        let p = pow(base, (cols.len() - 1) as nat);
        assert(pow(base, cols.len()) == base * p) by {
            vstd::arithmetic::power::lemma_pow_adds(base, 1, (cols.len() - 1) as nat);
            vstd::arithmetic::power::lemma_pow1(base);
        }
        assert(colsval(cols.push(c), base) == col_sum(cols[0]) + base * (e + p * col_sum(c)));
        assert(base * (e + p * col_sum(c)) == base * e + (base * p) * col_sum(c))
            by (nonlinear_arith);
    }
}

pub proof fn lemma_colsval_zero(cols: Seq<Seq<Block>>, base: int)
    requires
        forall|i: int| 0 <= i < cols.len() ==> (#[trigger] cols[i]).len() == 0,
    ensures
        colsval(cols, base) == 0,
    decreases cols.len(),
{
    if cols.len() > 0 {
        lemma_colsval_zero(cols.drop_first(), base);
    }
}

pub proof fn lemma_wt_push(cols: Seq<Seq<Block>>, c: Seq<Block>, w: int)
    ensures
        wt_from(cols.push(c), w) == wt_from(cols, w) + (w - cols.len()) * c.len(),
    decreases cols.len(),
{
    if cols.len() == 0 {
        assert(cols.push(c).drop_first() =~= Seq::<Seq<Block>>::empty());
        assert(wt_from(cols.push(c).drop_first(), w - 1) == 0);
    } else {
        assert(cols.push(c).drop_first() =~= cols.drop_first().push(c));
        lemma_wt_push(cols.drop_first(), c, w - 1);
    }
}

pub proof fn lemma_wt_nonneg(cols: Seq<Seq<Block>>, w: int)
    requires
        w >= cols.len(),
    ensures
        wt_from(cols, w) >= 0,
    decreases cols.len(),
{
    if cols.len() > 0 {
        lemma_wt_nonneg(cols.drop_first(), w - 1);
        vstd::arithmetic::mul::lemma_mul_nonnegative(w, cols[0].len() as int);
    }
}

pub proof fn lemma_total_chunks_member(cols: Seq<Seq<Block>>, k: int, j: int)
    requires
        k >= 1,
        0 <= j < cols.len(),
    ensures
        total_chunks(cols, k) >= cols[j].len() as int / k,
        total_chunks(cols, k) >= 0,
    decreases cols.len(),
{
    vstd::arithmetic::div_mod::lemma_div_pos_is_pos(cols[0].len() as int, k);
    if j == 0 {
        lemma_total_chunks_nonneg(cols.drop_first(), k);
    } else {
        lemma_total_chunks_member(cols.drop_first(), k, j - 1);
    }
}

pub proof fn lemma_total_chunks_nonneg(cols: Seq<Seq<Block>>, k: int)
    requires
        k >= 1,
    ensures
        total_chunks(cols, k) >= 0,
    decreases cols.len(),
{
    if cols.len() > 0 {
        vstd::arithmetic::div_mod::lemma_div_pos_is_pos(cols[0].len() as int, k);
        lemma_total_chunks_nonneg(cols.drop_first(), k);
    }
}

/// What one round of chunking preserves: the first `j * k` blocks of a
/// column hold exactly the messages plus `base` times the carries that
/// its first `j` chunks extract.
pub proof fn lemma_chunks_conservation(col: Seq<Block>, k: int, base: int, j: int)
    requires
        k >= 1,
        base >= 1,
        0 <= j,
        j * k <= col.len(),
    ensures
        col_sum(col.take(j * k)) == chunks_msg_total(col, k, base, j) + base * chunks_carry_total(
            col,
            k,
            base,
            j,
        ),
        chunks_msg_total(col, k, base, j) >= 0,
        chunks_carry_total(col, k, base, j) >= 0,
    decreases j,
{
    if j == 0 {
        vstd::arithmetic::mul::lemma_mul_by_zero_is_zero(k);
        vstd::arithmetic::mul::lemma_mul_by_zero_is_zero(base);
        assert(col.take(0) =~= Seq::<Block>::empty());
    } else {
        assert((j - 1) * k <= col.len()) by (nonlinear_arith)
            requires
                j * k <= col.len(),
                k >= 1,
                j >= 1;
        lemma_chunks_conservation(col, k, base, j - 1);
        let s = col_sum(chunk_at(col, k, j - 1));
        assert((j - 1) * k + k == j * k) by (nonlinear_arith);
        assert(col.take(j * k) =~= col.take((j - 1) * k) + chunk_at(col, k, j - 1));
        lemma_col_sum_concat(col.take((j - 1) * k), chunk_at(col, k, j - 1));
        lemma_col_sum_nonneg(chunk_at(col, k, j - 1));
        lemma_fundamental_div_mod(s, base);
        vstd::arithmetic::div_mod::lemma_mod_bound(s, base);
        vstd::arithmetic::div_mod::lemma_div_pos_is_pos(s, base);
        vstd::arithmetic::mul::lemma_mul_is_distributive_add(
            base,
            chunks_carry_total(col, k, base, j - 1),
            s / base,
        );
        assert(chunks_msg_total(col, k, base, j) == chunks_msg_total(col, k, base, j - 1) + s
            % base);
        assert(chunks_carry_total(col, k, base, j) == chunks_carry_total(col, k, base, j - 1) + s
            / base);
        assert(col_sum(col.take(j * k)) == col_sum(col.take((j - 1) * k)) + s);
        assert(base * chunks_carry_total(col, k, base, j) == base * chunks_carry_total(
            col,
            k,
            base,
            j - 1,
        ) + base * (s / base)) by {
            vstd::arithmetic::mul::lemma_mul_is_distributive_add(
                base,
                chunks_carry_total(col, k, base, j - 1),
                s / base,
            );
        }
    }
}

pub proof fn lemma_total_chunks_push(cols: Seq<Seq<Block>>, c: Seq<Block>, k: int)
    ensures
        total_chunks(cols.push(c), k) == total_chunks(cols, k) + c.len() as int / k,
    decreases cols.len(),
{
    if cols.len() == 0 {
        assert(cols.push(c).drop_first() =~= Seq::<Seq<Block>>::empty());
        assert(total_chunks(cols.push(c).drop_first(), k) == 0);
    } else {
        assert(cols.push(c).drop_first() =~= cols.drop_first().push(c));
        lemma_total_chunks_push(cols.drop_first(), c, k);
    }
}

/// A block total never exceeds the matching degree total.
pub proof fn lemma_col_sum_le_deg(s: Seq<Block>)
    requires
        forall|i: int| 0 <= i < s.len() ==> (#[trigger] s[i]).value <= s[i].degree,
    ensures
        col_sum(s) <= col_deg_sum(s),
        col_deg_sum(s) >= 0,
    decreases s.len(),
{
    if s.len() > 0 {
        lemma_col_sum_le_deg(s.drop_first());
    }
}

/// Clean blocks have a degree total bounded by their count.
pub proof fn lemma_col_deg_bound(s: Seq<Block>, m: int)
    requires
        m >= 1,
        forall|i: int| 0 <= i < s.len() ==> (#[trigger] s[i]).degree < m,
    ensures
        col_deg_sum(s) <= s.len() * (m - 1),
    decreases s.len(),
{
    if s.len() == 0 {
    } else {
        lemma_col_deg_bound(s.drop_first(), m);
        assert((s.len() - 1) * (m - 1) + (m - 1) == s.len() * (m - 1)) by (nonlinear_arith);
    }
}

/// The extraction pair of a full chunk of clean blocks yields clean,
/// well-formed message and carry blocks.
pub proof fn lemma_chunk_blocks_wf(sk: ServerKey, s: Seq<Block>, k: int)
    requires
        sk.wf(),
        s.len() <= k,
        k * (sk.message_modulus - 1) <= sk.max_degree(),
        forall|i: int|
            0 <= i < s.len() ==> (#[trigger] s[i]).value <= s[i].degree && s[i].degree
                < sk.message_modulus,
    ensures
        chunk_msg_block(sk, s).value <= chunk_msg_block(sk, s).degree,
        chunk_msg_block(sk, s).degree < sk.message_modulus,
        chunk_carry_block(sk, s).value <= chunk_carry_block(sk, s).degree,
        chunk_carry_block(sk, s).degree < sk.message_modulus,
        chunk_carry_block(sk, s).value == col_sum(s) / sk.message_modulus as int,
{
    let m = sk.message_modulus as int;
    let c = sk.carry_modulus as int;
    lemma_col_sum_nonneg(s);
    lemma_col_sum_le_deg(s);
    lemma_col_deg_bound(s, m);
    vstd::arithmetic::div_mod::lemma_mod_bound(col_sum(s), m);
    vstd::arithmetic::div_mod::lemma_div_is_ordered(col_sum(s), col_deg_sum(s), m);
    assert(s.len() * (m - 1) <= k * (m - 1)) by (nonlinear_arith)
        requires
            s.len() <= k,
            m >= 1;
    vstd::arithmetic::div_mod::lemma_div_is_ordered(col_deg_sum(s), sk.max_degree(), m);
    assert(m * c - m == (c - 1) * m + 0) by (nonlinear_arith);
    vstd::arithmetic::div_mod::lemma_fundamental_div_mod_converse(sk.max_degree(), m, c - 1, 0);
    vstd::arithmetic::div_mod::lemma_div_pos_is_pos(col_sum(s), m);
    vstd::arithmetic::div_mod::lemma_div_pos_is_pos(col_deg_sum(s), m);
}

pub proof fn lemma_col_total_push(terms: Seq<RadixCiphertext>, x: RadixCiphertext, i: int)
    ensures
        col_total_at(terms.push(x), i) == col_total_at(terms, i) + x.blocks@[i].value,
    decreases terms.len(),
{
    if terms.len() == 0 {
        assert(terms.push(x).drop_first() =~= Seq::<RadixCiphertext>::empty());
        assert(col_total_at(terms.push(x).drop_first(), i) == 0);
    } else {
        assert(terms.push(x).drop_first() =~= terms.drop_first().push(x));
        lemma_col_total_push(terms.drop_first(), x, i);
    }
}

/// Blocks that each hold their column's total represent the column
/// state's integer.
pub proof fn lemma_eval_colsval(blocks: Seq<Block>, cols: Seq<Seq<Block>>, base: int)
    requires
        blocks.len() == cols.len(),
        forall|i: int| 0 <= i < blocks.len() ==> (#[trigger] blocks[i]).value == col_sum(cols[i]),
    ensures
        radix_eval(blocks, base) == colsval(cols, base),
    decreases blocks.len(),
{
    if blocks.len() > 0 {
        lemma_eval_colsval(blocks.drop_first(), cols.drop_first(), base);
    }
}

pub proof fn lemma_sum_prefix_zero(sk: ServerKey, terms: Seq<RadixCiphertext>)
    ensures
        sum_prefix_values(sk, terms, 0) == 0,
    decreases terms.len(),
{
    if terms.len() > 0 {
        assert(terms[0].blocks@.take(0) =~= Seq::<Block>::empty());
        lemma_sum_prefix_zero(sk, terms.drop_first());
    }
}

pub proof fn lemma_sum_prefix_step(sk: ServerKey, terms: Seq<RadixCiphertext>, i: int)
    requires
        0 <= i,
        forall|t: int| 0 <= t < terms.len() ==> i < (#[trigger] terms[t]).blocks@.len(),
    ensures
        sum_prefix_values(sk, terms, i + 1) == sum_prefix_values(sk, terms, i) + pow(
            sk.message_modulus as int,
            i as nat,
        ) * col_total_at(terms, i),
    decreases terms.len(),
{
    let base = sk.message_modulus as int;
    if terms.len() == 0 {
        vstd::arithmetic::mul::lemma_mul_by_zero_is_zero(pow(base, i as nat));
    } else {
        lemma_sum_prefix_step(sk, terms.drop_first(), i);
        let t0 = terms[0];
        assert(t0.blocks@.take(i + 1) =~= t0.blocks@.take(i).push(t0.blocks@[i]));
        crate::radix::lemma_eval_push(t0.blocks@.take(i), t0.blocks@[i], base);
        vstd::arithmetic::mul::lemma_mul_is_distributive_add(
            pow(base, i as nat),
            t0.blocks@[i].value as int,
            col_total_at(terms.drop_first(), i),
        );
    }
}

pub proof fn lemma_sum_prefix_full(sk: ServerKey, terms: Seq<RadixCiphertext>, nb: int)
    requires
        forall|t: int| 0 <= t < terms.len() ==> (#[trigger] terms[t]).blocks@.len() == nb,
    ensures
        sum_prefix_values(sk, terms, nb) == sum_values(sk, terms),
    decreases terms.len(),
{
    if terms.len() > 0 {
        assert(terms[0].blocks@.take(nb) =~= terms[0].blocks@);
        lemma_sum_prefix_full(sk, terms.drop_first(), nb);
    }
}

impl ServerKey {
    /// Folds every full chunk of one column: each chunk is accumulated
    /// by plain additions, then one extraction pair turns it into a
    /// clean message block and (when asked for) a clean carry block.
    /// Blocks that do not fill a chunk are kept untouched.
    pub(crate) fn reduce_column(&self, col: &Vec<Block>, k: usize, want_carry: bool) -> (r: (
        Vec<Block>,
        Vec<(Block, Option<Block>)>,
    ))
        requires
            self.wf(),
            k >= 1,
            (k as int) * (self.message_modulus - 1) <= self.max_degree(),
            forall|j: int|
                0 <= j < col@.len() ==> (#[trigger] col@[j]).value <= col@[j].degree
                    && col@[j].degree < self.message_modulus,
        ensures
            r.0@ == col@.skip((col@.len() as int / k as int) * (k as int)),
            r.1@.len() == col@.len() as int / (k as int),
            forall|j: int|
                0 <= j < r.1@.len() ==> (#[trigger] r.1@[j]).0 == chunk_msg_block(
                    *self,
                    chunk_at(col@, k as int, j),
                ),
            want_carry ==> forall|j: int|
                0 <= j < r.1@.len() ==> (#[trigger] r.1@[j]).1 == Some(
                    chunk_carry_block(*self, chunk_at(col@, k as int, j)),
                ),
            !want_carry ==> forall|j: int| 0 <= j < r.1@.len() ==> (#[trigger] r.1@[j]).1 is None,
    {
        let m = self.message_modulus;
        let ghost base = m as int;
        let len = col.len();
        let ch = len / k;
        proof {
            vstd::arithmetic::div_mod::lemma_fundamental_div_mod(len as int, k as int);
            vstd::arithmetic::div_mod::lemma_mod_bound(len as int, k as int);
        }
        let mut outs: Vec<(Block, Option<Block>)> = Vec::new();
        let mut j: usize = 0;
        while j < ch
            invariant
                self.wf(),
                m == self.message_modulus,
                base == m as int,
                len == col@.len(),
                ch == len as int / k as int,
                k >= 1,
                (ch as int) * (k as int) <= len,
                (k as int) * (m - 1) <= self.max_degree(),
                forall|t: int|
                    0 <= t < col@.len() ==> (#[trigger] col@[t]).value <= col@[t].degree
                        && col@[t].degree < m,
                j <= ch,
                outs@.len() == j,
                forall|t: int|
                    0 <= t < j ==> (#[trigger] outs@[t]).0 == chunk_msg_block(
                        *self,
                        chunk_at(col@, k as int, t),
                    ),
                want_carry ==> forall|t: int|
                    0 <= t < j ==> (#[trigger] outs@[t]).1 == Some(
                        chunk_carry_block(*self, chunk_at(col@, k as int, t)),
                    ),
                !want_carry ==> forall|t: int| 0 <= t < j ==> (#[trigger] outs@[t]).1 is None,
            decreases ch - j,
        {
            proof {
                assert((j as int) * (k as int) + k <= (ch as int) * (k as int))
                    by (nonlinear_arith)
                    requires
                        j < ch,
                        k >= 1;
                vstd::arithmetic::mul::lemma_mul_nonnegative(j as int, k as int);
            }
            let start = j * k;
            let mut acc = col[start];
            let mut t: usize = 1;
            proof {
                let c = chunk_at(col@, k as int, j as int);
                assert(c.take(1) =~= Seq::<Block>::empty().push(col@[start as int]));
                lemma_col_sum_push(Seq::<Block>::empty(), col@[start as int]);
                assert(col_sum(c.take(1)) == col@[start as int].value);
                assert(col_deg_sum(c.take(1)) == col@[start as int].degree);
            }
            while t < k
                invariant
                    self.wf(),
                    m == self.message_modulus,
                    base == m as int,
                    len == col@.len(),
                    k >= 1,
                    j < ch,
                    start == (j as int) * (k as int),
                    start + k <= len,
                    (k as int) * (m - 1) <= self.max_degree(),
                    forall|u: int|
                        0 <= u < col@.len() ==> (#[trigger] col@[u]).value <= col@[u].degree
                            && col@[u].degree < m,
                    1 <= t <= k,
                    acc.value == col_sum(chunk_at(col@, k as int, j as int).take(t as int)),
                    acc.degree == col_deg_sum(chunk_at(col@, k as int, j as int).take(t as int)),
                    acc.degree <= (t as int) * (m - 1),
                    acc.value <= acc.degree,
                decreases k - t,
            {
                proof {
                    assert((t as int) * (m - 1) + (m - 1) <= (k as int) * (m - 1))
                        by (nonlinear_arith)
                        requires
                            t < k,
                            m >= 1;
                    assert((t as int + 1) * (m - 1) == (t as int) * (m - 1) + (m - 1))
                        by (nonlinear_arith);
                    let c = chunk_at(col@, k as int, j as int);
                    assert(c.take(t as int + 1) =~= c.take(t as int).push(c[t as int]));
                    lemma_col_sum_push(c.take(t as int), c[t as int]);
                }
                self.unchecked_add_assign(&mut acc, &col[start + t]);
                t = t + 1;
            }
            proof {
                let c = chunk_at(col@, k as int, j as int);
                assert(c.take(k as int) =~= c);
            }
            let out: (Block, Option<Block>) = if want_carry {
                let pair = crate::parallel::join_extract_pair(self, &acc);
                (pair.0, Some(pair.1))
            } else {
                (self.message_extract(&acc), None)
            };
            outs.push(out);
            j = j + 1;
        }
        // Keep what does not fill a chunk.
        let mut kept: Vec<Block> = Vec::new();
        let mut t: usize = ch * k;
        proof {
            vstd::arithmetic::mul::lemma_mul_nonnegative(ch as int, k as int);
            assert(kept@ =~= col@.subrange((ch as int) * (k as int), (ch as int) * (k as int)));
        }
        while t < len
            invariant
                len == col@.len(),
                (ch as int) * (k as int) <= t <= len,
                kept@ =~= col@.subrange((ch as int) * (k as int), t as int),
            decreases len - t,
        {
            kept.push(col[t]);
            proof {
                assert(col@.subrange((ch as int) * (k as int), t as int + 1) =~= col@.subrange(
                    (ch as int) * (k as int),
                    t as int,
                ).push(col@[t as int]));
            }
            t = t + 1;
        }
        proof {
            assert(col@.subrange((ch as int) * (k as int), len as int) =~= col@.skip(
                (ch as int) * (k as int),
            ));
        }
        (kept, outs)
    }

    /// Folds the at most `max_sum_size` blocks left in a column into a
    /// single dirty block by plain addition; an empty column folds to a
    /// trivial zero.
    pub(crate) fn fold_column(&self, col: &Vec<Block>) -> (r: Block)
        requires
            self.wf(),
            (col@.len() as int) * (self.message_modulus - 1) <= self.max_degree(),
            forall|j: int|
                0 <= j < col@.len() ==> (#[trigger] col@[j]).value <= col@[j].degree
                    && col@[j].degree < self.message_modulus,
        ensures
            r.value == col_sum(col@),
            r.value <= r.degree,
            r.degree <= self.max_degree(),
    {
        let m = self.message_modulus;
        let len = col.len();
        if len == 0 {
            let z = self.create_trivial(0);
            proof {
                assert(col_sum(col@) == 0);
            }
            return z;
        }
        let mut acc = col[0];
        let mut t: usize = 1;
        proof {
            assert(col@.take(1) =~= Seq::<Block>::empty().push(col@[0]));
            lemma_col_sum_push(Seq::<Block>::empty(), col@[0]);
        }
        while t < len
            invariant
                self.wf(),
                m == self.message_modulus,
                len == col@.len(),
                (len as int) * (m - 1) <= self.max_degree(),
                forall|u: int|
                    0 <= u < col@.len() ==> (#[trigger] col@[u]).value <= col@[u].degree
                        && col@[u].degree < m,
                1 <= t <= len,
                acc.value == col_sum(col@.take(t as int)),
                acc.degree == col_deg_sum(col@.take(t as int)),
                acc.degree <= (t as int) * (m - 1),
                acc.value <= acc.degree,
            decreases len - t,
        {
            proof {
                assert((t as int) * (m - 1) + (m - 1) <= (len as int) * (m - 1))
                    by (nonlinear_arith)
                    requires
                        t < len,
                        m >= 1;
                assert((t as int + 1) * (m - 1) == (t as int) * (m - 1) + (m - 1))
                    by (nonlinear_arith);
                assert(col@.take(t as int + 1) =~= col@.take(t as int).push(col@[t as int]));
                lemma_col_sum_push(col@.take(t as int), col@[t as int]);
            }
            self.unchecked_add_assign(&mut acc, &col[t]);
            t = t + 1;
        }
        proof {
            assert(col@.take(len as int) =~= col@);
        }
        acc
    }
}

/// Splitting every block into its message and carry parts splits the
/// represented integer accordingly.
pub proof fn lemma_eval_split_mod_div(
    d: Seq<Block>,
    ms: Seq<Block>,
    cs: Seq<Block>,
    base: int,
)
    requires
        base >= 1,
        ms.len() == d.len(),
        cs.len() == d.len(),
        forall|i: int| 0 <= i < d.len() ==> (#[trigger] ms[i]).value == d[i].value as int % base,
        forall|i: int| 0 <= i < d.len() ==> (#[trigger] cs[i]).value == d[i].value as int / base,
    ensures
        radix_eval(d, base) == radix_eval(ms, base) + base * radix_eval(cs, base),
    decreases d.len(),
{
    if d.len() == 0 {
        vstd::arithmetic::mul::lemma_mul_by_zero_is_zero(base);
    } else {
        lemma_eval_split_mod_div(d.drop_first(), ms.drop_first(), cs.drop_first(), base);
        lemma_fundamental_div_mod(d[0].value as int, base);
        let em = radix_eval(ms.drop_first(), base);
        let ec = radix_eval(cs.drop_first(), base);
        let c0 = d[0].value as int / base;
        // d0 + base * (em + base * ec) == (d0 % base) + base * em + base * (c0 + base * ec)
        assert(base * (em + base * ec) == base * em + base * (base * ec)) by (nonlinear_arith);
        assert(base * (c0 + base * ec) == base * c0 + base * (base * ec)) by (nonlinear_arith);
    }
}

/// A sequence of nonnegative digits represents zero exactly when its
/// plain total is zero.
pub proof fn lemma_eval_zero_iff(s: Seq<Block>, base: int)
    requires
        base >= 1,
    ensures
        radix_eval(s, base) >= 0,
        col_sum(s) >= 0,
        radix_eval(s, base) > 0 <==> col_sum(s) > 0,
    decreases s.len(),
{
    if s.len() > 0 {
        lemma_eval_zero_iff(s.drop_first(), base);
        vstd::arithmetic::mul::lemma_mul_nonnegative(base, radix_eval(s.drop_first(), base));
        if radix_eval(s.drop_first(), base) > 0 {
            vstd::arithmetic::mul::lemma_mul_strictly_positive(
                base,
                radix_eval(s.drop_first(), base),
            );
        } else {
            vstd::arithmetic::mul::lemma_mul_by_zero_is_zero(base);
        }
    }
}

/// The message and carry extractions of a radix block are clean radix
/// blocks.
pub proof fn lemma_extract_block_wf(sk: ServerKey, b: Block)
    requires
        sk.wf(),
        b.value <= b.degree,
        b.degree <= sk.max_degree(),
    ensures
        sk.message_extract_spec(b).value <= sk.message_extract_spec(b).degree,
        sk.message_extract_spec(b).degree < sk.message_modulus,
        sk.carry_extract_spec(b).value <= sk.carry_extract_spec(b).degree,
        sk.carry_extract_spec(b).degree < sk.message_modulus,
{
    let m = sk.message_modulus as int;
    let c = sk.carry_modulus as int;
    vstd::arithmetic::div_mod::lemma_mod_bound(b.value as int, m);
    vstd::arithmetic::div_mod::lemma_div_is_ordered(b.value as int, b.degree as int, m);
    vstd::arithmetic::div_mod::lemma_div_is_ordered(b.degree as int, sk.max_degree(), m);
    assert(m * c - m == (c - 1) * m + 0) by (nonlinear_arith);
    vstd::arithmetic::div_mod::lemma_fundamental_div_mod_converse(sk.max_degree(), m, c - 1, 0);
    vstd::arithmetic::div_mod::lemma_div_pos_is_pos(b.value as int, m);
    vstd::arithmetic::div_mod::lemma_div_pos_is_pos(b.degree as int, m);
}

/// Reducing each term modulo the capacity does not change the sum
/// modulo the capacity.
pub proof fn lemma_sum_values_mod(
    sk: ServerKey,
    t1: Seq<RadixCiphertext>,
    t2: Seq<RadixCiphertext>,
    cap: int,
)
    requires
        cap >= 1,
        t1.len() == t2.len(),
        forall|i: int|
            0 <= i < t1.len() ==> sk.radix_value(#[trigger] t1[i]) == sk.radix_value(t2[i]) % cap,
    ensures
        sum_values(sk, t1) % cap == sum_values(sk, t2) % cap,
    decreases t1.len(),
{
    if t1.len() > 0 {
        lemma_sum_values_mod(sk, t1.drop_first(), t2.drop_first(), cap);
        let a1 = sk.radix_value(t1[0]);
        let a2 = sk.radix_value(t2[0]);
        let r1 = sum_values(sk, t1.drop_first());
        let r2 = sum_values(sk, t2.drop_first());
        vstd::arithmetic::div_mod::lemma_add_mod_noop(a1, r1, cap);
        vstd::arithmetic::div_mod::lemma_add_mod_noop(a2, r2, cap);
        vstd::arithmetic::div_mod::lemma_mod_twice(a2, cap);
    }
}

/// Term lists made of the same blocks have the same sum.
pub proof fn lemma_sum_values_blocks_eq(
    sk: ServerKey,
    t1: Seq<RadixCiphertext>,
    t2: Seq<RadixCiphertext>,
)
    requires
        t1.len() == t2.len(),
        forall|i: int| 0 <= i < t1.len() ==> (#[trigger] t1[i]).blocks@ == t2[i].blocks@,
    ensures
        sum_values(sk, t1) == sum_values(sk, t2),
    decreases t1.len(),
{
    if t1.len() > 0 {
        lemma_sum_values_blocks_eq(sk, t1.drop_first(), t2.drop_first());
    }
}

/// A list of plain integers, added up.
pub open spec fn int_sum(vals: Seq<int>) -> int
    decreases vals.len(),
{
    if vals.len() == 0 {
        0
    } else {
        vals[0] + int_sum(vals.drop_first())
    }
}

/// Homomorphism of summation: when each term represents its plain value
/// modulo the capacity, the represented sum is the plain sum modulo the
/// capacity.  Together with the summation contracts this says that
/// summing encryptions of `a_1 .. a_n` and opening the result yields
/// `(a_1 + .. + a_n)` modulo the capacity.
pub proof fn lemma_sum_homomorphism(
    sk: ServerKey,
    terms: Seq<RadixCiphertext>,
    vals: Seq<int>,
    cap: int,
)
    requires
        cap >= 1,
        terms.len() == vals.len(),
        forall|i: int| 0 <= i < terms.len() ==> sk.radix_value(#[trigger] terms[i]) == vals[i] % cap,
    ensures
        sum_values(sk, terms) % cap == int_sum(vals) % cap,
    decreases terms.len(),
{
    if terms.len() > 0 {
        lemma_sum_homomorphism(sk, terms.drop_first(), vals.drop_first(), cap);
        let a = vals[0];
        let r1 = sum_values(sk, terms.drop_first());
        let r2 = int_sum(vals.drop_first());
        vstd::arithmetic::div_mod::lemma_add_mod_noop(a % cap, r1, cap);
        vstd::arithmetic::div_mod::lemma_add_mod_noop(a, r2, cap);
        vstd::arithmetic::div_mod::lemma_mod_twice(a, cap);
    }
}

/// Removing one term takes exactly its value out of the sum.
pub proof fn lemma_sum_values_remove(sk: ServerKey, terms: Seq<RadixCiphertext>, j: int)
    requires
        0 <= j < terms.len(),
    ensures
        sum_values(sk, terms) == sk.radix_value(terms[j]) + sum_values(sk, terms.remove(j)),
    decreases j,
{
    if j == 0 {
        assert(terms.remove(0) =~= terms.drop_first());
    } else {
        assert(terms.remove(j).drop_first() =~= terms.drop_first().remove(j - 1));
        lemma_sum_values_remove(sk, terms.drop_first(), j - 1);
    }
}

/// Order independence: two term lists holding the same multiset of
/// ciphertexts have the same sum, so the summation entry points return
/// the same represented value for any permutation of their terms.
pub proof fn lemma_sum_values_permutation(
    sk: ServerKey,
    t1: Seq<RadixCiphertext>,
    t2: Seq<RadixCiphertext>,
)
    requires
        t1.to_multiset() == t2.to_multiset(),
    ensures
        sum_values(sk, t1) == sum_values(sk, t2),
    decreases t1.len(),
{
    broadcast use vstd::seq_lib::group_to_multiset_ensures;

    if t1.len() == 0 {
        assert(t2.to_multiset().len() == 0);
    } else {
        let x = t1[0];
        assert(t1.to_multiset().count(x) > 0);
        assert(t2.contains(x));
        let j = choose|j: int| 0 <= j < t2.len() && t2[j] == x;
        assert(t1.remove(0) =~= t1.drop_first());
        assert(t1.drop_first().to_multiset() == t1.to_multiset().remove(x));
        assert(t2.remove(j).to_multiset() == t2.to_multiset().remove(x));
        lemma_sum_values_permutation(sk, t1.drop_first(), t2.remove(j));
        lemma_sum_values_remove(sk, t2, j);
    }
}

/// The chunk-size boundary: exactly `max_sum_size` clean digits can be
/// folded by plain addition and cleaned by a single extraction pair,
/// while one more digit would exceed the usable degree and force an
/// extra reduction round.
pub proof fn lemma_max_sum_size_boundary(sk: ServerKey, k: int)
    requires
        sk.wf(),
        k == sk.max_degree() / (sk.message_modulus - 1),
    ensures
        k * (sk.message_modulus - 1) <= sk.max_degree(),
        (k + 1) * (sk.message_modulus - 1) > sk.max_degree(),
        k >= 2,
{
    let d = sk.message_modulus as int - 1;
    let md = sk.max_degree();
    let q = md / d;
    let rest = md % d;
    vstd::arithmetic::div_mod::lemma_fundamental_div_mod(md, d);
    vstd::arithmetic::div_mod::lemma_mod_bound(md, d);
    assert(q * d <= md && md < (q + 1) * d) by (nonlinear_arith)
        requires
            md == d * q + rest,
            0 <= rest,
            rest < d;
    assert(2 * d == d * 2 + 0) by (nonlinear_arith);
    vstd::arithmetic::div_mod::lemma_fundamental_div_mod_converse(2 * d, d, 2, 0);
    vstd::arithmetic::div_mod::lemma_div_is_ordered(2 * d, md, d);
}

/// The dirty outcome of a partial (carry-save) summation, together with
/// the overflow carries shed by the last column when the caller asked
/// to keep them.
pub struct PartialSum {
    pub result: RadixCiphertext,
    pub collected_carries: Option<Vec<Block>>,
}

impl ServerKey {
    /// Carry-save summation of any number of same-width clean terms.
    ///
    /// The terms' blocks are split into per-position columns (dropping
    /// provably-zero blocks); while any column exceeds `max_sum_size`,
    /// every full chunk of every column is folded by plain addition and
    /// extracted into a clean message (fed back into its column) and a
    /// clean carry (appended to the next column, or kept as a collected
    /// overflow carry at the last column, or skipped entirely when not
    /// wanted there).  The surviving columns are then folded into one
    /// dirty block each.
    ///
    /// The result holds the sum of the terms modulo the ciphertext
    /// capacity; with `collect_carries` (and at least three terms, the
    /// only case that reaches the reduction with collection) it holds
    /// the sum exactly, counting each collected carry at the capacity's
    /// weight.
    pub fn unchecked_partial_sum_ciphertexts_vec_parallelized(
        &self,
        terms: Vec<RadixCiphertext>,
        collect_carries: bool,
    ) -> (r: Option<PartialSum>)
        requires
            self.wf(),
            forall|t: int|
                0 <= t < terms@.len() ==> self.radix_wf(#[trigger] terms@[t]) && self.radix_clean(
                    terms@[t],
                ),
            forall|t: int|
                0 <= t < terms@.len() ==> (#[trigger] terms@[t]).blocks@.len()
                    == terms@[0].blocks@.len(),
        ensures
            r is Some <==> terms@.len() >= 1,
            r is Some ==> r.unwrap().result.blocks@.len() == terms@[0].blocks@.len(),
            r is Some ==> self.radix_wf(r.unwrap().result),
            r is Some ==> (r.unwrap().collected_carries is Some <==> collect_carries),
            r is Some && collect_carries ==> forall|j: int|
                0 <= j < r.unwrap().collected_carries.unwrap()@.len() ==> (
                #[trigger] r.unwrap().collected_carries.unwrap()@[j]).value
                    <= r.unwrap().collected_carries.unwrap()@[j].degree
                    && r.unwrap().collected_carries.unwrap()@[j].degree < self.message_modulus,
            r is Some ==> self.radix_value(r.unwrap().result) % self.radix_capacity(
                terms@[0].blocks@.len() as nat,
            ) == sum_values(*self, terms@) % self.radix_capacity(terms@[0].blocks@.len() as nat),
            r is Some && collect_carries && terms@.len() != 2 ==> self.radix_value(
                r.unwrap().result,
            ) + self.radix_capacity(terms@[0].blocks@.len() as nat) * col_sum(
                r.unwrap().collected_carries.unwrap()@,
            ) == sum_values(*self, terms@),
            terms@.len() == 1 ==> r.unwrap().result == terms@[0],
    {
        let m = self.message_modulus;
        let ghost base = m as int;
        let ghost tseq = terms@;
        let ghost total = sum_values(*self, tseq);
        if terms.len() == 0 {
            return None;
        }
        let nb = terms[0].blocks.len();
        let ghost nbg = nb as int;
        let ghost cap = pow(base, nb as nat);
        proof {
            vstd::arithmetic::power::lemma_pow_positive(base, nb as nat);
        }
        if terms.len() == 1 {
            let mut terms_own = terms;
            let only = terms_own.pop().unwrap();
            proof {
                assert(tseq.drop_first() =~= Seq::<RadixCiphertext>::empty());
                assert(sum_values(*self, tseq.drop_first()) == 0);
                crate::radix::lemma_eval_bounds(only.blocks@, base);
                vstd::arithmetic::div_mod::lemma_small_mod(
                    self.radix_value(only) as nat,
                    cap as nat,
                );
                vstd::arithmetic::mul::lemma_mul_by_zero_is_zero(cap);
            }
            let cc: Option<Vec<Block>> = if collect_carries {
                Some(Vec::new())
            } else {
                None
            };
            return Some(PartialSum { result: only, collected_carries: cc });
        }
        if terms.len() == 2 {
            let added = self.add_parallelized(&terms[0], &terms[1]);
            proof {
                assert(tseq.drop_first().drop_first() =~= Seq::<RadixCiphertext>::empty());
                assert(sum_values(*self, tseq.drop_first().drop_first()) == 0);
                assert(tseq.drop_first()[0] == tseq[1]);
                assert(sum_values(*self, tseq.drop_first()) == self.radix_value(tseq[1])
                    + sum_values(*self, tseq.drop_first().drop_first()));
                assert(sum_values(*self, tseq) == self.radix_value(tseq[0]) + self.radix_value(
                    tseq[1],
                ));
                vstd::arithmetic::div_mod::lemma_mod_twice(
                    self.radix_value(tseq[0]) + self.radix_value(tseq[1]),
                    cap,
                );
            }
            let cc: Option<Vec<Block>> = if collect_carries {
                Some(Vec::new())
            } else {
                None
            };
            return Some(PartialSum { result: added, collected_carries: cc });
        }
        // Split the terms into per-position columns, dropping blocks of
        // degree zero: they provably encrypt zero.
        let n_terms = terms.len();
        let mut columns: Vec<Vec<Block>> = Vec::new();
        let mut i: usize = 0;
        proof {
            lemma_sum_prefix_zero(*self, tseq);
        }
        while i < nb
            invariant
                self.wf(),
                m == self.message_modulus,
                base == m as int,
                tseq == terms@,
                n_terms == tseq.len(),
                nb == tseq[0].blocks@.len(),
                forall|t: int|
                    0 <= t < tseq.len() ==> self.radix_wf(#[trigger] tseq[t]) && self.radix_clean(
                        tseq[t],
                    ),
                forall|t: int| 0 <= t < tseq.len() ==> (#[trigger] tseq[t]).blocks@.len() == nb,
                i <= nb,
                columns@.len() == i,
                forall|a: int, b: int|
                    0 <= a < columns@.len() && 0 <= b < columns@[a]@.len() ==> (
                    #[trigger] columns@[a]@[b]).value <= columns@[a]@[b].degree
                        && columns@[a]@[b].degree < m,
                colsval(cols_seq(columns@), base) == sum_prefix_values(*self, tseq, i as int),
            decreases nb - i,
        {
            let mut col: Vec<Block> = Vec::new();
            let mut t: usize = 0;
            while t < n_terms
                invariant
                    self.wf(),
                    m == self.message_modulus,
                    tseq == terms@,
                    n_terms == tseq.len(),
                    i < nb,
                    forall|t2: int|
                        0 <= t2 < tseq.len() ==> self.radix_wf(#[trigger] tseq[t2])
                            && self.radix_clean(tseq[t2]),
                    forall|t2: int|
                        0 <= t2 < tseq.len() ==> (#[trigger] tseq[t2]).blocks@.len() == nb,
                    t <= n_terms,
                    col_sum(col@) == col_total_at(tseq.take(t as int), i as int),
                    forall|b: int|
                        0 <= b < col@.len() ==> (#[trigger] col@[b]).value <= col@[b].degree
                            && col@[b].degree < m,
                decreases n_terms - t,
            {
                let b = terms[t].blocks[i];
                proof {
                    assert(tseq.take(t as int + 1) =~= tseq.take(t as int).push(tseq[t as int]));
                    lemma_col_total_push(tseq.take(t as int), tseq[t as int], i as int);
                    if col@.len() > 0 || b.degree != 0 {
                        lemma_col_sum_push(col@, b);
                    }
                }
                if b.degree != 0 {
                    col.push(b);
                }
                t = t + 1;
            }
            proof {
                assert(tseq.take(n_terms as int) =~= tseq);
                lemma_colsval_push(cols_seq(columns@), col@, base);
                lemma_sum_prefix_step(*self, tseq, i as int);
                assert(cols_seq(columns@.push(col)) =~= cols_seq(columns@).push(col@));
            }
            columns.push(col);
            i = i + 1;
        }
        proof {
            lemma_sum_prefix_full(*self, tseq, nbg);
            assert(colsval(cols_seq(columns@), base) == total);
        }
        // All columns empty: every block of every term provably encrypts
        // zero, so the sum is a trivial zero.
        if !any_column_over(&columns, 0) {
            let result = self.create_trivial_radix(0, nb);
            proof {
                assert(forall|a: int|
                    0 <= a < cols_seq(columns@).len() ==> (#[trigger] cols_seq(columns@)[a]).len()
                        == 0);
                lemma_colsval_zero(cols_seq(columns@), base);
                vstd::arithmetic::div_mod::lemma_small_mod(0nat, cap as nat);
                vstd::arithmetic::mul::lemma_mul_by_zero_is_zero(cap);
            }
            let cc: Option<Vec<Block>> = if collect_carries {
                Some(Vec::new())
            } else {
                None
            };
            return Some(PartialSum { result, collected_carries: cc });
        }
        // Reduce while some column exceeds what one extraction absorbs.
        let k64 = self.max_sum_size(m - 1);
        let k = k64 as usize;
        let ghost kk = k as int;
        proof {
            vstd::arithmetic::div_mod::lemma_div_is_ordered(
                2 * (m - 1),
                self.max_degree(),
                m as int - 1,
            );
            assert(2 * (m - 1) == 2 * (m as int - 1) + 0);
            vstd::arithmetic::div_mod::lemma_fundamental_div_mod_converse(
                2 * (m as int - 1),
                m as int - 1,
                2,
                0,
            );
        }
        let mut collected: Vec<Block> = Vec::new();
        let ghost mut dropped: int = 0;
        let mut go = any_column_over(&columns, k);
        proof {
            vstd::arithmetic::mul::lemma_mul_by_zero_is_zero(cap);
        }
        while go
            invariant
                self.wf(),
                m == self.message_modulus,
                base == m as int,
                cap == pow(base, nb as nat),
                nbg == nb as int,
                2 <= kk,
                kk == k as int,
                kk * (m - 1) <= self.max_degree(),
                columns@.len() == nb,
                forall|a: int, b: int|
                    0 <= a < columns@.len() && 0 <= b < columns@[a]@.len() ==> (
                    #[trigger] columns@[a]@[b]).value <= columns@[a]@[b].degree
                        && columns@[a]@[b].degree < m,
                forall|b: int|
                    0 <= b < collected@.len() ==> (#[trigger] collected@[b]).value
                        <= collected@[b].degree && collected@[b].degree < m,
                colsval(cols_seq(columns@), base) + cap * (col_sum(collected@) + dropped)
                    == total,
                dropped >= 0,
                collect_carries ==> dropped == 0,
                !collect_carries ==> collected@.len() == 0,
                go == exists|a: int|
                    0 <= a < columns@.len() && (#[trigger] columns@[a])@.len() > k,
            decreases wt_from(cols_seq(columns@), nbg),
        {
            let ghost oldviews = columns@;
            let ghost oldcols = cols_seq(oldviews);
            let ghost start_collected = collected@;
            let ghost start_dropped = dropped;
            let mut wants: Vec<bool> = Vec::new();
            let mut i: usize = 0;
            while i < nb
                invariant
                    nbg == nb as int,
                    i <= nb,
                    wants@.len() == i,
                    forall|a: int|
                        0 <= a < i ==> (#[trigger] wants@[a] <==> (a + 1 < nbg
                            || collect_carries)),
                decreases nb - i,
            {
                wants.push(i + 1 < nb || collect_carries);
                i = i + 1;
            }
            let results = crate::parallel::par_reduce_columns(self, columns, wants, k);
            let mut new_columns: Vec<Vec<Block>> = Vec::new();
            let mut carry_over: Vec<Block> = Vec::new();
            proof {
                assert(cols_seq(Seq::<Vec<Block>>::empty()) =~= Seq::<Seq<Block>>::empty());
                assert(colsval(Seq::<Seq<Block>>::empty(), base) == 0);
                assert(wt_from(Seq::<Seq<Block>>::empty(), nbg) == 0);
                assert(total_chunks(Seq::<Seq<Block>>::empty(), kk) == 0);
                assert(oldcols.take(0) =~= Seq::<Seq<Block>>::empty());
                assert(col_sum(Seq::<Block>::empty()) == 0);
                vstd::arithmetic::power::lemma_pow0(base);
                vstd::arithmetic::mul::lemma_mul_by_zero_is_zero(cap);
                vstd::arithmetic::mul::lemma_mul_by_zero_is_zero(nbg);
            }
            let mut i: usize = 0;
            while i < nb
                invariant
                    self.wf(),
                    m == self.message_modulus,
                    base == m as int,
                    cap == pow(base, nb as nat),
                    nbg == nb as int,
                    2 <= kk,
                    kk == k as int,
                    kk * (m - 1) <= self.max_degree(),
                    oldcols.len() == nb,
                    results@.len() == nb,
                    i <= nb,
                    new_columns@.len() == i,
                    collect_carries ==> dropped == start_dropped,
                    collect_carries ==> start_dropped == 0,
                    !collect_carries ==> collected@ == start_collected,
                    !collect_carries ==> start_collected.len() == 0,
                    dropped >= start_dropped,
                    forall|a: int, b: int|
                        0 <= a < oldcols.len() && 0 <= b < oldcols[a].len() ==> (
                        #[trigger] oldcols[a][b]).value <= oldcols[a][b].degree
                            && oldcols[a][b].degree < m,
                    forall|a: int|
                        0 <= a < nbg ==> (#[trigger] results@[a]).0@ == oldcols[a].skip(
                            (oldcols[a].len() as int / kk) * kk,
                        ),
                    forall|a: int|
                        0 <= a < nbg ==> (#[trigger] results@[a]).1@.len() == oldcols[a].len() as int
                            / kk,
                    forall|a: int, b: int|
                        0 <= a < nbg && 0 <= b < results@[a].1@.len() ==> (
                        #[trigger] results@[a].1@[b]).0 == chunk_msg_block(
                            *self,
                            chunk_at(oldcols[a], kk, b),
                        ),
                    forall|a: int, b: int|
                        0 <= a < nbg && 0 <= b < results@[a].1@.len() && (a + 1 < nbg
                            || collect_carries) ==> (#[trigger] results@[a].1@[b]).1 == Some(
                            chunk_carry_block(*self, chunk_at(oldcols[a], kk, b)),
                        ),
                    forall|a: int, b: int|
                        0 <= a < nbg && 0 <= b < results@[a].1@.len() && !(a + 1 < nbg
                            || collect_carries) ==> (#[trigger] results@[a].1@[b]).1 is None,
                    forall|a: int, b: int|
                        0 <= a < new_columns@.len() && 0 <= b < new_columns@[a]@.len() ==> (
                        #[trigger] new_columns@[a]@[b]).value <= new_columns@[a]@[b].degree
                            && new_columns@[a]@[b].degree < m,
                    forall|b: int|
                        0 <= b < carry_over@.len() ==> (#[trigger] carry_over@[b]).value
                            <= carry_over@[b].degree && carry_over@[b].degree < m,
                    forall|b: int|
                        0 <= b < collected@.len() ==> (#[trigger] collected@[b]).value
                            <= collected@[b].degree && collected@[b].degree < m,
                    colsval(cols_seq(new_columns@), base) + pow(base, i as nat) * col_sum(
                        carry_over@,
                    ) + cap * ((col_sum(collected@) - col_sum(start_collected)) + (dropped
                        - start_dropped)) == colsval(oldcols.take(i as int), base),
                    wt_from(cols_seq(new_columns@), nbg) + (nbg - i) * carry_over@.len()
                        + total_chunks(oldcols.take(i as int), kk) <= wt_from(
                        oldcols.take(i as int),
                        nbg,
                    ),
                    i == nb ==> carry_over@.len() == 0,
                decreases nb - i,
            {
                let ghost oldcol = oldcols[i as int];
                let ghost ch = oldcol.len() as int / kk;
                let ghost kept = oldcol.skip(ch * kk);
                proof {
                    vstd::arithmetic::div_mod::lemma_fundamental_div_mod(oldcol.len() as int, kk);
                    vstd::arithmetic::div_mod::lemma_mod_bound(oldcol.len() as int, kk);
                    vstd::arithmetic::div_mod::lemma_div_pos_is_pos(oldcol.len() as int, kk);
                }
                let mut col = crate::radix::copy_blocks(&results[i].0);
                let mut next_carry: Vec<Block> = Vec::new();
                let outs_len = results[i].1.len();
                let ghost start_col_sum = col_sum(col@);
                let ghost mid_collected = collected@;
                let ghost mid_dropped = dropped;
                let mut j: usize = 0;
                while j < outs_len
                    invariant
                        self.wf(),
                        m == self.message_modulus,
                        base == m as int,
                        cap == pow(base, nb as nat),
                        nbg == nb as int,
                        2 <= kk,
                        kk * (m - 1) <= self.max_degree(),
                        i < nb,
                        oldcols.len() == nb,
                        results@.len() == nb,
                        oldcol == oldcols[i as int],
                        ch == oldcol.len() as int / kk,
                        ch * kk <= oldcol.len(),
                        outs_len == results@[i as int].1@.len(),
                        outs_len as int == ch,
                        j <= outs_len,
                        forall|a: int, b: int|
                            0 <= a < oldcols.len() && 0 <= b < oldcols[a].len() ==> (
                            #[trigger] oldcols[a][b]).value <= oldcols[a][b].degree
                                && oldcols[a][b].degree < m,
                        forall|b: int|
                            0 <= b < results@[i as int].1@.len() ==> (
                            #[trigger] results@[i as int].1@[b]).0 == chunk_msg_block(
                                *self,
                                chunk_at(oldcol, kk, b),
                            ),
                        forall|b: int|
                            0 <= b < results@[i as int].1@.len() && (i as int + 1 < nbg
                                || collect_carries) ==> (#[trigger] results@[i as int].1@[b]).1
                                == Some(chunk_carry_block(*self, chunk_at(oldcol, kk, b))),
                        forall|b: int|
                            0 <= b < results@[i as int].1@.len() && !(i as int + 1 < nbg
                                || collect_carries) ==> (#[trigger] results@[i as int].1@[b]).1
                                is None,
                        col_sum(col@) == start_col_sum + chunks_msg_total(oldcol, kk, base, j as int),
                        forall|b: int|
                            0 <= b < col@.len() ==> (#[trigger] col@[b]).value <= col@[b].degree
                                && col@[b].degree < m,
                        col@.len() == kept.len() + j,
                        kept.len() == oldcol.len() - ch * kk,
                        i as int + 1 < nbg ==> col_sum(next_carry@) == chunks_carry_total(
                            oldcol,
                            kk,
                            base,
                            j as int,
                        ) && next_carry@.len() == j,
                        i as int + 1 >= nbg ==> next_carry@.len() == 0,
                        forall|b: int|
                            0 <= b < next_carry@.len() ==> (#[trigger] next_carry@[b]).value
                                <= next_carry@[b].degree && next_carry@[b].degree < m,
                        i as int + 1 == nbg && collect_carries ==> col_sum(collected@) == col_sum(
                            mid_collected,
                        ) + chunks_carry_total(oldcol, kk, base, j as int) && dropped
                            == mid_dropped,
                        i as int + 1 == nbg && !collect_carries ==> dropped == mid_dropped
                            + chunks_carry_total(oldcol, kk, base, j as int) && collected@
                            == mid_collected,
                        i as int + 1 < nbg ==> collected@ == mid_collected && dropped
                            == mid_dropped,
                        forall|b: int|
                            0 <= b < collected@.len() ==> (#[trigger] collected@[b]).value
                                <= collected@[b].degree && collected@[b].degree < m,
                    decreases outs_len - j,
                {
                    proof {
                        assert((j as int + 1) * kk <= ch * kk) by (nonlinear_arith)
                            requires
                                j as int + 1 <= ch,
                                kk >= 1;
                        assert((j as int) * kk + kk == (j as int + 1) * kk) by (nonlinear_arith);
                        vstd::arithmetic::mul::lemma_mul_nonnegative(j as int, kk);
                        lemma_chunk_blocks_wf(*self, chunk_at(oldcol, kk, j as int), kk);
                        lemma_col_sum_push(col@, results@[i as int].1@[j as int].0);
                    }
                    let pair = results[i].1[j];
                    col.push(pair.0);
                    match pair.1 {
                        Some(c) => {
                            if i + 1 < nb {
                                proof {
                                    lemma_col_sum_push(next_carry@, c);
                                }
                                next_carry.push(c);
                            } else {
                                proof {
                                    lemma_col_sum_push(collected@, c);
                                }
                                if collect_carries {
                                    collected.push(c);
                                }
                            }
                        },
                        None => {
                            proof {
                                dropped = dropped + col_sum(chunk_at(oldcol, kk, j as int))
                                    / base;
                            }
                        },
                    }
                    j = j + 1;
                }
                // absorb the carries shed by the previous column
                let ghost before_append = col@;
                let co_len = carry_over.len();
                let mut t: usize = 0;
                while t < co_len
                    invariant
                        self.wf(),
                        m == self.message_modulus,
                        co_len == carry_over@.len(),
                        t <= co_len,
                        col@.len() == before_append.len() + t,
                        col_sum(col@) == col_sum(before_append) + col_sum(
                            carry_over@.take(t as int),
                        ),
                        forall|b: int|
                            0 <= b < carry_over@.len() ==> (#[trigger] carry_over@[b]).value
                                <= carry_over@[b].degree && carry_over@[b].degree < m,
                        forall|b: int|
                            0 <= b < before_append.len() ==> (#[trigger] before_append[b]).value
                                <= before_append[b].degree && before_append[b].degree < m,
                        forall|b: int|
                            0 <= b < col@.len() ==> (#[trigger] col@[b]).value <= col@[b].degree
                                && col@[b].degree < m,
                    decreases co_len - t,
                {
                    proof {
                        lemma_col_sum_push(col@, carry_over@[t as int]);
                        assert(carry_over@.take(t as int + 1) =~= carry_over@.take(t as int).push(
                            carry_over@[t as int],
                        ));
                        lemma_col_sum_push(carry_over@.take(t as int), carry_over@[t as int]);
                    }
                    col.push(carry_over[t]);
                    t = t + 1;
                }
                proof {
                    assert(carry_over@.take(co_len as int) =~= carry_over@);
                }
                let ghost cpsum = col_sum(carry_over@);
                let ghost cp_len = carry_over@.len() as int;
                carry_over = next_carry;
                proof {
                    // Everything this column held is accounted for: the
                    // kept tail, the extracted messages, and the carries
                    // (forwarded, collected, or dropped).
                    lemma_chunks_conservation(oldcol, kk, base, ch);
                    assert(oldcol =~= oldcol.take(ch * kk) + kept);
                    lemma_col_sum_concat(oldcol.take(ch * kk), kept);
                    lemma_colsval_push(cols_seq(new_columns@), col@, base);
                    assert(cols_seq(new_columns@.push(col)) =~= cols_seq(new_columns@).push(col@));
                    assert(oldcols.take(i as int + 1) =~= oldcols.take(i as int).push(oldcol));
                    lemma_colsval_push(oldcols.take(i as int), oldcol, base);
                    assert(pow(base, (i + 1) as nat) == base * pow(base, i as nat)) by {
                        vstd::arithmetic::power::lemma_pow_adds(base, 1, i as nat);
                        vstd::arithmetic::power::lemma_pow1(base);
                    }
                    let p = pow(base, i as nat);
                    let ksum = col_sum(kept);
                    let msum = chunks_msg_total(oldcol, kk, base, ch);
                    let csum = chunks_carry_total(oldcol, kk, base, ch);
                    assert(col_sum(col@) == ksum + msum + cpsum);
                    assert(col_sum(oldcol) == msum + base * csum + ksum);
                    assert(p * (ksum + msum + cpsum) == p * ksum + p * msum + p * cpsum)
                        by (nonlinear_arith);
                    assert(p * (msum + base * csum + ksum) == p * msum + (base * p) * csum + p
                        * ksum) by (nonlinear_arith);
                    let delta_pre = (col_sum(mid_collected) - col_sum(start_collected)) + (
                    mid_dropped - start_dropped);
                    if i as int + 1 < nbg {
                        vstd::arithmetic::mul::lemma_mul_by_zero_is_zero(cap);
                    } else {
                        assert(pow(base, (i + 1) as nat) == cap);
                        vstd::arithmetic::mul::lemma_mul_by_zero_is_zero(base * p);
                        vstd::arithmetic::mul::lemma_mul_is_distributive_add(cap, delta_pre, csum);
                    }
                    // The weighted block count shrinks by at least the
                    // number of chunks this column shed.
                    lemma_wt_push(cols_seq(new_columns@), col@, nbg);
                    lemma_wt_push(oldcols.take(i as int), oldcol, nbg);
                    lemma_total_chunks_push(oldcols.take(i as int), oldcol, kk);
                    let clen = col@.len() as int;
                    let cn = carry_over@.len() as int;
                    assert((nbg - i) * clen + (nbg - i - 1) * cn + ch <= (nbg - i) * (
                    oldcol.len() as int) + (nbg - i) * cp_len) by (nonlinear_arith)
                        requires
                            clen == oldcol.len() - ch * kk + ch + cp_len,
                            0 <= cn <= ch,
                            kk >= 2,
                            ch * kk <= oldcol.len(),
                            1 <= nbg - i,
                            0 <= cp_len;
                }
                new_columns.push(col);
                i = i + 1;
            }
            proof {
                assert(oldcols.take(nbg) =~= oldcols);
                assert(carry_over@ =~= Seq::<Block>::empty());
                assert(col_sum(carry_over@) == 0);
                vstd::arithmetic::mul::lemma_mul_by_zero_is_zero(pow(base, nb as nat));
                vstd::arithmetic::mul::lemma_mul_is_distributive_add(
                    cap,
                    (col_sum(collected@) - col_sum(start_collected)) + (dropped - start_dropped),
                    col_sum(start_collected) + start_dropped,
                );
            }
            columns = new_columns;
            go = any_column_over(&columns, k);
            proof {
                lemma_wt_nonneg(cols_seq(columns@), nbg);
                let i0 = choose|a: int|
                    0 <= a < oldviews.len() && (#[trigger] oldviews[a])@.len() > k;
                lemma_total_chunks_member(oldcols, kk, i0);
                vstd::arithmetic::div_mod::lemma_div_basics(kk);
                vstd::arithmetic::div_mod::lemma_div_is_ordered(kk, oldcols[i0].len() as int, kk);
            }
        }
        // Fold what is left of every column into one dirty block each.
        let mut blocks: Vec<Block> = Vec::new();
        let mut i: usize = 0;
        while i < nb
            invariant
                self.wf(),
                m == self.message_modulus,
                base == m as int,
                kk == k as int,
                kk * (m - 1) <= self.max_degree(),
                columns@.len() == nb,
                forall|a: int|
                    0 <= a < columns@.len() ==> (#[trigger] columns@[a])@.len() <= kk,
                forall|a: int, b: int|
                    0 <= a < columns@.len() && 0 <= b < columns@[a]@.len() ==> (
                    #[trigger] columns@[a]@[b]).value <= columns@[a]@[b].degree
                        && columns@[a]@[b].degree < m,
                i <= nb,
                blocks@.len() == i,
                forall|a: int|
                    0 <= a < i ==> (#[trigger] blocks@[a]).value == col_sum(cols_seq(columns@)[a])
                        && blocks@[a].value <= blocks@[a].degree && blocks@[a].degree
                        <= self.max_degree(),
            decreases nb - i,
        {
            proof {
                assert((columns@[i as int]@.len() as int) * (m - 1) <= kk * (m - 1))
                    by (nonlinear_arith)
                    requires
                        columns@[i as int]@.len() <= kk,
                        m >= 1;
            }
            let folded = self.fold_column(&columns[i]);
            blocks.push(folded);
            i = i + 1;
        }
        let result = RadixCiphertext { blocks };
        proof {
            lemma_eval_colsval(result.blocks@, cols_seq(columns@), base);
            vstd::arithmetic::div_mod::lemma_mod_multiples_vanish(
                col_sum(collected@) + dropped,
                self.radix_value(result),
                cap,
            );
        }
        let cc: Option<Vec<Block>> = if collect_carries {
            Some(collected)
        } else {
            None
        };
        Some(PartialSum { result, collected_carries: cc })
    }
}

/// Whether any column still holds more blocks than one extraction can
/// absorb.
pub(crate) fn any_column_over(columns: &Vec<Vec<Block>>, k: usize) -> (r: bool)
    ensures
        r <==> exists|i: int| 0 <= i < columns@.len() && (#[trigger] columns@[i])@.len() > k,
{
    let n = columns.len();
    let mut i: usize = 0;
    while i < n
        invariant
            i <= n,
            n == columns@.len(),
            forall|j: int| 0 <= j < i ==> (#[trigger] columns@[j])@.len() <= k,
        decreases n - i,
    {
        if columns[i].len() > k {
            return true;
        }
        i = i + 1;
    }
    false
}

impl ServerKey {
    /// Carry-save summation followed by a full carry propagation: the
    /// result is clean and holds the sum of the terms modulo the
    /// ciphertext capacity.  `None` exactly on an empty term list.
    pub fn unchecked_sum_ciphertexts_vec_parallelized(&self, terms: Vec<RadixCiphertext>) -> (r:
        Option<RadixCiphertext>)
        requires
            self.wf(),
            forall|t: int|
                0 <= t < terms@.len() ==> self.radix_wf(#[trigger] terms@[t]) && self.radix_clean(
                    terms@[t],
                ),
            forall|t: int|
                0 <= t < terms@.len() ==> (#[trigger] terms@[t]).blocks@.len()
                    == terms@[0].blocks@.len(),
        ensures
            r is Some <==> terms@.len() >= 1,
            r is Some ==> r.unwrap().blocks@.len() == terms@[0].blocks@.len(),
            r is Some ==> self.radix_wf(r.unwrap()) && self.radix_clean(r.unwrap()),
            r is Some ==> self.radix_value(r.unwrap()) == sum_values(*self, terms@)
                % self.radix_capacity(terms@[0].blocks@.len() as nat),
    {
        let ghost tseq = terms@;
        let ghost cap = self.radix_capacity(terms@[0].blocks@.len() as nat);
        let partial = self.unchecked_partial_sum_ciphertexts_vec_parallelized(terms, false);
        match partial {
            None => None,
            Some(ps) => {
                let mut result = ps.result;
                self.full_propagate_parallelized(&mut result);
                proof {
                    vstd::arithmetic::power::lemma_pow_positive(
                        self.message_modulus as int,
                        tseq[0].blocks@.len() as nat,
                    );
                    vstd::arithmetic::div_mod::lemma_mod_twice(sum_values(*self, tseq), cap);
                }
                Some(result)
            },
        }
    }

    /// As [`Self::unchecked_sum_ciphertexts_vec_parallelized`], over
    /// borrowed terms.
    pub fn unchecked_sum_ciphertexts_parallelized(&self, ciphertexts: &Vec<RadixCiphertext>) -> (r:
        Option<RadixCiphertext>)
        requires
            self.wf(),
            forall|t: int|
                0 <= t < ciphertexts@.len() ==> self.radix_wf(#[trigger] ciphertexts@[t])
                    && self.radix_clean(ciphertexts@[t]),
            forall|t: int|
                0 <= t < ciphertexts@.len() ==> (#[trigger] ciphertexts@[t]).blocks@.len()
                    == ciphertexts@[0].blocks@.len(),
        ensures
            r is Some <==> ciphertexts@.len() >= 1,
            r is Some ==> r.unwrap().blocks@.len() == ciphertexts@[0].blocks@.len(),
            r is Some ==> self.radix_wf(r.unwrap()) && self.radix_clean(r.unwrap()),
            r is Some ==> self.radix_value(r.unwrap()) == sum_values(*self, ciphertexts@)
                % self.radix_capacity(ciphertexts@[0].blocks@.len() as nat),
    {
        let owned = crate::radix::clone_terms(ciphertexts);
        proof {
            assert forall|t: int| 0 <= t < owned@.len() implies self.radix_wf(#[trigger] owned@[t])
                && self.radix_clean(owned@[t]) && owned@[t].blocks@.len()
                == owned@[0].blocks@.len() by {
                crate::radix::lemma_same_blocks_same_radix(*self, owned@[t], ciphertexts@[t]);
            }
            lemma_sum_values_blocks_eq(*self, owned@, ciphertexts@);
        }
        self.unchecked_sum_ciphertexts_vec_parallelized(owned)
    }

    /// The fully checked summation: clean inputs in, a clean sum out.
    pub fn sum_ciphertexts_parallelized(&self, ciphertexts: &Vec<RadixCiphertext>) -> (r: Option<
        RadixCiphertext,
    >)
        requires
            self.wf(),
            forall|t: int|
                0 <= t < ciphertexts@.len() ==> self.radix_wf(#[trigger] ciphertexts@[t])
                    && self.radix_clean(ciphertexts@[t]),
            forall|t: int|
                0 <= t < ciphertexts@.len() ==> (#[trigger] ciphertexts@[t]).blocks@.len()
                    == ciphertexts@[0].blocks@.len(),
        ensures
            r is Some <==> ciphertexts@.len() >= 1,
            r is Some ==> r.unwrap().blocks@.len() == ciphertexts@[0].blocks@.len(),
            r is Some ==> self.radix_wf(r.unwrap()) && self.radix_clean(r.unwrap()),
            r is Some ==> self.radix_value(r.unwrap()) == sum_values(*self, ciphertexts@)
                % self.radix_capacity(ciphertexts@[0].blocks@.len() as nat),
    {
        self.unchecked_sum_ciphertexts_parallelized(ciphertexts)
    }

    /// The smart summation: any dirty input term is propagated first, in
    /// place, then the checked summation runs.  The result is the sum of
    /// the propagated inputs, each already reduced modulo the capacity.
    pub fn smart_sum_ciphertexts_parallelized(&self, ciphertexts: &mut Vec<RadixCiphertext>) -> (r:
        Option<RadixCiphertext>)
        requires
            self.wf(),
            forall|t: int|
                0 <= t < old(ciphertexts)@.len() ==> self.radix_wf(#[trigger] old(ciphertexts)@[t]),
            forall|t: int|
                0 <= t < old(ciphertexts)@.len() ==> (#[trigger] old(
                    ciphertexts,
                )@[t]).blocks@.len() == old(ciphertexts)@[0].blocks@.len(),
        ensures
            final(ciphertexts)@.len() == old(ciphertexts)@.len(),
            forall|t: int|
                0 <= t < final(ciphertexts)@.len() ==> self.radix_wf(
                    #[trigger] final(ciphertexts)@[t],
                ) && self.radix_clean(final(ciphertexts)@[t]) && final(ciphertexts)@[t].blocks@.len()
                    == old(ciphertexts)@[t].blocks@.len() && self.radix_value(final(ciphertexts)@[t])
                    == self.radix_value(old(ciphertexts)@[t]) % self.radix_capacity(
                    old(ciphertexts)@[t].blocks@.len() as nat,
                ),
            r is Some <==> old(ciphertexts)@.len() >= 1,
            r is Some ==> self.radix_wf(r.unwrap()) && self.radix_clean(r.unwrap()),
            r is Some ==> r.unwrap().blocks@.len() == old(ciphertexts)@[0].blocks@.len(),
            r is Some ==> self.radix_value(r.unwrap()) == sum_values(*self, old(ciphertexts)@)
                % self.radix_capacity(old(ciphertexts)@[0].blocks@.len() as nat),
    {
        let ghost tseq = old(ciphertexts)@;
        let n = ciphertexts.len();
        let mut processed: Vec<RadixCiphertext> = Vec::new();
        let mut i: usize = 0;
        while i < n
            invariant
                self.wf(),
                tseq == ciphertexts@,
                n == tseq.len(),
                forall|t: int| 0 <= t < tseq.len() ==> self.radix_wf(#[trigger] tseq[t]),
                i <= n,
                processed@.len() == i,
                forall|t: int|
                    0 <= t < i ==> self.radix_wf(#[trigger] processed@[t]) && self.radix_clean(
                        processed@[t],
                    ) && processed@[t].blocks@.len() == tseq[t].blocks@.len() && self.radix_value(
                        processed@[t],
                    ) == self.radix_value(tseq[t]) % self.radix_capacity(
                        tseq[t].blocks@.len() as nat,
                    ),
            decreases n - i,
        {
            let mut ct = crate::radix::clone_radix(&ciphertexts[i]);
            proof {
                crate::radix::lemma_same_blocks_same_radix(*self, ct, tseq[i as int]);
            }
            if !self.block_carries_are_empty(&ct) {
                self.full_propagate_parallelized(&mut ct);
            } else {
                proof {
                    crate::radix::lemma_eval_bounds(ct.blocks@, self.message_modulus as int);
                    vstd::arithmetic::power::lemma_pow_positive(
                        self.message_modulus as int,
                        ct.blocks@.len() as nat,
                    );
                    vstd::arithmetic::div_mod::lemma_small_mod(
                        self.radix_value(ct) as nat,
                        self.radix_capacity(ct.blocks@.len() as nat) as nat,
                    );
                }
            }
            processed.push(ct);
            i = i + 1;
        }
        *ciphertexts = processed;
        let r = self.unchecked_sum_ciphertexts_parallelized(ciphertexts);
        proof {
            let cap = self.radix_capacity(tseq[0].blocks@.len() as nat);
            if tseq.len() >= 1 {
                vstd::arithmetic::power::lemma_pow_positive(
                    self.message_modulus as int,
                    tseq[0].blocks@.len() as nat,
                );
                lemma_sum_values_mod(*self, ciphertexts@, tseq, cap);
                vstd::arithmetic::div_mod::lemma_mod_twice(sum_values(*self, tseq), cap);
            }
        }
        r
    }

    /// Summation of unsigned terms that also reports whether the true
    /// sum exceeded the ciphertext capacity.
    ///
    /// The terms are reduced with carry collection on; the dirty result
    /// is split into its message ladder and its carry ladder (the
    /// carries shifted up one position, the top one joining the
    /// collected carries); adding the two ladders yields the clean
    /// result and an overflow flag, which is ORed with "some collected
    /// carry is not zero".
    pub fn unchecked_unsigned_overflowing_sum_ciphertexts_vec_parallelized(
        &self,
        terms: Vec<RadixCiphertext>,
    ) -> (r: Option<(RadixCiphertext, BooleanBlock)>)
        requires
            self.wf(),
            forall|t: int|
                0 <= t < terms@.len() ==> self.radix_wf(#[trigger] terms@[t]) && self.radix_clean(
                    terms@[t],
                ),
            forall|t: int|
                0 <= t < terms@.len() ==> (#[trigger] terms@[t]).blocks@.len()
                    == terms@[0].blocks@.len(),
            terms@.len() >= 1 ==> terms@[0].blocks@.len() >= 1,
        ensures
            r is Some <==> terms@.len() >= 1,
            r is Some ==> r.unwrap().0.blocks@.len() == terms@[0].blocks@.len(),
            r is Some ==> self.radix_wf(r.unwrap().0) && self.radix_clean(r.unwrap().0),
            r is Some ==> self.radix_value(r.unwrap().0) == sum_values(*self, terms@)
                % self.radix_capacity(terms@[0].blocks@.len() as nat),
            r is Some ==> r.unwrap().1.wf(),
            r is Some ==> (r.unwrap().1.spec_value() == 1 <==> sum_values(*self, terms@)
                >= self.radix_capacity(terms@[0].blocks@.len() as nat)),
    {
        let m = self.message_modulus;
        let ghost base = m as int;
        let ghost tseq = terms@;
        let ghost total = sum_values(*self, tseq);
        if terms.len() == 0 {
            return None;
        }
        let nb = terms[0].blocks.len();
        let ghost cap = pow(base, nb as nat);
        proof {
            vstd::arithmetic::power::lemma_pow_positive(base, nb as nat);
        }
        if terms.len() == 1 {
            let mut terms_own = terms;
            let only = terms_own.pop().unwrap();
            let flag = BooleanBlock::new_unchecked(self.create_trivial(0));
            proof {
                assert(tseq.drop_first() =~= Seq::<RadixCiphertext>::empty());
                assert(sum_values(*self, tseq.drop_first()) == 0);
                crate::radix::lemma_eval_bounds(only.blocks@, base);
                vstd::arithmetic::div_mod::lemma_small_mod(
                    self.radix_value(only) as nat,
                    cap as nat,
                );
            }
            return Some((only, flag));
        }
        if terms.len() == 2 {
            let pair = self.unsigned_overflowing_add_parallelized(&terms[0], &terms[1]);
            proof {
                assert(tseq.drop_first().drop_first() =~= Seq::<RadixCiphertext>::empty());
                assert(sum_values(*self, tseq.drop_first().drop_first()) == 0);
                assert(tseq.drop_first()[0] == tseq[1]);
                assert(sum_values(*self, tseq.drop_first()) == self.radix_value(tseq[1])
                    + sum_values(*self, tseq.drop_first().drop_first()));
                assert(sum_values(*self, tseq) == self.radix_value(tseq[0]) + self.radix_value(
                    tseq[1],
                ));
            }
            return Some(pair);
        }
        let partial = self.unchecked_partial_sum_ciphertexts_vec_parallelized(terms, true);
        let ps = partial.unwrap();
        let dirty = ps.result;
        let mut carries = match ps.collected_carries {
            Some(c) => c,
            None => Vec::new(),
        };
        let ghost carries0 = carries@;
        proof {
            assert(self.radix_value(dirty) + cap * col_sum(carries0) == total);
            assert(forall|i: int|
                0 <= i < dirty.blocks@.len() ==> self.block_wf(#[trigger] dirty.blocks@[i]));
        }
        let message_blocks = crate::parallel::par_extract_messages(self, &dirty.blocks);
        let mut carry_blocks = crate::parallel::par_extract_carries(self, &dirty.blocks);
        let ghost cfull = carry_blocks@;
        proof {
            assert forall|i: int| 0 <= i < dirty.blocks@.len() implies (
            #[trigger] message_blocks@[i]).value <= message_blocks@[i].degree
                && message_blocks@[i].degree < m by {
                lemma_extract_block_wf(*self, dirty.blocks@[i]);
            }
            assert forall|i: int| 0 <= i < dirty.blocks@.len() implies (#[trigger] cfull[i]).value
                <= cfull[i].degree && cfull[i].degree < m by {
                lemma_extract_block_wf(*self, dirty.blocks@[i]);
            }
            lemma_eval_split_mod_div(dirty.blocks@, message_blocks@, cfull, base);
        }
        let last_carry = carry_blocks.pop().unwrap();
        carries.push(last_carry);
        let zero = self.create_trivial(0);
        carry_blocks.insert(0, zero);
        let msg_ct = RadixCiphertext { blocks: message_blocks };
        let carry_ct = RadixCiphertext { blocks: carry_blocks };
        proof {
            let ctail = cfull.take(nb as int - 1);
            assert(carry_ct.blocks@.drop_first() =~= ctail);
            assert(cfull =~= ctail.push(cfull[nb as int - 1]));
            crate::radix::lemma_eval_push(ctail, cfull[nb as int - 1], base);
            let p1 = pow(base, (nb - 1) as nat);
            assert(cap == base * p1) by {
                vstd::arithmetic::power::lemma_pow_adds(base, 1, (nb - 1) as nat);
                vstd::arithmetic::power::lemma_pow1(base);
            }
            let et = radix_eval(ctail, base);
            let cl = last_carry.value as int;
            assert(base * (et + p1 * cl) == base * et + (base * p1) * cl) by (nonlinear_arith);
            // the carry ladder, shifted up one position
            assert(radix_eval(carry_ct.blocks@, base) == 0 + base * et);
            assert(radix_eval(dirty.blocks@, base) == radix_eval(msg_ct.blocks@, base)
                + radix_eval(carry_ct.blocks@, base) + cap * cl);
            assert forall|i: int| 0 <= i < msg_ct.blocks@.len() implies self.radix_block_wf(
                #[trigger] msg_ct.blocks@[i],
            ) && self.block_clean(msg_ct.blocks@[i]) by {}
            assert forall|i: int| 0 <= i < carry_ct.blocks@.len() implies self.radix_block_wf(
                #[trigger] carry_ct.blocks@[i],
            ) && self.block_clean(carry_ct.blocks@[i]) by {
                if i >= 1 {
                    assert(carry_ct.blocks@[i] == cfull[i - 1]);
                }
            }
            assert(forall|b: int|
                0 <= b < carries@.len() ==> (#[trigger] carries@[b]).value <= carries@[b].degree
                    && carries@[b].degree < m);
        }
        let (result, overflowed) = self.unsigned_overflowing_add_parallelized(&msg_ct, &carry_ct);
        // Some collected carry is not zero?  Blocks of degree zero are
        // provably zero and dropped before the comparison.
        let mut retained: Vec<Block> = Vec::new();
        let n_carries = carries.len();
        let mut t: usize = 0;
        while t < n_carries
            invariant
                self.wf(),
                m == self.message_modulus,
                n_carries == carries@.len(),
                t <= n_carries,
                forall|b: int|
                    0 <= b < carries@.len() ==> (#[trigger] carries@[b]).value <= carries@[b].degree
                        && carries@[b].degree < m,
                forall|b: int|
                    0 <= b < retained@.len() ==> (#[trigger] retained@[b]).value
                        <= retained@[b].degree && retained@[b].degree < m,
                col_sum(retained@) == col_sum(carries@.take(t as int)),
            decreases n_carries - t,
        {
            proof {
                assert(carries@.take(t as int + 1) =~= carries@.take(t as int).push(
                    carries@[t as int],
                ));
                lemma_col_sum_push(carries@.take(t as int), carries@[t as int]);
                if carries@[t as int].degree != 0 {
                    lemma_col_sum_push(retained@, carries@[t as int]);
                }
            }
            let b = carries[t];
            if b.degree != 0 {
                retained.push(b);
            }
            t = t + 1;
        }
        proof {
            assert(carries@.take(n_carries as int) =~= carries@);
        }
        let carries_ct = RadixCiphertext { blocks: retained };
        let any_sum_overflowed = self.scalar_ne_parallelized(&carries_ct, 0);
        let flag = self.boolean_bitor(&overflowed, &any_sum_overflowed);
        proof {
            lemma_eval_zero_iff(carries_ct.blocks@, base);
            lemma_col_sum_push(carries0, last_carry);
            let s = overflowed.spec_value() + col_sum(carries@);
            let e = self.radix_value(result);
            assert(cap * (col_sum(carries0) + last_carry.value) == cap * col_sum(carries0) + cap
                * (last_carry.value as int)) by (nonlinear_arith);
            assert(cap * s == cap * (overflowed.spec_value() as int) + cap * col_sum(carries@))
                by (nonlinear_arith)
                requires
                    s == overflowed.spec_value() + col_sum(carries@);
            assert(e + cap * s == total);
            crate::radix::lemma_eval_bounds(result.blocks@, base);
            if s >= 1 {
                vstd::arithmetic::mul::lemma_mul_inequality(1, s, cap);
                vstd::arithmetic::mul::lemma_mul_is_commutative(s, cap);
            } else {
                vstd::arithmetic::mul::lemma_mul_by_zero_is_zero(cap);
            }
            vstd::arithmetic::mul::lemma_mul_is_commutative(cap, s);
            vstd::arithmetic::div_mod::lemma_fundamental_div_mod_converse(total, cap, s, e);
        }
        Some((result, flag))
    }

    /// As the vector variant, over borrowed terms.
    pub fn unchecked_unsigned_overflowing_sum_ciphertexts_parallelized(
        &self,
        ciphertexts: &Vec<RadixCiphertext>,
    ) -> (r: Option<(RadixCiphertext, BooleanBlock)>)
        requires
            self.wf(),
            forall|t: int|
                0 <= t < ciphertexts@.len() ==> self.radix_wf(#[trigger] ciphertexts@[t])
                    && self.radix_clean(ciphertexts@[t]),
            forall|t: int|
                0 <= t < ciphertexts@.len() ==> (#[trigger] ciphertexts@[t]).blocks@.len()
                    == ciphertexts@[0].blocks@.len(),
            ciphertexts@.len() >= 1 ==> ciphertexts@[0].blocks@.len() >= 1,
        ensures
            r is Some <==> ciphertexts@.len() >= 1,
            r is Some ==> r.unwrap().0.blocks@.len() == ciphertexts@[0].blocks@.len(),
            r is Some ==> self.radix_wf(r.unwrap().0) && self.radix_clean(r.unwrap().0),
            r is Some ==> self.radix_value(r.unwrap().0) == sum_values(*self, ciphertexts@)
                % self.radix_capacity(ciphertexts@[0].blocks@.len() as nat),
            r is Some ==> r.unwrap().1.wf(),
            r is Some ==> (r.unwrap().1.spec_value() == 1 <==> sum_values(*self, ciphertexts@)
                >= self.radix_capacity(ciphertexts@[0].blocks@.len() as nat)),
    {
        let owned = crate::radix::clone_terms(ciphertexts);
        proof {
            assert forall|t: int| 0 <= t < owned@.len() implies self.radix_wf(#[trigger] owned@[t])
                && self.radix_clean(owned@[t]) && owned@[t].blocks@.len()
                == owned@[0].blocks@.len() by {
                crate::radix::lemma_same_blocks_same_radix(*self, owned@[t], ciphertexts@[t]);
            }
            lemma_sum_values_blocks_eq(*self, owned@, ciphertexts@);
        }
        self.unchecked_unsigned_overflowing_sum_ciphertexts_vec_parallelized(owned)
    }

    /// The checked overflow-reporting summation over clean terms.
    pub fn unsigned_overflowing_sum_ciphertexts_parallelized(
        &self,
        ciphertexts: &Vec<RadixCiphertext>,
    ) -> (r: Option<(RadixCiphertext, BooleanBlock)>)
        requires
            self.wf(),
            forall|t: int|
                0 <= t < ciphertexts@.len() ==> self.radix_wf(#[trigger] ciphertexts@[t])
                    && self.radix_clean(ciphertexts@[t]),
            forall|t: int|
                0 <= t < ciphertexts@.len() ==> (#[trigger] ciphertexts@[t]).blocks@.len()
                    == ciphertexts@[0].blocks@.len(),
            ciphertexts@.len() >= 1 ==> ciphertexts@[0].blocks@.len() >= 1,
        ensures
            r is Some <==> ciphertexts@.len() >= 1,
            r is Some ==> r.unwrap().0.blocks@.len() == ciphertexts@[0].blocks@.len(),
            r is Some ==> self.radix_wf(r.unwrap().0) && self.radix_clean(r.unwrap().0),
            r is Some ==> self.radix_value(r.unwrap().0) == sum_values(*self, ciphertexts@)
                % self.radix_capacity(ciphertexts@[0].blocks@.len() as nat),
            r is Some ==> r.unwrap().1.wf(),
            r is Some ==> (r.unwrap().1.spec_value() == 1 <==> sum_values(*self, ciphertexts@)
                >= self.radix_capacity(ciphertexts@[0].blocks@.len() as nat)),
    {
        self.unchecked_unsigned_overflowing_sum_ciphertexts_parallelized(ciphertexts)
    }

    /// The smart overflow-reporting summation: any dirty input is
    /// propagated first, in place.
    pub fn smart_unsigned_overflowing_sum_ciphertexts_parallelized(
        &self,
        ciphertexts: &mut Vec<RadixCiphertext>,
    ) -> (r: Option<(RadixCiphertext, BooleanBlock)>)
        requires
            self.wf(),
            forall|t: int|
                0 <= t < old(ciphertexts)@.len() ==> self.radix_wf(#[trigger] old(ciphertexts)@[t]),
            forall|t: int|
                0 <= t < old(ciphertexts)@.len() ==> (#[trigger] old(
                    ciphertexts,
                )@[t]).blocks@.len() == old(ciphertexts)@[0].blocks@.len(),
            old(ciphertexts)@.len() >= 1 ==> old(ciphertexts)@[0].blocks@.len() >= 1,
        ensures
            final(ciphertexts)@.len() == old(ciphertexts)@.len(),
            r is Some <==> old(ciphertexts)@.len() >= 1,
            r is Some ==> self.radix_wf(r.unwrap().0) && self.radix_clean(r.unwrap().0),
            r is Some ==> r.unwrap().0.blocks@.len() == old(ciphertexts)@[0].blocks@.len(),
            r is Some ==> self.radix_value(r.unwrap().0) == sum_values(
                *self,
                final(ciphertexts)@,
            ) % self.radix_capacity(old(ciphertexts)@[0].blocks@.len() as nat),
            r is Some ==> r.unwrap().1.wf(),
            r is Some ==> (r.unwrap().1.spec_value() == 1 <==> sum_values(
                *self,
                final(ciphertexts)@,
            ) >= self.radix_capacity(old(ciphertexts)@[0].blocks@.len() as nat)),
            forall|t: int|
                0 <= t < final(ciphertexts)@.len() ==> self.radix_wf(
                    #[trigger] final(ciphertexts)@[t],
                ) && self.radix_clean(final(ciphertexts)@[t]) && self.radix_value(
                    final(ciphertexts)@[t],
                ) == self.radix_value(old(ciphertexts)@[t]) % self.radix_capacity(
                    old(ciphertexts)@[t].blocks@.len() as nat,
                ),
    {
        let ghost tseq = old(ciphertexts)@;
        let n = ciphertexts.len();
        let mut processed: Vec<RadixCiphertext> = Vec::new();
        let mut i: usize = 0;
        while i < n
            invariant
                self.wf(),
                tseq == ciphertexts@,
                n == tseq.len(),
                forall|t: int| 0 <= t < tseq.len() ==> self.radix_wf(#[trigger] tseq[t]),
                i <= n,
                processed@.len() == i,
                forall|t: int|
                    0 <= t < i ==> self.radix_wf(#[trigger] processed@[t]) && self.radix_clean(
                        processed@[t],
                    ) && processed@[t].blocks@.len() == tseq[t].blocks@.len() && self.radix_value(
                        processed@[t],
                    ) == self.radix_value(tseq[t]) % self.radix_capacity(
                        tseq[t].blocks@.len() as nat,
                    ),
            decreases n - i,
        {
            let mut ct = crate::radix::clone_radix(&ciphertexts[i]);
            proof {
                crate::radix::lemma_same_blocks_same_radix(*self, ct, tseq[i as int]);
            }
            if !self.block_carries_are_empty(&ct) {
                self.full_propagate_parallelized(&mut ct);
            } else {
                proof {
                    crate::radix::lemma_eval_bounds(ct.blocks@, self.message_modulus as int);
                    vstd::arithmetic::power::lemma_pow_positive(
                        self.message_modulus as int,
                        ct.blocks@.len() as nat,
                    );
                    vstd::arithmetic::div_mod::lemma_small_mod(
                        self.radix_value(ct) as nat,
                        self.radix_capacity(ct.blocks@.len() as nat) as nat,
                    );
                }
            }
            processed.push(ct);
            i = i + 1;
        }
        *ciphertexts = processed;
        self.unchecked_unsigned_overflowing_sum_ciphertexts_parallelized(ciphertexts)
    }
}

} // verus!
