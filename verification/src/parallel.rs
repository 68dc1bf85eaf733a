//! Fork-join parallel regions, executed on rayon's work-stealing pool.
//!
//! Each wrapper maps a verified per-element function over a vector in
//! parallel and collects the results in order; its contract restates,
//! element by element, the contract of the function it maps.  These are
//! the only places the crate trusts an outside library: rayon's indexed
//! parallel iterators visit every element exactly once and `collect`
//! keeps input order.

use rayon::iter::IndexedParallelIterator;
use rayon::iter::IntoParallelIterator;
use rayon::iter::IntoParallelRefIterator;
use rayon::iter::ParallelIterator;
use vstd::prelude::*;

use crate::block::Block;
use crate::server_key::ServerKey;
use crate::sum::chunk_at;
use crate::sum::chunk_carry_block;
use crate::sum::chunk_msg_block;

verus! {

/// Relies on rayon's `into_par_iter().zip(..).map(..).collect()` over
/// indexed parallel iterators: `ServerKey::reduce_column` runs once per
/// column, in parallel, and the results are collected in input order.
#[verifier::external_body]
pub(crate) fn par_reduce_columns(
    sk: &ServerKey,
    columns: Vec<Vec<Block>>,
    wants: Vec<bool>,
    k: usize,
) -> (r: Vec<(Vec<Block>, Vec<(Block, Option<Block>)>)>)
    requires
        sk.wf(),
        k >= 1,
        (k as int) * (sk.message_modulus - 1) <= sk.max_degree(),
        wants@.len() == columns@.len(),
        forall|i: int, j: int|
            0 <= i < columns@.len() && 0 <= j < columns@[i]@.len() ==> (
            #[trigger] columns@[i]@[j]).value <= columns@[i]@[j].degree && columns@[i]@[j].degree
                < sk.message_modulus,
    ensures
        r@.len() == columns@.len(),
        forall|i: int|
            0 <= i < r@.len() ==> (#[trigger] r@[i]).0@ == columns@[i]@.skip(
                (columns@[i]@.len() as int / k as int) * (k as int),
            ),
        forall|i: int|
            0 <= i < r@.len() ==> (#[trigger] r@[i]).1@.len() == columns@[i]@.len() as int / (
            k as int),
        forall|i: int, j: int|
            0 <= i < r@.len() && 0 <= j < r@[i].1@.len() ==> (#[trigger] r@[i].1@[j]).0
                == chunk_msg_block(*sk, chunk_at(columns@[i]@, k as int, j)),
        forall|i: int, j: int|
            0 <= i < r@.len() && 0 <= j < r@[i].1@.len() && wants@[i] ==> (
            #[trigger] r@[i].1@[j]).1 == Some(
                chunk_carry_block(*sk, chunk_at(columns@[i]@, k as int, j)),
            ),
        forall|i: int, j: int|
            0 <= i < r@.len() && 0 <= j < r@[i].1@.len() && !wants@[i] ==> (
            #[trigger] r@[i].1@[j]).1 is None,
{
    columns.into_par_iter().zip(wants).map(|(col, want)| sk.reduce_column(&col, k, want)).collect()
}

/// Relies on rayon's `into_par_iter().map(..).collect()` over a range:
/// `ServerKey::combine_lane` runs once per lane of one scan round, in
/// parallel, and the results are collected in index order.
#[verifier::external_body]
pub(crate) fn par_combine_lanes(sk: &ServerKey, states: &Vec<Block>, stride: usize) -> (r: Vec<
    Block,
>)
    requires
        sk.wf(),
        stride >= 1,
        forall|i: int| 0 <= i < states@.len() ==> (#[trigger] states@[i]).value <= 2,
    ensures
        r@.len() == states@.len(),
        forall|i: int|
            0 <= i < r@.len() ==> #[trigger] r@[i] == (if i >= stride {
                Block {
                    value: if states@[i].value == 2 {
                        states@[i - stride].value
                    } else {
                        states@[i].value
                    },
                    degree: 2,
                }
            } else {
                states@[i]
            }),
{
    (0..states.len()).into_par_iter().map(|i| sk.combine_lane(states, stride, i)).collect()
}

/// Relies on rayon's `join`: the message and carry extractions of one
/// accumulator run as two independent tasks and both results return.
#[verifier::external_body]
pub(crate) fn join_extract_pair(sk: &ServerKey, acc: &Block) -> (r: (Block, Block))
    requires
        sk.wf(),
        sk.block_wf(*acc),
    ensures
        r.0 == sk.message_extract_spec(*acc),
        r.1 == sk.carry_extract_spec(*acc),
{
    rayon::join(|| sk.message_extract(acc), || sk.carry_extract(acc))
}

/// Relies on rayon's `par_iter().map(..).collect()`: one message
/// extraction per block, in parallel, results in input order.
#[verifier::external_body]
pub(crate) fn par_extract_messages(sk: &ServerKey, blocks: &Vec<Block>) -> (r: Vec<Block>)
    requires
        sk.wf(),
        forall|i: int| 0 <= i < blocks@.len() ==> sk.block_wf(#[trigger] blocks@[i]),
    ensures
        r@.len() == blocks@.len(),
        forall|i: int|
            0 <= i < r@.len() ==> #[trigger] r@[i] == sk.message_extract_spec(blocks@[i]),
{
    blocks.par_iter().map(|b| sk.message_extract(b)).collect()
}

/// Relies on rayon's `par_iter().map(..).collect()`: one carry
/// extraction per block, in parallel, results in input order.
#[verifier::external_body]
pub(crate) fn par_extract_carries(sk: &ServerKey, blocks: &Vec<Block>) -> (r: Vec<Block>)
    requires
        sk.wf(),
        forall|i: int| 0 <= i < blocks@.len() ==> sk.block_wf(#[trigger] blocks@[i]),
    ensures
        r@.len() == blocks@.len(),
        forall|i: int| 0 <= i < r@.len() ==> #[trigger] r@[i] == sk.carry_extract_spec(blocks@[i]),
{
    blocks.par_iter().map(|b| sk.carry_extract(b)).collect()
}

} // verus!
