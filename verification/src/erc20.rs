//! Encrypted balance transfers, composed from the verified radix
//! operations.  Three variants trade cost against overflow behavior:
//! a guarded transfer that moves nothing on overflow or shortfall, the
//! classic compare-then-select transfer, and a selection-free transfer
//! that multiplies the amount by the comparison bit.

use vstd::prelude::*;

use crate::radix::RadixCiphertext;
use crate::server_key::ServerKey;

verus! {

/// A transfer that moves funds only when both balance updates stay in
/// range: the sender must hold the amount, and the receiver's balance
/// must not overflow.  Otherwise both balances are returned unchanged.
/// Returns the new (sender, receiver) balances.
pub fn safe_erc20(
    sk: &ServerKey,
    from_amount: &RadixCiphertext,
    to_amount: &RadixCiphertext,
    amount: &RadixCiphertext,
) -> (r: (RadixCiphertext, RadixCiphertext))
    requires
        sk.wf(),
        sk.radix_wf(*from_amount),
        sk.radix_wf(*to_amount),
        sk.radix_wf(*amount),
        sk.radix_clean(*from_amount),
        sk.radix_clean(*to_amount),
        sk.radix_clean(*amount),
        to_amount.blocks@.len() == from_amount.blocks@.len(),
        amount.blocks@.len() == from_amount.blocks@.len(),
    ensures
        r.0.blocks@.len() == from_amount.blocks@.len(),
        r.1.blocks@.len() == from_amount.blocks@.len(),
        sk.radix_wf(r.0) && sk.radix_clean(r.0),
        sk.radix_wf(r.1) && sk.radix_clean(r.1),
        sk.radix_value(*from_amount) >= sk.radix_value(*amount) && sk.radix_value(*to_amount)
            + sk.radix_value(*amount) < sk.radix_capacity(from_amount.blocks@.len() as nat)
            ==> sk.radix_value(r.0) == sk.radix_value(*from_amount) - sk.radix_value(*amount)
            && sk.radix_value(r.1) == sk.radix_value(*to_amount) + sk.radix_value(*amount),
        !(sk.radix_value(*from_amount) >= sk.radix_value(*amount) && sk.radix_value(*to_amount)
            + sk.radix_value(*amount) < sk.radix_capacity(from_amount.blocks@.len() as nat))
            ==> sk.radix_value(r.0) == sk.radix_value(*from_amount) && sk.radix_value(r.1)
            == sk.radix_value(*to_amount),
{
    let ghost base = sk.message_modulus as int;
    let ghost cap = sk.radix_capacity(from_amount.blocks@.len() as nat);
    let (new_to, add_overflowed) = sk.unsigned_overflowing_add_parallelized(to_amount, amount);
    let (new_from, sub_overflowed) = sk.unsigned_overflowing_sub_parallelized(
        from_amount,
        amount,
    );
    let blocked = sk.boolean_bitor(&add_overflowed, &sub_overflowed);
    let final_from = sk.if_then_else_parallelized(&blocked, from_amount, &new_from);
    let final_to = sk.if_then_else_parallelized(&blocked, to_amount, &new_to);
    proof {
        crate::radix::lemma_eval_bounds(from_amount.blocks@, base);
        crate::radix::lemma_eval_bounds(to_amount.blocks@, base);
        crate::radix::lemma_eval_bounds(amount.blocks@, base);
        vstd::arithmetic::power::lemma_pow_positive(base, from_amount.blocks@.len() as nat);
        if sk.radix_value(*from_amount) >= sk.radix_value(*amount) && sk.radix_value(*to_amount)
            + sk.radix_value(*amount) < cap {
            vstd::arithmetic::div_mod::lemma_small_mod(
                (sk.radix_value(*from_amount) - sk.radix_value(*amount)) as nat,
                cap as nat,
            );
        }
    }
    (final_from, final_to)
}

/// The classic transfer: compare, update both balances, then select
/// between the updated and the original balances by the comparison.
/// The receiver-side addition wraps around on overflow.
pub fn whitepaper_erc20(
    sk: &ServerKey,
    from_amount: &RadixCiphertext,
    to_amount: &RadixCiphertext,
    amount: &RadixCiphertext,
) -> (r: (RadixCiphertext, RadixCiphertext))
    requires
        sk.wf(),
        sk.radix_wf(*from_amount),
        sk.radix_wf(*to_amount),
        sk.radix_wf(*amount),
        sk.radix_clean(*from_amount),
        sk.radix_clean(*to_amount),
        sk.radix_clean(*amount),
        to_amount.blocks@.len() == from_amount.blocks@.len(),
        amount.blocks@.len() == from_amount.blocks@.len(),
    ensures
        r.0.blocks@.len() == from_amount.blocks@.len(),
        r.1.blocks@.len() == from_amount.blocks@.len(),
        sk.radix_wf(r.0) && sk.radix_clean(r.0),
        sk.radix_wf(r.1) && sk.radix_clean(r.1),
        sk.radix_value(*from_amount) >= sk.radix_value(*amount) ==> sk.radix_value(r.0)
            == sk.radix_value(*from_amount) - sk.radix_value(*amount) && sk.radix_value(r.1) == (
        sk.radix_value(*to_amount) + sk.radix_value(*amount)) % sk.radix_capacity(
            from_amount.blocks@.len() as nat,
        ),
        sk.radix_value(*from_amount) < sk.radix_value(*amount) ==> sk.radix_value(r.0)
            == sk.radix_value(*from_amount) && sk.radix_value(r.1) == sk.radix_value(*to_amount),
{
    let ghost base = sk.message_modulus as int;
    let ghost cap = sk.radix_capacity(from_amount.blocks@.len() as nat);
    let has_enough_funds = sk.ge_parallelized(from_amount, amount);
    let new_to = sk.add_parallelized(to_amount, amount);
    let final_to = sk.if_then_else_parallelized(&has_enough_funds, &new_to, to_amount);
    let new_from = sk.sub_parallelized(from_amount, amount);
    let final_from = sk.if_then_else_parallelized(&has_enough_funds, &new_from, from_amount);
    proof {
        crate::radix::lemma_eval_bounds(from_amount.blocks@, base);
        crate::radix::lemma_eval_bounds(amount.blocks@, base);
        vstd::arithmetic::power::lemma_pow_positive(base, from_amount.blocks@.len() as nat);
        if sk.radix_value(*from_amount) >= sk.radix_value(*amount) {
            vstd::arithmetic::div_mod::lemma_small_mod(
                (sk.radix_value(*from_amount) - sk.radix_value(*amount)) as nat,
                cap as nat,
            );
        }
    }
    (final_from, final_to)
}

/// A selection-free transfer: the amount is multiplied by the
/// comparison bit, so an uncovered transfer moves zero.  The
/// receiver-side addition wraps around on overflow.
pub fn no_cmux_erc20(
    sk: &ServerKey,
    from_amount: &RadixCiphertext,
    to_amount: &RadixCiphertext,
    amount: &RadixCiphertext,
) -> (r: (RadixCiphertext, RadixCiphertext))
    requires
        sk.wf(),
        sk.radix_wf(*from_amount),
        sk.radix_wf(*to_amount),
        sk.radix_wf(*amount),
        sk.radix_clean(*from_amount),
        sk.radix_clean(*to_amount),
        sk.radix_clean(*amount),
        to_amount.blocks@.len() == from_amount.blocks@.len(),
        amount.blocks@.len() == from_amount.blocks@.len(),
    ensures
        r.0.blocks@.len() == from_amount.blocks@.len(),
        r.1.blocks@.len() == from_amount.blocks@.len(),
        sk.radix_wf(r.0) && sk.radix_clean(r.0),
        sk.radix_wf(r.1) && sk.radix_clean(r.1),
        sk.radix_value(*from_amount) >= sk.radix_value(*amount) ==> sk.radix_value(r.0)
            == sk.radix_value(*from_amount) - sk.radix_value(*amount) && sk.radix_value(r.1) == (
        sk.radix_value(*to_amount) + sk.radix_value(*amount)) % sk.radix_capacity(
            from_amount.blocks@.len() as nat,
        ),
        sk.radix_value(*from_amount) < sk.radix_value(*amount) ==> sk.radix_value(r.0)
            == sk.radix_value(*from_amount) && sk.radix_value(r.1) == sk.radix_value(*to_amount),
{
    let ghost base = sk.message_modulus as int;
    let ghost cap = sk.radix_capacity(from_amount.blocks@.len() as nat);
    let has_enough_funds = sk.ge_parallelized(from_amount, amount);
    let effective = sk.zero_if_false_parallelized(&has_enough_funds, amount);
    let final_to = sk.add_parallelized(to_amount, &effective);
    let final_from = sk.sub_parallelized(from_amount, &effective);
    proof {
        crate::radix::lemma_eval_bounds(from_amount.blocks@, base);
        crate::radix::lemma_eval_bounds(to_amount.blocks@, base);
        crate::radix::lemma_eval_bounds(amount.blocks@, base);
        vstd::arithmetic::power::lemma_pow_positive(base, from_amount.blocks@.len() as nat);
        if sk.radix_value(*from_amount) >= sk.radix_value(*amount) {
            vstd::arithmetic::div_mod::lemma_small_mod(
                (sk.radix_value(*from_amount) - sk.radix_value(*amount)) as nat,
                cap as nat,
            );
        } else {
            vstd::arithmetic::div_mod::lemma_small_mod(
                sk.radix_value(*from_amount) as nat,
                cap as nat,
            );
            vstd::arithmetic::div_mod::lemma_small_mod(
                sk.radix_value(*to_amount) as nat,
                cap as nat,
            );
        }
    }
    (final_from, final_to)
}

} // verus!
