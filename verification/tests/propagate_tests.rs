use radix_sum::block::Block;
use radix_sum::radix::RadixCiphertext;
use radix_sum::server_key::ServerKey;

fn key_2_2() -> ServerKey {
    ServerKey { message_modulus: 4, carry_modulus: 4 }
}

/// A small deterministic generator for reproducible pseudo-random tests.
fn next_state(state: &mut u64) -> u64 {
    *state = state.wrapping_mul(6364136223846793005).wrapping_add(1442695040888963407);
    *state >> 33
}

fn eval_blocks(blocks: &[Block], base: u64) -> u64 {
    let mut acc: u64 = 0;
    for b in blocks.iter().rev() {
        acc = acc * base + b.value;
    }
    acc
}

#[test]
fn full_propagate_cleans_and_reduces() {
    let sk = key_2_2();
    let mut ct = RadixCiphertext {
        blocks: vec![
            Block { value: 11, degree: 12 },
            Block { value: 7, degree: 9 },
            Block { value: 3, degree: 3 },
        ],
    };
    // 11 + 4 * 7 + 16 * 3 = 87 = 23 mod 64
    sk.full_propagate_parallelized(&mut ct);
    assert!(sk.block_carries_are_empty(&ct));
    assert_eq!(sk.decrypt_trivial_radix(&ct), 23);
}

#[test]
fn sequential_chain_divides_out_carries() {
    let sk = key_2_2();
    let blocks = vec![Block { value: 9, degree: 12 }, Block { value: 2, degree: 6 }];
    let carry_in = sk.create_trivial(1);
    let (clean, carry_out) = sk.propagate_carry_chain(&blocks, &carry_in);
    // 9 + 4 * 2 + 1 = 18 = 2 + 4 * 0 + 16 * 1
    assert_eq!(eval_blocks(&clean, 4), 2);
    assert_eq!(carry_out.value, 1);
}

#[test]
fn prefix_scan_divides_out_carries() {
    let sk = key_2_2();
    let blocks = vec![Block { value: 6, degree: 6 }, Block { value: 5, degree: 6 }];
    let carry_in = sk.create_trivial(0);
    let (clean, carry_out) = sk.propagate_carry_prefix(&blocks, &carry_in);
    // 6 + 4 * 5 = 26 = 10 + 16 * 1
    assert_eq!(eval_blocks(&clean, 4), 10);
    assert_eq!(carry_out.value, 1);
}

#[test]
fn propagators_agree_on_random_dirty_ciphertexts() {
    let sk = key_2_2();
    let mut state: u64 = 0x1234_5678_9abc_def0;
    for num_blocks in 1..=32usize {
        for round in 0..8u64 {
            // blocks in the single-carry regime: value at most 2 * (m - 1)
            let blocks: Vec<Block> = (0..num_blocks)
                .map(|_| {
                    let v = next_state(&mut state) % 7;
                    Block { value: v, degree: 6 }
                })
                .collect();
            let carry_in = sk.create_trivial(round % 2);
            let (seq_clean, seq_carry) = sk.propagate_carry_chain(&blocks, &carry_in);
            let (par_clean, par_carry) = sk.propagate_carry_prefix(&blocks, &carry_in);
            assert_eq!(seq_clean.len(), par_clean.len());
            for i in 0..seq_clean.len() {
                assert_eq!(seq_clean[i].value, par_clean[i].value);
            }
            assert_eq!(seq_carry.value, par_carry.value);
        }
    }
}

#[test]
fn propagators_agree_with_injected_carry() {
    let sk = key_2_2();
    // every block propagates: value m - 1 everywhere, carry ripples through
    let blocks: Vec<Block> = (0..6).map(|_| Block { value: 3, degree: 6 }).collect();
    let one = sk.create_trivial(1);
    let (seq_clean, seq_carry) = sk.propagate_carry_chain(&blocks, &one);
    let (par_clean, par_carry) = sk.propagate_carry_prefix(&blocks, &one);
    for i in 0..6 {
        assert_eq!(seq_clean[i].value, 0);
        assert_eq!(par_clean[i].value, 0);
    }
    assert_eq!(seq_carry.value, 1);
    assert_eq!(par_carry.value, 1);
}

#[test]
fn propagate_empty_ciphertext_passes_carry_through() {
    let sk = key_2_2();
    let blocks: Vec<Block> = Vec::new();
    let one = sk.create_trivial(1);
    let (clean, carry_out) = sk.propagate_carry_prefix(&blocks, &one);
    assert!(clean.is_empty());
    assert_eq!(carry_out.value, 1);
}
