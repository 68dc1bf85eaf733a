use radix_sum::block::Block;
use radix_sum::radix::RadixCiphertext;
use radix_sum::server_key::ServerKey;

fn key_2_2() -> ServerKey {
    ServerKey { message_modulus: 4, carry_modulus: 4 }
}

fn key_1_1() -> ServerKey {
    ServerKey { message_modulus: 2, carry_modulus: 2 }
}

fn enc(sk: &ServerKey, value: u64, num_blocks: usize) -> RadixCiphertext {
    sk.create_trivial_radix(value, num_blocks)
}

fn dec(sk: &ServerKey, ct: &RadixCiphertext) -> u64 {
    sk.decrypt_trivial_radix(ct)
}

#[test]
fn sum_empty_term_list_is_none() {
    let sk = key_2_2();
    let terms: Vec<RadixCiphertext> = Vec::new();
    assert!(sk.unchecked_sum_ciphertexts_vec_parallelized(terms).is_none());
    let terms: Vec<RadixCiphertext> = Vec::new();
    assert!(sk.sum_ciphertexts_parallelized(&terms).is_none());
}

#[test]
fn sum_single_term_decrypts_to_itself() {
    let sk = key_2_2();
    let terms = vec![enc(&sk, 13, 4)];
    let r = sk.sum_ciphertexts_parallelized(&terms).unwrap();
    assert_eq!(dec(&sk, &r), 13);
}

#[test]
fn sum_two_terms_equals_pairwise_add() {
    let sk = key_2_2();
    let a = enc(&sk, 97, 4);
    let b = enc(&sk, 58, 4);
    let direct = sk.add_parallelized(&a, &b);
    let summed = sk.sum_ciphertexts_parallelized(&vec![a, b]).unwrap();
    assert_eq!(dec(&sk, &summed), dec(&sk, &direct));
    assert_eq!(dec(&sk, &summed), 155);
}

#[test]
fn sum_many_terms_is_homomorphic() {
    let sk = key_2_2();
    let num_blocks = 4; // capacity 256
    let values: Vec<u64> = vec![17, 3, 40, 99, 0, 25, 31, 8, 12];
    let expected: u64 = values.iter().sum::<u64>() % 256;
    let terms: Vec<RadixCiphertext> =
        values.iter().map(|&v| enc(&sk, v, num_blocks)).collect();
    let r = sk.sum_ciphertexts_parallelized(&terms).unwrap();
    assert_eq!(dec(&sk, &r), expected);
}

#[test]
fn sum_wraps_modulo_capacity() {
    let sk = key_2_2();
    let num_blocks = 2; // capacity 16
    let terms: Vec<RadixCiphertext> = (0..5).map(|_| enc(&sk, 7, num_blocks)).collect();
    let r = sk.sum_ciphertexts_parallelized(&terms).unwrap();
    assert_eq!(dec(&sk, &r), 35 % 16);
}

#[test]
fn sum_result_is_clean() {
    let sk = key_2_2();
    let terms: Vec<RadixCiphertext> = (0..6).map(|i| enc(&sk, 11 * i + 1, 3)).collect();
    let r = sk.sum_ciphertexts_parallelized(&terms).unwrap();
    assert!(sk.block_carries_are_empty(&r));
}

#[test]
fn unchecked_sum_then_propagate_is_clean() {
    let sk = key_2_2();
    let terms: Vec<RadixCiphertext> = (0..7).map(|i| enc(&sk, 5 * i + 2, 3)).collect();
    let mut r = sk.unchecked_sum_ciphertexts_vec_parallelized(terms).unwrap();
    sk.full_propagate_parallelized(&mut r);
    assert!(sk.block_carries_are_empty(&r));
    assert_eq!(dec(&sk, &r), (2 + 7 + 12 + 17 + 22 + 27 + 32) % 64);
}

#[test]
fn sum_is_order_independent() {
    let sk = key_2_2();
    let values: Vec<u64> = vec![9, 250, 3, 77, 140, 1];
    let permuted: Vec<u64> = vec![140, 1, 9, 77, 250, 3];
    let t1: Vec<RadixCiphertext> = values.iter().map(|&v| enc(&sk, v, 4)).collect();
    let t2: Vec<RadixCiphertext> = permuted.iter().map(|&v| enc(&sk, v, 4)).collect();
    let r1 = sk.sum_ciphertexts_parallelized(&t1).unwrap();
    let r2 = sk.sum_ciphertexts_parallelized(&t2).unwrap();
    assert_eq!(dec(&sk, &r1), dec(&sk, &r2));
}

#[test]
fn smart_sum_accepts_dirty_inputs() {
    let sk = key_2_2();
    // a dirty ciphertext: degrees above the message space
    let dirty = RadixCiphertext {
        blocks: vec![Block { value: 9, degree: 10 }, Block { value: 5, degree: 7 }],
    };
    let clean = enc(&sk, 3, 2);
    let mut terms = vec![dirty, clean];
    let r = sk.smart_sum_ciphertexts_parallelized(&mut terms).unwrap();
    // dirty holds 9 + 4 * 5 = 29 = 13 mod 16; 13 + 3 = 16 = 0 mod 16
    assert_eq!(dec(&sk, &r), 0);
    assert!(sk.block_carries_are_empty(&terms[0]));
    assert!(sk.block_carries_are_empty(&terms[1]));
}

#[test]
fn sum_with_smallest_parameters() {
    let sk = key_1_1();
    let num_blocks = 5; // capacity 32
    let values: Vec<u64> = vec![1, 2, 3, 4, 5, 6, 7, 8];
    let terms: Vec<RadixCiphertext> =
        values.iter().map(|&v| enc(&sk, v, num_blocks)).collect();
    let r = sk.sum_ciphertexts_parallelized(&terms).unwrap();
    assert_eq!(dec(&sk, &r), 36 % 32);
}

#[test]
fn max_sum_size_boundary_values() {
    let sk = key_2_2();
    // capacity 16, usable degree 12, clean digit degree 3: four digits fill a chunk
    assert_eq!(sk.max_sum_size(3), 4);
    let sk = key_1_1();
    // capacity 4, usable degree 2, clean digit degree 1: two digits fill a chunk
    assert_eq!(sk.max_sum_size(1), 2);
}

#[test]
fn sum_of_exactly_chunk_size_terms() {
    let sk = key_2_2();
    // columns of exactly max_sum_size digits: one fold, no recursion
    let terms: Vec<RadixCiphertext> = (0..4).map(|_| enc(&sk, 3, 2)).collect();
    let r = sk.sum_ciphertexts_parallelized(&terms).unwrap();
    assert_eq!(dec(&sk, &r), 12);
}

#[test]
fn sum_of_chunk_size_plus_one_terms() {
    let sk = key_2_2();
    // one column block beyond max_sum_size: exactly one extra round
    let terms: Vec<RadixCiphertext> = (0..5).map(|_| enc(&sk, 3, 2)).collect();
    let r = sk.sum_ciphertexts_parallelized(&terms).unwrap();
    assert_eq!(dec(&sk, &r), 15);
}

#[test]
fn sum_of_all_zero_terms_is_trivial_zero() {
    let sk = key_2_2();
    let terms: Vec<RadixCiphertext> = (0..5).map(|_| enc(&sk, 0, 3)).collect();
    let r = sk.sum_ciphertexts_parallelized(&terms).unwrap();
    assert_eq!(dec(&sk, &r), 0);
    assert_eq!(r.blocks.len(), 3);
}

#[test]
fn overflowing_sum_detects_overflow() {
    let sk = key_2_2();
    // message modulus 4, 2 blocks: capacity 16; four fives make 20
    let terms: Vec<RadixCiphertext> = (0..4).map(|_| enc(&sk, 5, 2)).collect();
    let (r, flag) = sk.unsigned_overflowing_sum_ciphertexts_parallelized(&terms).unwrap();
    assert_eq!(dec(&sk, &r), 4);
    assert!(sk.decrypt_trivial_bool(&flag));
}

#[test]
fn overflowing_sum_no_overflow() {
    let sk = key_2_2();
    // four twos make 8, within capacity 16
    let terms: Vec<RadixCiphertext> = (0..4).map(|_| enc(&sk, 2, 2)).collect();
    let (r, flag) = sk.unsigned_overflowing_sum_ciphertexts_parallelized(&terms).unwrap();
    assert_eq!(dec(&sk, &r), 8);
    assert!(!sk.decrypt_trivial_bool(&flag));
}

#[test]
fn overflowing_sum_boundary_is_exact() {
    let sk = key_2_2();
    // 15 fits, 16 does not
    let fits: Vec<RadixCiphertext> = vec![enc(&sk, 5, 2), enc(&sk, 5, 2), enc(&sk, 5, 2)];
    let (r, flag) = sk.unsigned_overflowing_sum_ciphertexts_parallelized(&fits).unwrap();
    assert_eq!(dec(&sk, &r), 15);
    assert!(!sk.decrypt_trivial_bool(&flag));
    let over: Vec<RadixCiphertext> =
        vec![enc(&sk, 5, 2), enc(&sk, 5, 2), enc(&sk, 5, 2), enc(&sk, 1, 2)];
    let (r, flag) = sk.unsigned_overflowing_sum_ciphertexts_parallelized(&over).unwrap();
    assert_eq!(dec(&sk, &r), 0);
    assert!(sk.decrypt_trivial_bool(&flag));
}

#[test]
fn overflowing_sum_empty_and_single() {
    let sk = key_2_2();
    let empty: Vec<RadixCiphertext> = Vec::new();
    assert!(sk.unsigned_overflowing_sum_ciphertexts_parallelized(&empty).is_none());
    let single = vec![enc(&sk, 12, 2)];
    let (r, flag) = sk.unsigned_overflowing_sum_ciphertexts_parallelized(&single).unwrap();
    assert_eq!(dec(&sk, &r), 12);
    assert!(!sk.decrypt_trivial_bool(&flag));
}

#[test]
fn overflowing_sum_many_terms() {
    let sk = key_2_2();
    let num_blocks = 3; // capacity 64
    let values: Vec<u64> = vec![10, 20, 30, 1, 2];
    let terms: Vec<RadixCiphertext> =
        values.iter().map(|&v| enc(&sk, v, num_blocks)).collect();
    let (r, flag) = sk.unsigned_overflowing_sum_ciphertexts_parallelized(&terms).unwrap();
    assert_eq!(dec(&sk, &r), 63);
    assert!(!sk.decrypt_trivial_bool(&flag));
    let terms: Vec<RadixCiphertext> = vec![
        enc(&sk, 10, num_blocks),
        enc(&sk, 20, num_blocks),
        enc(&sk, 30, num_blocks),
        enc(&sk, 3, num_blocks),
        enc(&sk, 2, num_blocks),
    ];
    let (r, flag) = sk.unsigned_overflowing_sum_ciphertexts_parallelized(&terms).unwrap();
    assert_eq!(dec(&sk, &r), 1);
    assert!(sk.decrypt_trivial_bool(&flag));
}

#[test]
fn smart_overflowing_sum_accepts_dirty_inputs() {
    let sk = key_2_2();
    let dirty = RadixCiphertext {
        blocks: vec![Block { value: 6, degree: 8 }, Block { value: 3, degree: 5 }],
    };
    // dirty holds 6 + 4 * 3 = 18 = 2 mod 16
    let mut terms = vec![dirty, enc(&sk, 9, 2), enc(&sk, 4, 2)];
    let (r, flag) = sk.smart_unsigned_overflowing_sum_ciphertexts_parallelized(&mut terms).unwrap();
    assert_eq!(dec(&sk, &r), 15);
    assert!(!sk.decrypt_trivial_bool(&flag));
}
