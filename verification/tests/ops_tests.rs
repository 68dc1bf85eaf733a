use radix_sum::radix::RadixCiphertext;
use radix_sum::server_key::ServerKey;

fn key_2_2() -> ServerKey {
    ServerKey { message_modulus: 4, carry_modulus: 4 }
}

fn enc(sk: &ServerKey, value: u64, num_blocks: usize) -> RadixCiphertext {
    sk.create_trivial_radix(value, num_blocks)
}

fn dec(sk: &ServerKey, ct: &RadixCiphertext) -> u64 {
    sk.decrypt_trivial_radix(ct)
}

#[test]
fn trivial_radix_round_trip() {
    let sk = key_2_2();
    for v in [0u64, 1, 5, 63, 64, 200, 255] {
        let ct = enc(&sk, v, 4);
        assert_eq!(dec(&sk, &ct), v % 256);
    }
}

#[test]
fn add_wraps_modulo_capacity() {
    let sk = key_2_2();
    let a = enc(&sk, 200, 4);
    let b = enc(&sk, 100, 4);
    let r = sk.add_parallelized(&a, &b);
    assert_eq!(dec(&sk, &r), 44);
    assert!(sk.block_carries_are_empty(&r));
}

#[test]
fn overflowing_add_reports_carry() {
    let sk = key_2_2();
    let a = enc(&sk, 200, 4);
    let b = enc(&sk, 100, 4);
    let (r, flag) = sk.unsigned_overflowing_add_parallelized(&a, &b);
    assert_eq!(dec(&sk, &r), 44);
    assert!(sk.decrypt_trivial_bool(&flag));
    let c = enc(&sk, 55, 4);
    let (r, flag) = sk.unsigned_overflowing_add_parallelized(&a, &c);
    assert_eq!(dec(&sk, &r), 255);
    assert!(!sk.decrypt_trivial_bool(&flag));
}

#[test]
fn overflowing_sub_reports_borrow() {
    let sk = key_2_2();
    let a = enc(&sk, 30, 3);
    let b = enc(&sk, 50, 3);
    let (r, borrow) = sk.unsigned_overflowing_sub_parallelized(&a, &b);
    assert_eq!(dec(&sk, &r), (30u64.wrapping_sub(50)) % 64);
    assert!(sk.decrypt_trivial_bool(&borrow));
    let (r, borrow) = sk.unsigned_overflowing_sub_parallelized(&b, &a);
    assert_eq!(dec(&sk, &r), 20);
    assert!(!sk.decrypt_trivial_bool(&borrow));
}

#[test]
fn sub_of_equal_values_is_zero() {
    let sk = key_2_2();
    let a = enc(&sk, 47, 3);
    let b = enc(&sk, 47, 3);
    let r = sk.sub_parallelized(&a, &b);
    assert_eq!(dec(&sk, &r), 0);
    let (_, borrow) = sk.unsigned_overflowing_sub_parallelized(&a, &b);
    assert!(!sk.decrypt_trivial_bool(&borrow));
}

#[test]
fn ge_compares_correctly() {
    let sk = key_2_2();
    let cases = [(10u64, 10u64, 1u64), (11, 10, 1), (9, 10, 0), (0, 0, 1), (0, 63, 0), (63, 0, 1)];
    for (x, y, expected) in cases {
        let a = enc(&sk, x, 3);
        let b = enc(&sk, y, 3);
        let r = sk.ge_parallelized(&a, &b);
        assert_eq!(r.block.value, expected, "ge({x}, {y})");
    }
}

#[test]
fn if_then_else_selects() {
    let sk = key_2_2();
    let a = enc(&sk, 21, 3);
    let b = enc(&sk, 42, 3);
    let yes = sk.ge_parallelized(&a, &a);
    let no = sk.ge_parallelized(&a, &b);
    let r = sk.if_then_else_parallelized(&yes, &a, &b);
    assert_eq!(dec(&sk, &r), 21);
    let r = sk.if_then_else_parallelized(&no, &a, &b);
    assert_eq!(dec(&sk, &r), 42);
}

#[test]
fn zero_if_false_masks() {
    let sk = key_2_2();
    let a = enc(&sk, 37, 3);
    let b = enc(&sk, 2, 3);
    let truthy = sk.ge_parallelized(&a, &b);
    let falsy = sk.ge_parallelized(&b, &a);
    let kept = sk.zero_if_false_parallelized(&truthy, &a);
    assert_eq!(dec(&sk, &kept), 37);
    let zeroed = sk.zero_if_false_parallelized(&falsy, &a);
    assert_eq!(dec(&sk, &zeroed), 0);
}

#[test]
fn scalar_ne_against_digits() {
    let sk = key_2_2();
    let ct = enc(&sk, 44, 3);
    assert_eq!(sk.scalar_ne_parallelized(&ct, 44).block.value, 0);
    assert_eq!(sk.scalar_ne_parallelized(&ct, 45).block.value, 1);
    assert_eq!(sk.scalar_ne_parallelized(&ct, 0).block.value, 1);
    // a scalar beyond the capacity always differs
    assert_eq!(sk.scalar_ne_parallelized(&ct, 44 + 64).block.value, 1);
    let zero = enc(&sk, 0, 3);
    assert_eq!(sk.scalar_ne_parallelized(&zero, 0).block.value, 0);
}

#[test]
fn boolean_operations() {
    let sk = key_2_2();
    let a = enc(&sk, 1, 2);
    let b = enc(&sk, 2, 2);
    let t = sk.ge_parallelized(&b, &a);
    let f = sk.ge_parallelized(&a, &b);
    assert_eq!(sk.boolean_bitor(&t, &f).block.value, 1);
    assert_eq!(sk.boolean_bitor(&f, &f).block.value, 0);
    assert_eq!(sk.boolean_not(&t).block.value, 0);
    assert_eq!(sk.boolean_not(&f).block.value, 1);
}
