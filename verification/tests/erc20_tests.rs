use radix_sum::erc20::no_cmux_erc20;
use radix_sum::erc20::safe_erc20;
use radix_sum::erc20::whitepaper_erc20;
use radix_sum::radix::RadixCiphertext;
use radix_sum::server_key::ServerKey;

fn key_2_2() -> ServerKey {
    ServerKey { message_modulus: 4, carry_modulus: 4 }
}

fn enc(sk: &ServerKey, value: u64, num_blocks: usize) -> RadixCiphertext {
    sk.create_trivial_radix(value, num_blocks)
}

fn dec(sk: &ServerKey, ct: &RadixCiphertext) -> u64 {
    sk.decrypt_trivial_radix(ct)
}

#[test]
fn safe_erc20_transfers_when_covered() {
    let sk = key_2_2();
    let from = enc(&sk, 100, 4);
    let to = enc(&sk, 50, 4);
    let amount = enc(&sk, 30, 4);
    let (new_from, new_to) = safe_erc20(&sk, &from, &to, &amount);
    assert_eq!(dec(&sk, &new_from), 70);
    assert_eq!(dec(&sk, &new_to), 80);
}

#[test]
fn safe_erc20_blocks_uncovered_transfer() {
    let sk = key_2_2();
    let from = enc(&sk, 10, 4);
    let to = enc(&sk, 50, 4);
    let amount = enc(&sk, 30, 4);
    let (new_from, new_to) = safe_erc20(&sk, &from, &to, &amount);
    assert_eq!(dec(&sk, &new_from), 10);
    assert_eq!(dec(&sk, &new_to), 50);
}

#[test]
fn safe_erc20_blocks_receiver_overflow() {
    let sk = key_2_2();
    // capacity 256: 250 + 30 would overflow the receiver
    let from = enc(&sk, 100, 4);
    let to = enc(&sk, 250, 4);
    let amount = enc(&sk, 30, 4);
    let (new_from, new_to) = safe_erc20(&sk, &from, &to, &amount);
    assert_eq!(dec(&sk, &new_from), 100);
    assert_eq!(dec(&sk, &new_to), 250);
}

#[test]
fn whitepaper_erc20_transfers_when_covered() {
    let sk = key_2_2();
    let from = enc(&sk, 200, 4);
    let to = enc(&sk, 1, 4);
    let amount = enc(&sk, 200, 4);
    let (new_from, new_to) = whitepaper_erc20(&sk, &from, &to, &amount);
    assert_eq!(dec(&sk, &new_from), 0);
    assert_eq!(dec(&sk, &new_to), 201);
}

#[test]
fn whitepaper_erc20_keeps_balances_on_shortfall() {
    let sk = key_2_2();
    let from = enc(&sk, 5, 4);
    let to = enc(&sk, 7, 4);
    let amount = enc(&sk, 6, 4);
    let (new_from, new_to) = whitepaper_erc20(&sk, &from, &to, &amount);
    assert_eq!(dec(&sk, &new_from), 5);
    assert_eq!(dec(&sk, &new_to), 7);
}

#[test]
fn whitepaper_erc20_receiver_wraps_on_overflow() {
    let sk = key_2_2();
    let from = enc(&sk, 100, 4);
    let to = enc(&sk, 250, 4);
    let amount = enc(&sk, 30, 4);
    let (new_from, new_to) = whitepaper_erc20(&sk, &from, &to, &amount);
    assert_eq!(dec(&sk, &new_from), 70);
    assert_eq!(dec(&sk, &new_to), (250 + 30) % 256);
}

#[test]
fn no_cmux_erc20_transfers_when_covered() {
    let sk = key_2_2();
    let from = enc(&sk, 64, 4);
    let to = enc(&sk, 32, 4);
    let amount = enc(&sk, 16, 4);
    let (new_from, new_to) = no_cmux_erc20(&sk, &from, &to, &amount);
    assert_eq!(dec(&sk, &new_from), 48);
    assert_eq!(dec(&sk, &new_to), 48);
}

#[test]
fn no_cmux_erc20_moves_nothing_on_shortfall() {
    let sk = key_2_2();
    let from = enc(&sk, 15, 4);
    let to = enc(&sk, 90, 4);
    let amount = enc(&sk, 16, 4);
    let (new_from, new_to) = no_cmux_erc20(&sk, &from, &to, &amount);
    assert_eq!(dec(&sk, &new_from), 15);
    assert_eq!(dec(&sk, &new_to), 90);
}

#[test]
fn erc20_variants_agree_when_no_overflow() {
    let sk = key_2_2();
    let cases = [(120u64, 30u64, 45u64), (45, 30, 120), (0, 0, 0), (5, 5, 5)];
    for (f, t, a) in cases {
        let from = enc(&sk, f, 4);
        let to = enc(&sk, t, 4);
        let amount = enc(&sk, a, 4);
        let (sf, st) = safe_erc20(&sk, &from, &to, &amount);
        let (wf, wt) = whitepaper_erc20(&sk, &from, &to, &amount);
        let (nf, nt) = no_cmux_erc20(&sk, &from, &to, &amount);
        assert_eq!(dec(&sk, &sf), dec(&sk, &wf));
        assert_eq!(dec(&sk, &sf), dec(&sk, &nf));
        assert_eq!(dec(&sk, &st), dec(&sk, &wt));
        assert_eq!(dec(&sk, &st), dec(&sk, &nt));
    }
}
