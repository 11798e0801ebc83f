use db_test::{
    AccountMap, AccountState, Address, Amount, BlockExecutionResult, ExecutorConfig,
    ParallelExecutor, Transaction,
};
use k256::ecdsa::{SigningKey, VerifyingKey};
use k256::elliptic_curve::sec1::ToSec1Point;
use rand::rngs::StdRng;
use rand::{Rng, SeedableRng};

struct TestAccount {
    signing_key: SigningKey,
    address: Address,
}

fn address_from_key(vk: &VerifyingKey) -> Address {
    let point = vk.to_sec1_point(false);
    let hash = alloy_primitives::keccak256(&point.as_bytes()[1..]);
    let b = &hash[12..32];
    let hi = u32::from_be_bytes([b[0], b[1], b[2], b[3]]);
    let mut lo_bytes = [0u8; 16];
    lo_bytes.copy_from_slice(&b[4..20]);
    Address { hi, lo: u128::from_be_bytes(lo_bytes) }
}

fn account_from_seed(seed: u64) -> TestAccount {
    let mut rng = StdRng::seed_from_u64(seed);
    let mut key_bytes = [0u8; 32];
    rng.fill(&mut key_bytes);
    let signing_key = SigningKey::from_bytes(&key_bytes.into()).expect("valid key bytes");
    let address = address_from_key(&VerifyingKey::from(&signing_key));
    TestAccount { signing_key, address }
}

fn amount_be_bytes(v: &Amount) -> [u8; 32] {
    let mut out = [0u8; 32];
    out[0..8].copy_from_slice(&v.l3.to_be_bytes());
    out[8..16].copy_from_slice(&v.l2.to_be_bytes());
    out[16..24].copy_from_slice(&v.l1.to_be_bytes());
    out[24..32].copy_from_slice(&v.l0.to_be_bytes());
    out
}

fn tx_digest(from: Address, to: Address, value: &Amount, nonce: u64) -> Vec<u8> {
    let mut data = Vec::new();
    data.extend_from_slice(&from.hi.to_be_bytes());
    data.extend_from_slice(&from.lo.to_be_bytes());
    data.extend_from_slice(&to.hi.to_be_bytes());
    data.extend_from_slice(&to.lo.to_be_bytes());
    data.extend_from_slice(&amount_be_bytes(value));
    data.extend_from_slice(&nonce.to_be_bytes());
    alloy_primitives::keccak256(&data).to_vec()
}

fn sign_tx(account: &TestAccount, to: Address, value: Amount, nonce: u64) -> Transaction {
    let tx_hash = tx_digest(account.address, to, &value, nonce);
    let (sig, recovery_id) = account.signing_key.sign_prehash_recoverable(&tx_hash);
    let mut signature = sig.to_bytes().to_vec();
    signature.push(recovery_id.to_byte());
    Transaction { from: account.address, to, value, nonce, signature, tx_hash }
}

fn unsigned_tx(from: Address, to: Address, value: u64, nonce: u64) -> Transaction {
    Transaction {
        from,
        to,
        value: Amount::from_u64(value),
        nonce,
        signature: vec![0u8; 65],
        tx_hash: vec![0u8; 32],
    }
}

fn addr(n: u128) -> Address {
    Address { hi: 0, lo: n }
}

fn funded(accounts: &[Address], balance: u64) -> AccountMap {
    let mut map = AccountMap::new();
    for a in accounts {
        map.insert(*a, AccountState { nonce: 0, balance: Amount::from_u64(balance) });
    }
    map
}

fn run(
    initial_states: AccountMap,
    transactions: Vec<Transaction>,
    num_threads: usize,
    verify_signatures: bool,
) -> BlockExecutionResult {
    let config = ExecutorConfig { num_threads, verify_signatures, initial_states };
    let executor = ParallelExecutor::new(config);
    executor.execute_block(transactions)
}

fn final_state(result: &BlockExecutionResult, a: Address) -> AccountState {
    for (b, st) in &result.final_states {
        if *b == a {
            return *st;
        }
    }
    panic!("address not in final states");
}

#[test]
fn test_parallel_execution_simple() {
    // Generate test accounts with proper signing keys
    let acc1 = account_from_seed(1);
    let acc2 = account_from_seed(2);
    let acc3 = account_from_seed(3);

    let mut initial_states = AccountMap::new();
    initial_states
        .insert(acc1.address, AccountState { nonce: 0, balance: Amount::from_u64(1000) });
    initial_states
        .insert(acc2.address, AccountState { nonce: 0, balance: Amount::from_u64(1000) });
    initial_states
        .insert(acc3.address, AccountState { nonce: 0, balance: Amount::from_u64(1000) });

    // Create properly signed transactions
    let transactions = vec![
        sign_tx(&acc1, acc2.address, Amount::from_u64(10), 0),
        sign_tx(&acc2, acc3.address, Amount::from_u64(5), 0),
    ];

    let config = ExecutorConfig { num_threads: 2, verify_signatures: true, initial_states };

    let executor = ParallelExecutor::new(config);
    let result = executor.execute_block(transactions);

    assert_eq!(result.successful, 2);
    assert_eq!(result.failed, 0);
}

#[test]
fn independent_transfers() {
    let (a, b, c, d) = (addr(1), addr(2), addr(3), addr(4));
    let init = funded(&[a, b, c, d], 1000);
    let txs = vec![unsigned_tx(a, b, 10, 0), unsigned_tx(c, d, 20, 0)];
    let result = run(init, txs, 2, false);

    assert_eq!(result.successful, 2);
    assert_eq!(result.failed, 0);
    assert_eq!(final_state(&result, a).balance, Amount::from_u64(990));
    assert_eq!(final_state(&result, b).balance, Amount::from_u64(1010));
    assert_eq!(final_state(&result, c).balance, Amount::from_u64(980));
    assert_eq!(final_state(&result, d).balance, Amount::from_u64(1020));
}

#[test]
fn sequential_dependency() {
    let (a, b) = (addr(1), addr(2));
    let init = funded(&[a, b], 1000);
    let txs = vec![unsigned_tx(a, b, 100, 0), unsigned_tx(b, a, 50, 0)];
    let result = run(init, txs, 2, false);

    assert_eq!(result.successful, 2);
    assert_eq!(result.failed, 0);
    assert_eq!(final_state(&result, a).balance, Amount::from_u64(950));
    assert_eq!(final_state(&result, b).balance, Amount::from_u64(1050));
}

#[test]
fn contended_hot_account() {
    let a = addr(500);
    let mut init = funded(&[a], 1000);
    let mut txs = Vec::new();
    for i in 0..100u64 {
        let receiver = addr(i as u128 + 1);
        init.insert(receiver, AccountState { nonce: 0, balance: Amount::from_u64(1000) });
        txs.push(unsigned_tx(a, receiver, 1, i));
    }
    let result = run(init, txs, 4, false);

    assert_eq!(result.successful, 100);
    assert_eq!(result.failed, 0);
    assert_eq!(final_state(&result, a).balance, Amount::from_u64(900));
    assert_eq!(final_state(&result, a).nonce, 100);
    for i in 0..100u64 {
        assert_eq!(final_state(&result, addr(i as u128 + 1)).balance, Amount::from_u64(1001));
    }
}

#[test]
fn permanent_failure() {
    let acc_a = account_from_seed(10);
    let acc_b = account_from_seed(11);
    let init = funded(&[acc_a.address, acc_b.address], 1000);

    // Tx0 signed incorrectly: its digest does not match its signature.
    let mut bad = sign_tx(&acc_a, acc_b.address, Amount::from_u64(5), 0);
    bad.tx_hash = tx_digest(acc_a.address, acc_b.address, &Amount::from_u64(6), 0);
    // Tx1 valid.
    let good = sign_tx(&acc_a, acc_b.address, Amount::from_u64(10), 0);

    let result = run(init, vec![bad, good], 2, true);
    assert_eq!(result.successful, 1);
    assert_eq!(result.failed, 1);
    assert_eq!(final_state(&result, acc_a.address).balance, Amount::from_u64(990));
    assert_eq!(final_state(&result, acc_b.address).balance, Amount::from_u64(1010));
}

#[test]
fn dependency_then_permanent() {
    let (a, b, c) = (addr(1), addr(2), addr(3));
    let init = funded(&[a, b, c], 1000);
    // Tx0 carries a nonce that is never reached; Tx1 is valid.
    let txs = vec![unsigned_tx(a, b, 10, 2), unsigned_tx(a, c, 5, 0)];
    let result = run(init, txs, 2, false);

    assert_eq!(result.successful, 1);
    assert_eq!(result.failed, 1);
    assert_eq!(final_state(&result, a).balance, Amount::from_u64(995));
    assert_eq!(final_state(&result, a).nonce, 1);
    assert_eq!(final_state(&result, c).balance, Amount::from_u64(1005));
}

#[test]
fn self_transfer() {
    let a = addr(77);
    let init = funded(&[a], 1000);
    let txs = vec![unsigned_tx(a, a, 100, 0)];
    let result = run(init, txs, 2, false);

    assert_eq!(result.successful, 1);
    assert_eq!(result.failed, 0);
    let st = final_state(&result, a);
    assert_eq!(st.nonce, 1);
    assert_eq!(st.balance, Amount::from_u64(1000));
}

#[test]
fn outcome_independent_of_thread_count() {
    let (a, b, c) = (addr(1), addr(2), addr(3));
    let txs = vec![
        unsigned_tx(a, b, 100, 0),
        unsigned_tx(b, c, 1050, 0),
        unsigned_tx(c, a, 7, 0),
        unsigned_tx(a, a, 3, 1),
        unsigned_tx(b, a, 9999, 1),
    ];
    let r1 = run(funded(&[a, b, c], 1000), txs.clone(), 1, false);
    let r8 = run(funded(&[a, b, c], 1000), txs, 8, false);

    assert_eq!(r1.successful, r8.successful);
    assert_eq!(r1.failed, r8.failed);
    assert_eq!(r1.total_executions, r8.total_executions);
    let mut f1 = r1.final_states.clone();
    let mut f8 = r8.final_states.clone();
    f1.sort_by(|x, y| x.0.cmp(&y.0));
    f8.sort_by(|x, y| x.0.cmp(&y.0));
    assert_eq!(f1, f8);
}

#[test]
fn bounded_total_executions() {
    let (a, b) = (addr(1), addr(2));
    let n = 9usize;
    let mut txs = Vec::new();
    for i in 0..n as u64 {
        txs.push(unsigned_tx(a, b, 1, i));
    }
    let result = run(funded(&[a, b], 1000), txs, 4, false);
    assert_eq!(result.total_executions, n);
    assert!(result.total_executions <= n * n);
}

#[test]
fn unfunded_accounts_read_as_empty() {
    // The sender is not in the initial snapshot: nonce 0, balance 0, so a
    // transfer of 0 succeeds and anything more fails.
    let (a, b) = (addr(1), addr(2));
    let txs = vec![unsigned_tx(a, b, 0, 0), unsigned_tx(b, a, 1, 0)];
    let result = run(AccountMap::new(), txs, 2, false);
    assert_eq!(result.successful, 1);
    assert_eq!(result.failed, 1);
    assert_eq!(final_state(&result, a).nonce, 1);
    assert_eq!(final_state(&result, b).balance, Amount::from_u64(0));
}

#[test]
fn signature_recovery_round_trip() {
    let acc = account_from_seed(42);
    let tx = sign_tx(&acc, addr(9), Amount::from_u64(1000), 0);
    assert_eq!(tx.recover_signer(), Some(acc.address));
    assert!(tx.verify_signature());

    // A tampered digest no longer recovers to the sender.
    let mut tampered = tx.clone();
    tampered.tx_hash = tx_digest(acc.address, addr(9), &Amount::from_u64(1001), 0);
    assert!(!tampered.verify_signature());

    // A mangled signature is rejected outright.
    let mut mangled = tx.clone();
    mangled.signature[64] = 29;
    assert_eq!(mangled.recover_signer(), None);
}

#[test]
fn receiver_overflow_is_a_failure() {
    let (a, b) = (addr(1), addr(2));
    let mut init = AccountMap::new();
    init.insert(a, AccountState { nonce: 0, balance: Amount::from_u64(1000) });
    // The receiver already holds the largest representable balance.
    init.insert(
        b,
        AccountState {
            nonce: 0,
            balance: Amount { l0: u64::MAX, l1: u64::MAX, l2: u64::MAX, l3: u64::MAX },
        },
    );
    let result = run(init, vec![unsigned_tx(a, b, 1, 0)], 2, false);
    assert_eq!(result.successful, 0);
    assert_eq!(result.failed, 1);
}

#[test]
fn exhausted_nonce_is_a_failure() {
    let (a, b) = (addr(1), addr(2));
    let mut init = AccountMap::new();
    init.insert(a, AccountState { nonce: u64::MAX, balance: Amount::from_u64(1000) });
    init.insert(b, AccountState { nonce: 0, balance: Amount::from_u64(1000) });
    let result = run(init, vec![unsigned_tx(a, b, 1, u64::MAX)], 2, false);
    assert_eq!(result.successful, 0);
    assert_eq!(result.failed, 1);
}
