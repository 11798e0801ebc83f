use db_test::{
    AccountMap, AccountState, Address, Amount, BlockStmExecutor, OrderingMode, SequentialExecutor,
    Transaction,
};
use k256::ecdsa::{SigningKey, VerifyingKey};
use k256::elliptic_curve::sec1::ToSec1Point;
use rand::rngs::StdRng;
use rand::{Rng, SeedableRng};
use std::collections::HashMap;

struct TestAccount {
    signing_key: SigningKey,
    address: Address,
}

fn address_from_key(vk: &VerifyingKey) -> Address {
    let point = vk.to_sec1_point(false);
    let hash = alloy_primitives::keccak256(&point.as_bytes()[1..]);
    let b = &hash[12..32];
    let hi = u32::from_be_bytes([b[0], b[1], b[2], b[3]]);
    let mut lo_bytes = [0u8; 16];
    lo_bytes.copy_from_slice(&b[4..20]);
    Address { hi, lo: u128::from_be_bytes(lo_bytes) }
}

fn account_from_seed(seed: u64) -> TestAccount {
    let mut rng = StdRng::seed_from_u64(seed);
    let mut key_bytes = [0u8; 32];
    rng.fill(&mut key_bytes);
    let signing_key = SigningKey::from_bytes(&key_bytes.into()).expect("valid key bytes");
    let address = address_from_key(&VerifyingKey::from(&signing_key));
    TestAccount { signing_key, address }
}

fn amount_be_bytes(v: &Amount) -> [u8; 32] {
    let mut out = [0u8; 32];
    out[0..8].copy_from_slice(&v.l3.to_be_bytes());
    out[8..16].copy_from_slice(&v.l2.to_be_bytes());
    out[16..24].copy_from_slice(&v.l1.to_be_bytes());
    out[24..32].copy_from_slice(&v.l0.to_be_bytes());
    out
}

fn sign_tx(account: &TestAccount, to: Address, value: Amount, nonce: u64) -> Transaction {
    let mut data = Vec::new();
    data.extend_from_slice(&account.address.hi.to_be_bytes());
    data.extend_from_slice(&account.address.lo.to_be_bytes());
    data.extend_from_slice(&to.hi.to_be_bytes());
    data.extend_from_slice(&to.lo.to_be_bytes());
    data.extend_from_slice(&amount_be_bytes(&value));
    data.extend_from_slice(&nonce.to_be_bytes());
    let tx_hash = alloy_primitives::keccak256(&data).to_vec();
    let (sig, recovery_id) = account.signing_key.sign_prehash_recoverable(&tx_hash);
    let mut signature = sig.to_bytes().to_vec();
    signature.push(recovery_id.to_byte());
    Transaction { from: account.address, to, value, nonce, signature, tx_hash }
}

/// A deterministic workload: `num_transactions` signed transfers of 0.001
/// ETH between `num_accounts` accounts derived from `seed`, nonces tracked
/// per sender, all accounts funded with 1000 ETH.
fn generate_workload(
    num_accounts: usize,
    num_transactions: usize,
    seed: u64,
) -> (AccountMap, Vec<Transaction>) {
    let mut rng = StdRng::seed_from_u64(seed);
    let accounts: Vec<TestAccount> =
        (0..num_accounts).map(|i| account_from_seed(seed.wrapping_add(i as u64))).collect();

    let mut db = AccountMap::new();
    let initial_balance = Amount::from_u128(1_000_000_000_000_000_000_000u128);
    for account in &accounts {
        db.insert(account.address, AccountState { nonce: 0, balance: initial_balance });
    }

    let mut nonces: HashMap<usize, u64> = HashMap::new();
    let transactions: Vec<Transaction> = (0..num_transactions)
        .map(|_| {
            let from = rng.gen_range(0..num_accounts);
            let mut to = rng.gen_range(0..num_accounts);
            while to == from {
                to = rng.gen_range(0..num_accounts);
            }
            let nonce = nonces.entry(from).or_insert(0);
            let tx = sign_tx(
                &accounts[from],
                accounts[to].address,
                Amount::from_u64(1_000_000_000_000_000u64),
                *nonce,
            );
            *nonce += 1;
            tx
        })
        .collect();

    (db, transactions)
}

#[test]
fn test_sequential_executor_with_verification() {
    let (db, transactions) = generate_workload(10, 5, 42);

    let executor = SequentialExecutor::new(true, OrderingMode::Strict);
    let (_, result) = executor.execute(db, &transactions);

    assert_eq!(result.successful, 5);
    assert_eq!(result.failed, 0);
}

#[test]
fn test_sequential_executor_without_verification() {
    let (db, transactions) = generate_workload(10, 5, 42);

    let executor = SequentialExecutor::new(false, OrderingMode::Loose);
    let (_, result) = executor.execute(db, &transactions);

    assert_eq!(result.successful, 5);
    assert_eq!(result.failed, 0);
}

#[test]
fn test_sequential_executor_convenience_constructor() {
    let (db, transactions) = generate_workload(10, 5, 42);

    let executor = SequentialExecutor::with_verification(true);
    let (_, result) = executor.execute(db, &transactions);

    assert_eq!(result.successful, 5);
    assert_eq!(result.failed, 0);
    assert_eq!(executor.ordering, OrderingMode::Strict);
}

#[test]
fn test_ordering_mode_methods() {
    assert!(OrderingMode::Strict.is_strict());
    assert!(!OrderingMode::Strict.is_loose());

    assert!(!OrderingMode::Loose.is_strict());
    assert!(OrderingMode::Loose.is_loose());

    assert_eq!(OrderingMode::default(), OrderingMode::Strict);
}

#[test]
fn test_block_stm_executor() {
    let executor = BlockStmExecutor::new(2, false);

    let (db, transactions) = generate_workload(10, 20, 42);
    let (_, result) = executor.execute(db, transactions);

    // All transactions should succeed with no conflicts
    assert_eq!(result.successful, 20);
    assert_eq!(result.failed, 0);
}

#[test]
fn parallel_engine_matches_sequential_baseline() {
    let (db_seq, transactions) = generate_workload(6, 30, 123);
    let (db_stm, transactions2) = generate_workload(6, 30, 123);

    let sequential = SequentialExecutor::with_verification(true);
    let (final_seq, result_seq) = sequential.execute(db_seq, &transactions);

    let engine = BlockStmExecutor::new(4, true);
    let (final_stm, result_stm) = engine.execute(db_stm, transactions2);

    assert_eq!(result_seq.successful, result_stm.successful);
    assert_eq!(result_seq.failed, result_stm.failed);

    // Every account the engine reports agrees with the serial baseline.
    for seed_offset in 0..6u64 {
        let acc = account_from_seed(123u64.wrapping_add(seed_offset));
        if let Some(st) = final_stm.get(&acc.address) {
            assert_eq!(Some(st), final_seq.get(&acc.address));
        }
    }
}

#[test]
fn sequential_executor_counts_invalid_transactions() {
    let a = Address { hi: 0, lo: 1 };
    let b = Address { hi: 0, lo: 2 };
    let mut db = AccountMap::new();
    db.insert(a, AccountState { nonce: 0, balance: Amount::from_u64(100) });

    let transactions = vec![
        Transaction {
            from: a,
            to: b,
            value: Amount::from_u64(40),
            nonce: 0,
            signature: vec![0u8; 65],
            tx_hash: vec![0u8; 32],
        },
        // wrong nonce: fails
        Transaction {
            from: a,
            to: b,
            value: Amount::from_u64(40),
            nonce: 0,
            signature: vec![0u8; 65],
            tx_hash: vec![0u8; 32],
        },
        // insufficient balance: fails
        Transaction {
            from: a,
            to: b,
            value: Amount::from_u64(61),
            nonce: 1,
            signature: vec![0u8; 65],
            tx_hash: vec![0u8; 32],
        },
    ];

    let executor = SequentialExecutor::new(false, OrderingMode::Strict);
    let (final_db, result) = executor.execute(db, &transactions);

    assert_eq!(result.successful, 1);
    assert_eq!(result.failed, 2);
    assert_eq!(final_db.get(&a), Some(&AccountState { nonce: 1, balance: Amount::from_u64(60) }));
    assert_eq!(final_db.get(&b), Some(&AccountState { nonce: 0, balance: Amount::from_u64(40) }));
}

#[test]
fn engine_matches_baseline_under_full_conflict() {
    // Every transfer touches the same two accounts, in both directions.
    let a = account_from_seed(7);
    let b = account_from_seed(8);
    let mut db_seq = AccountMap::new();
    let mut db_stm = AccountMap::new();
    for db in [&mut db_seq, &mut db_stm] {
        db.insert(a.address, AccountState { nonce: 0, balance: Amount::from_u64(1000) });
        db.insert(b.address, AccountState { nonce: 0, balance: Amount::from_u64(1000) });
    }

    let mut transactions = Vec::new();
    for i in 0..20u64 {
        let (from, to) = if i % 2 == 0 { (&a, &b) } else { (&b, &a) };
        transactions.push(sign_tx(from, to.address, Amount::from_u64(50 + i), i / 2));
    }

    let sequential = SequentialExecutor::with_verification(true);
    let (final_seq, result_seq) = sequential.execute(db_seq, &transactions);

    let engine = BlockStmExecutor::new(4, true);
    let (final_stm, result_stm) = engine.execute(db_stm, transactions);

    assert_eq!(result_seq.successful, result_stm.successful);
    assert_eq!(result_seq.failed, result_stm.failed);
    assert_eq!(final_stm.get(&a.address), final_seq.get(&a.address));
    assert_eq!(final_stm.get(&b.address), final_seq.get(&b.address));
}
