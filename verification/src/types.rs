//! Core data model: addresses, account states, versions, statuses.

use vstd::prelude::*;

use crate::amount::Amount;

verus! {

/// Transaction index in the batch (0-based, canonical order).
pub type TxnIndex = usize;

/// Incarnation number (how many times a transaction has been re-scheduled).
pub type Incarnation = usize;

/// An account identifier: an opaque 160-bit value, held as the first four
/// bytes (`hi`, big-endian) and the remaining sixteen bytes (`lo`).
#[derive(Clone, Copy, PartialEq, Eq, Structural, Debug, Hash, PartialOrd, Ord)]
pub struct Address {
    pub hi: u32,
    pub lo: u128,
}

impl Address {
    pub fn new(hi: u32, lo: u128) -> (r: Address)
        ensures
            r == (Address { hi, lo }),
    {
        Address { hi, lo }
    }
}

/// Version identifier for one execution of one transaction.
#[derive(Clone, Copy, PartialEq, Eq, Structural, Debug, Hash, PartialOrd, Ord)]
pub struct Version {
    pub txn_idx: TxnIndex,
    pub incarnation: Incarnation,
}

impl Version {
    pub fn new(txn_idx: TxnIndex, incarnation: Incarnation) -> (r: Self)
        ensures
            r == (Version { txn_idx, incarnation }),
    {
        Self { txn_idx, incarnation }
    }
}

/// Account state: a nonce and a 256-bit balance. Immutable once published;
/// an update produces a new value.
#[derive(Clone, Copy, PartialEq, Eq, Structural, Debug)]
pub struct AccountState {
    pub nonce: u64,
    pub balance: Amount,
}

/// The mathematical reading of an [`AccountState`]: the nonce and the
/// numeric balance, free of limb representation.
pub ghost struct AccountModel {
    pub nonce: nat,
    pub balance: int,
}

impl AccountState {
    pub fn new(nonce: u64, balance: Amount) -> (r: Self)
        ensures
            r == (AccountState { nonce, balance }),
    {
        Self { nonce, balance }
    }

    /// The mathematical value of this account state.
    pub open spec fn model(self) -> AccountModel {
        AccountModel { nonce: self.nonce as nat, balance: self.balance.as_int() }
    }
}

/// The state of an account that the initial snapshot does not mention.
pub open spec fn zero_model() -> AccountModel {
    AccountModel { nonce: 0, balance: 0 }
}

/// Read or write operation on an account.
#[derive(Debug, Clone, Copy, PartialEq, Eq, Structural, Hash)]
pub enum AccessType {
    Read,
    Write,
}

/// A memory access (read or write) by a transaction.
#[derive(Debug, Clone)]
pub struct MemoryAccess {
    pub address: Address,
    pub access_type: AccessType,
    /// Version read from (for reads).
    pub version: Option<Version>,
    /// Value written (for writes).
    pub value: Option<AccountState>,
}

/// Result of a transaction execution attempt.
#[derive(Debug, Clone)]
pub enum ExecutionResult {
    /// Transaction executed successfully.
    Success { read_set: Vec<MemoryAccess>, write_set: Vec<MemoryAccess>, gas_used: u64 },
    /// Transaction execution failed (signature invalid, etc.).
    Failed { reason: String },
    /// Transaction needs to be re-executed (dependency changed).
    Retry,
}

/// Status of a transaction in the scheduler.
#[derive(Debug, Clone, Copy, PartialEq, Eq, Structural)]
pub enum ExecutionStatus {
    /// Not yet scheduled for execution.
    Pending,
    /// Currently executing.
    Executing(Incarnation),
    /// Finished execution, result available.
    Executed(Incarnation),
    /// Committed to final state.
    Committed,
}

/// A nonce-checked value transfer, with its signing digest and signature.
#[derive(Debug, Clone)]
pub struct Transaction {
    pub from: Address,
    pub to: Address,
    pub value: Amount,
    pub nonce: u64,
    /// The 65-byte ECDSA signature (`r`, `s`, parity), verified in parallel.
    pub signature: Vec<u8>,
    /// The 32-byte digest that was signed.
    pub tx_hash: Vec<u8>,
}

impl Transaction {
    /// A transaction carries a 65-byte signature and a 32-byte digest.
    pub open spec fn wf(self) -> bool {
        self.signature@.len() == 65 && self.tx_hash@.len() == 32
    }
}

} // verus!
