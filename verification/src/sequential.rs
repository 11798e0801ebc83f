//! Sequential transaction executor: the baseline that applies the batch
//! strictly in order, one transaction at a time.

use vstd::prelude::*;

use crate::amount::Amount;
use crate::ordering::OrderingMode;
use crate::results::ExecutionResult;
use crate::semantics::{
    account_in, apply_tx, models_of, serial_step, state_after, success_count, tx_succeeds,
    tx_valid,
};
use crate::state::AccountMap;
use crate::types::{AccountState, Transaction};

verus! {

/// Sequential executor that processes transactions one at a time, in batch
/// order, with optional signature verification. Its outcome is the serial
/// reference every other executor is held to.
#[derive(Debug, Clone)]
pub struct SequentialExecutor {
    /// Whether to verify signatures during execution.
    pub verify_signatures: bool,
    /// Ordering mode (ignored: sequential execution is always strict).
    pub ordering: OrderingMode,
}

impl SequentialExecutor {
    /// Creates a new sequential executor.
    pub fn new(verify_signatures: bool, ordering: OrderingMode) -> (r: Self)
        ensures
            r == (SequentialExecutor { verify_signatures, ordering }),
    {
        Self { verify_signatures, ordering }
    }

    /// Creates a new sequential executor with default (strict) ordering.
    pub fn with_verification(verify_signatures: bool) -> (r: Self)
        ensures
            r == (SequentialExecutor { verify_signatures, ordering: OrderingMode::Strict }),
    {
        Self::new(verify_signatures, OrderingMode::default())
    }

    /// Executes the batch strictly in order on the given store: each
    /// transaction is applied when its signature (if verification is on),
    /// nonce, balance and arithmetic bounds allow, and skipped as failed
    /// otherwise. Returns the final store and the counters.
    pub fn execute(&self, db: AccountMap, transactions: &Vec<Transaction>) -> (r: (
        AccountMap,
        ExecutionResult,
    ))
        requires
            db.wf(),
            forall|k: int| 0 <= k < transactions@.len() ==> (#[trigger] transactions@[k]).wf(),
        ensures
            r.0.wf(),
            models_of(r.0@) == state_after(
                transactions@,
                models_of(db@),
                self.verify_signatures,
                transactions@.len() as int,
            ),
            r.1.successful == success_count(
                transactions@,
                models_of(db@),
                self.verify_signatures,
                transactions@.len() as int,
            ),
            r.1.failed + r.1.successful == transactions@.len(),
    {
        let ghost txs = transactions@;
        let ghost initm = models_of(db@);
        let ghost verify = self.verify_signatures;
        let mut db = db;
        let mut successful: usize = 0;
        let mut failed: usize = 0;
        let n = transactions.len();
        for i in 0..n
            invariant
                n == transactions@.len(),
                txs == transactions@,
                verify == self.verify_signatures,
                forall|k: int| 0 <= k < transactions@.len() ==> (#[trigger] transactions@[k]).wf(),
                db.wf(),
                models_of(db@) == state_after(txs, initm, verify, i as int),
                successful as int == success_count(txs, initm, verify, i as int),
                successful <= i,
                failed == i - successful,
        {
            let tx = &transactions[i];
            let applied = Self::apply_one(&mut db, tx, self.verify_signatures);
            proof {
                assert(applied == tx_succeeds(txs, initm, verify, i as int));
            }
            if applied {
                successful = successful + 1;
            } else {
                failed = failed + 1;
            }
        }
        (db, ExecutionResult { successful, failed })
    }

    /// Applies one transaction to the store when it is valid there, and
    /// reports whether it was applied; an invalid transaction leaves the
    /// store unchanged.
    fn apply_one(db: &mut AccountMap, tx: &Transaction, verify_signatures: bool) -> (applied: bool)
        requires
            old(db).wf(),
            tx.wf(),
        ensures
            final(db).wf(),
            applied == tx_valid(models_of(old(db)@), *tx, verify_signatures),
            models_of(final(db)@) == serial_step(models_of(old(db)@), *tx, verify_signatures),
    {
        let ghost m = models_of(old(db)@);
        if verify_signatures && !tx.verify_signature() {
            return false;
        }
        let sender = match db.get(&tx.from) {
            Some(st) => *st,
            None => AccountState { nonce: 0, balance: Amount::zero() },
        };
        proof {
            assert(sender.model() == account_in(m, tx.from));
        }
        if sender.nonce != tx.nonce {
            return false;
        }
        let new_sender_balance = match sender.balance.checked_sub(&tx.value) {
            Some(b) => b,
            None => {
                return false;
            },
        };
        if tx.nonce == u64::MAX {
            return false;
        }
        let new_nonce = tx.nonce + 1;
        if tx.from == tx.to {
            let combined = AccountState { nonce: new_nonce, balance: sender.balance };
            db.insert(tx.from, combined);
            proof {
                assert(tx_valid(m, *tx, verify_signatures));
                assert(models_of(db@) =~= apply_tx(m, *tx));
            }
            return true;
        }
        let receiver = match db.get(&tx.to) {
            Some(st) => *st,
            None => AccountState { nonce: 0, balance: Amount::zero() },
        };
        proof {
            assert(receiver.model() == account_in(m, tx.to));
        }
        let new_receiver_balance = match receiver.balance.checked_add(&tx.value) {
            Some(b) => b,
            None => {
                return false;
            },
        };
        let ghost db_mid = db@;
        db.insert(tx.from, AccountState { nonce: new_nonce, balance: new_sender_balance });
        db.insert(tx.to, AccountState { nonce: receiver.nonce, balance: new_receiver_balance });
        proof {
            assert(tx_valid(m, *tx, verify_signatures));
            assert(models_of(db@) =~= apply_tx(m, *tx));
        }
        true
    }

    /// Returns whether this executor preserves transaction ordering.
    pub fn preserves_order(&self) -> (r: bool)
        ensures
            r,
    {
        true
    }

    /// Returns a human-readable name for this executor.
    pub fn name(&self) -> (r: &'static str)
        ensures
            r@ == "sequential_in_memory"@,
    {
        "sequential_in_memory"
    }
}

impl Default for SequentialExecutor {
    /// The default executor verifies signatures and keeps strict ordering.
    fn default() -> (r: Self)
        ensures
            r == (SequentialExecutor {
                verify_signatures: true,
                ordering: OrderingMode::Strict,
            }),
    {
        Self::new(true, OrderingMode::default())
    }
}

} // verus!
