//! Block-STM executor front end: runs a batch through the parallel engine
//! against a plain account store.

use vstd::prelude::*;

use crate::executor::{batch_outcome_ok, ExecutorConfig, ParallelExecutor};
use crate::results::ExecutionResult;
use crate::semantics::{account_in, models_of, state_after, success_count, written_set};
use crate::state::{lemma_map_of_contains, lemma_map_of_get, AccountMap};
use crate::types::Transaction;

verus! {

/// Block-STM parallel executor: optimistic concurrency control with
/// push-based invalidation, preserving strict ordering of outcomes.
#[derive(Debug, Clone, Copy, PartialEq, Eq, Structural)]
pub struct BlockStmExecutor {
    pub num_threads: usize,
    pub verify_signatures: bool,
}

impl BlockStmExecutor {
    /// Creates a new Block-STM executor with the given number of threads.
    pub fn new(num_threads: usize, verify_signatures: bool) -> (r: Self)
        ensures
            r == (BlockStmExecutor { num_threads, verify_signatures }),
    {
        Self { num_threads, verify_signatures }
    }

    /// Executes the batch through the engine. The returned store holds
    /// exactly the addresses the batch wrote, each at the state that strict
    /// serial execution of the batch gives it; the counters equal the serial
    /// counters.
    pub fn execute(&self, db: AccountMap, transactions: Vec<Transaction>) -> (r: (
        AccountMap,
        ExecutionResult,
    ))
        requires
            db.wf(),
            forall|k: int| 0 <= k < transactions@.len() ==> (#[trigger] transactions@[k]).wf(),
        ensures
            r.0.wf(),
            r.1.successful == success_count(
                transactions@,
                models_of(db@),
                self.verify_signatures,
                transactions@.len() as int,
            ),
            r.1.failed + r.1.successful == transactions@.len(),
            forall|a: crate::types::Address|
                #[trigger] r.0@.dom().contains(a) <==> written_set(
                    transactions@,
                    models_of(db@),
                    self.verify_signatures,
                    transactions@.len() as int,
                ).contains(a),
            forall|a: crate::types::Address|
                #[trigger] r.0@.dom().contains(a) ==> r.0@[a].model() == account_in(
                    state_after(
                        transactions@,
                        models_of(db@),
                        self.verify_signatures,
                        transactions@.len() as int,
                    ),
                    a,
                ),
    {
        let ghost txs = transactions@;
        let ghost initm = models_of(db@);
        let ghost verify = self.verify_signatures;
        let ghost n = transactions@.len() as int;
        let config = ExecutorConfig {
            num_threads: self.num_threads,
            verify_signatures: self.verify_signatures,
            initial_states: db,
        };
        let executor = ParallelExecutor::new(config);
        let result = executor.execute_block(transactions);
        let ghost pairs = result.final_states@;
        let counters = ExecutionResult::new(result.successful, result.failed);
        let final_db = AccountMap::from_pairs(result.final_states);
        proof {
            assert forall|a: crate::types::Address| #[trigger] final_db@.dom().contains(a)
                <==> written_set(txs, initm, verify, n).contains(a) by {
                lemma_map_of_contains(pairs, a);
                if final_db@.dom().contains(a) {
                    let i = choose|i: int| 0 <= i < pairs.len() && (#[trigger] pairs[i]).0 == a;
                    assert(written_set(txs, initm, verify, n).contains(pairs[i].0));
                }
            }
            assert forall|a: crate::types::Address|
                #[trigger] final_db@.dom().contains(a) implies final_db@[a].model() == account_in(
                state_after(txs, initm, verify, n),
                a,
            ) by {
                lemma_map_of_contains(pairs, a);
                let i = choose|i: int| 0 <= i < pairs.len() && (#[trigger] pairs[i]).0 == a;
                lemma_map_of_get(pairs, i);
                assert(pairs[i].1.model() == account_in(state_after(txs, initm, verify, n), a));
            }
        }
        (final_db, counters)
    }

    /// Returns whether this executor preserves transaction ordering.
    pub fn preserves_order(&self) -> (r: bool)
        ensures
            r,
    {
        true
    }

    /// Returns a human-readable name for this executor.
    pub fn name(&self) -> (r: &'static str)
        ensures
            r@ == "block_stm_parallel"@,
    {
        "block_stm_parallel"
    }
}

} // verus!
