//! The parallel engine: a Block-STM style optimistic controller that applies
//! an ordered batch of transfers and commits them in index order, with the
//! outcome proved equal to strict serial execution.

use vstd::prelude::*;

use crate::amount::{amount_bound, Amount};
use crate::mvhashmap::{
    bare, bare_entry, entry_at, exists_below, has_entry, lemma_max_below, lemma_max_below_bounds,
    lemma_upsert_shape, max_below, reader_in, read_spec, sorted_history, sorted_insert, upsert,
    EntryModel, MVHashMap, ReadResult,
};
use crate::scheduler::{
    abort_fold, commit_scan, set_executed, wf_model, SchedModel, Scheduler, Task,
};
use crate::semantics::{
    account_in, lemma_state_frame, models_of, recovered_of, serial_writes, sig_ok, state_after,
    success_count, transfer_valid, tx_succeeds, written_set,
};
use crate::state::AccountMap;
use crate::types::{
    AccountModel, AccountState, Address, ExecutionStatus, Incarnation, Transaction, TxnIndex,
    Version,
};

verus! {

/// Error type for transaction execution.
#[derive(Debug, Clone)]
pub enum ExecutionError {
    /// Permanent failure - the transaction is invalid (e.g., bad signature).
    Permanent(String),
    /// Retry needed - a dependency has not been resolved yet. The transaction
    /// will be re-executed after an invalidation.
    Retry,
}

impl Transaction {
    /// Recovers the signer address from the signature over the digest.
    ///
    /// Relies on `alloy_primitives::Signature::from_raw` (parses exactly 65
    /// bytes: `r`, `s` and a parity byte) and
    /// `Signature::recover_address_from_prehash` (ECDSA public-key recovery):
    /// both are functions of the signature and digest bytes alone, and return
    /// an error, never panic, on inputs of these lengths.
    #[verifier::external_body]
    pub fn recover_signer(&self) -> (r: Option<Address>)
        requires
            self.wf(),
        ensures
            r == (match recovered_of(self.signature@, self.tx_hash@) {
                Some(p) => Some(Address { hi: p.0, lo: p.1 }),
                None => None,
            }),
    {
        let sig = match alloy_primitives::Signature::from_raw(&self.signature) {
            Ok(s) => s,
            Err(_) => return None,
        };
        let digest = alloy_primitives::B256::from_slice(&self.tx_hash);
        match sig.recover_address_from_prehash(&digest) {
            Ok(addr) => {
                let b: [u8; 20] = addr.into_array();
                let hi = u32::from_be_bytes([b[0], b[1], b[2], b[3]]);
                let mut lo_bytes = [0u8; 16];
                lo_bytes.copy_from_slice(&b[4..20]);
                Some(Address { hi, lo: u128::from_be_bytes(lo_bytes) })
            },
            Err(_) => None,
        }
    }

    /// Whether the signature recovers to the claimed sender.
    pub fn verify_signature(&self) -> (r: bool)
        requires
            self.wf(),
        ensures
            r == sig_ok(*self),
    {
        match self.recover_signer() {
            Some(addr) => addr == self.from,
            None => false,
        }
    }
}

/// Configuration for batch execution.
pub struct ExecutorConfig {
    /// Number of worker threads the embedder intends to use. The outcome is
    /// proved independent of it.
    pub num_threads: usize,
    /// Whether to verify signatures.
    pub verify_signatures: bool,
    /// Initial account states.
    pub initial_states: AccountMap,
}

/// Result of executing one batch.
pub struct BlockExecutionResult {
    /// Number of successful transactions.
    pub successful: usize,
    /// Number of failed transactions.
    pub failed: usize,
    /// Total number of transaction executions (including re-executions).
    pub total_executions: usize,
    /// Final account states after execution: every address some transaction
    /// wrote, with the state of its highest committed writer.
    pub final_states: Vec<(Address, AccountState)>,
}

/// The account state of an address the initial snapshot does not mention.
pub open spec fn zero_state() -> AccountState {
    AccountState { nonce: 0, balance: Amount { l0: 0, l1: 0, l2: 0, l3: 0 } }
}

/// The state a read through the store observes: the state of the entry of
/// the greatest writer below `r`, or the initial snapshot (nonce 0, balance
/// 0 for unknown addresses) when there is none.
pub open spec fn read_value(
    h: Seq<EntryModel>,
    init: Map<Address, AccountState>,
    a: Address,
    r: int,
) -> AccountState {
    match read_spec(h, r) {
        ReadResult::Versioned(_v, st) => st,
        _ => if init.dom().contains(a) {
            init[a]
        } else {
            zero_state()
        },
    }
}

/// A read returns either a versioned entry or falls through to storage.
proof fn lemma_read_spec_cases(h: Seq<EntryModel>, r: int)
    ensures
        read_spec(h, r) is Versioned || read_spec(h, r) is Storage,
    decreases h.len(),
{
    if h.len() > 0 && !(h.last().version.txn_idx < r) {
        lemma_read_spec_cases(h.drop_last(), r);
    }
}

/// Erasing reader sets commutes with installing a write.
proof fn lemma_bare_upsert(h: Seq<EntryModel>, e: EntryModel)
    ensures
        bare(upsert(h, e)) == upsert(bare(h), bare_entry(e)),
    decreases h.len(),
{
    if h.len() == 0 {
        assert(bare(upsert(h, e)) =~= upsert(bare(h), bare_entry(e)));
    } else {
        assert(bare(h).last() == bare_entry(h.last()));
        assert(bare(h).len() == h.len());
        if h.last().version.txn_idx < e.version.txn_idx {
            assert(bare(h.push(e)) =~= bare(h).push(bare_entry(e)));
        } else if h.last().version.txn_idx == e.version.txn_idx {
            assert(bare(h.drop_last()) =~= bare(h).drop_last());
            assert(bare(h.drop_last().push(e)) =~= bare(h).drop_last().push(bare_entry(e)));
        } else {
            lemma_bare_upsert(h.drop_last(), e);
            assert(bare(h.drop_last()) =~= bare(h).drop_last());
            assert(bare(upsert(h.drop_last(), e).push(h.last())) =~= upsert(
                bare(h).drop_last(),
                bare_entry(e),
            ).push(bare(h).last()));
        }
    }
}

/// What the applier observes for an address: the read through the store.
pub open spec fn observed(
    mv: MVHashMap,
    init: Map<Address, AccountState>,
    a: Address,
    idx: TxnIndex,
) -> AccountState {
    read_value(mv.history(a), init, a, idx as int)
}

/// The version history of an address after transaction `reader` has
/// registered the read it made of it: grown by the registration when the
/// read was answered by a versioned entry, untouched when it fell through
/// to storage.
pub open spec fn post_read_history(h: Seq<EntryModel>, reader: TxnIndex) -> Seq<EntryModel> {
    match read_spec(h, reader as int) {
        ReadResult::Versioned(v, _s) => crate::mvhashmap::recorded_history(h, reader, v),
        _ => h,
    }
}

/// The storage-read index of an address after transaction `reader` has
/// registered the read it made of it: grown by the registration when the
/// read fell through to storage, untouched otherwise.
pub open spec fn post_read_storage(
    h: Seq<EntryModel>,
    srs: Seq<TxnIndex>,
    reader: TxnIndex,
) -> Seq<TxnIndex> {
    match read_spec(h, reader as int) {
        ReadResult::Versioned(_v, _s) => srs,
        _ => crate::mvhashmap::recorded_storage(srs, reader),
    }
}

/// Whether `reader`'s read of `a` is registered for push-based
/// invalidation in `post`: on the entry the read (made against `pre`)
/// observed, or in the storage-read index when it fell through to the
/// snapshot.
pub open spec fn registered_after(
    pre: MVHashMap,
    post: MVHashMap,
    a: Address,
    reader: TxnIndex,
) -> bool {
    match read_spec(pre.history(a), reader as int) {
        ReadResult::Versioned(v, _s) => has_entry(post.history(a), v.txn_idx as int) && entry_at(
            post.history(a),
            v.txn_idx as int,
        ).readers.contains(reader),
        _ => post.storage_readers(a).contains(reader),
    }
}

/// Parallel Block-STM executor.
pub struct ParallelExecutor {
    config: ExecutorConfig,
}

impl ParallelExecutor {
    /// The configuration the executor was created with.
    pub closed spec fn spec_config(self) -> ExecutorConfig {
        self.config
    }

    /// Creates a new parallel executor.
    pub fn new(config: ExecutorConfig) -> (r: Self)
        ensures
            r.spec_config() == config,
    {
        Self { config }
    }

    /// Reads an account through the multi-version store, falling back to the
    /// initial snapshot, and registers the read for push-based invalidation.
    fn read_account(
        address: Address,
        reader_txn_idx: TxnIndex,
        mv_hashmap: &mut MVHashMap,
        initial_states: &AccountMap,
    ) -> (r: AccountState)
        requires
            old(mv_hashmap).wf(),
            initial_states.wf(),
        ensures
            final(mv_hashmap).wf(),
            r == read_value(
                old(mv_hashmap).history(address),
                initial_states@,
                address,
                reader_txn_idx as int,
            ),
            forall|b: Address|
                b != address ==> #[trigger] final(mv_hashmap).history(b) == old(
                    mv_hashmap,
                ).history(b),
            forall|b: Address|
                b != address ==> #[trigger] final(mv_hashmap).storage_readers(b) == old(
                    mv_hashmap,
                ).storage_readers(b),
            bare(final(mv_hashmap).history(address)) == bare(old(mv_hashmap).history(address)),
            forall|x: TxnIndex|
                #[trigger] reader_in(final(mv_hashmap).history(address), x) ==> reader_in(
                    old(mv_hashmap).history(address),
                    x,
                ) || x == reader_txn_idx,
            forall|x: TxnIndex|
                #[trigger] final(mv_hashmap).storage_readers(address).contains(x) ==> old(
                    mv_hashmap,
                ).storage_readers(address).contains(x) || x == reader_txn_idx,
            final(mv_hashmap).history(address) == post_read_history(
                old(mv_hashmap).history(address),
                reader_txn_idx,
            ),
            final(mv_hashmap).storage_readers(address) == post_read_storage(
                old(mv_hashmap).history(address),
                old(mv_hashmap).storage_readers(address),
                reader_txn_idx,
            ),
            registered_after(*old(mv_hashmap), *final(mv_hashmap), address, reader_txn_idx),
    {
        let ghost h = mv_hashmap.history(address);
        let result = mv_hashmap.read(address, reader_txn_idx);
        match result {
            ReadResult::Versioned(version, state) => {
                mv_hashmap.record_read(address, reader_txn_idx, version);
                proof {
                    old(mv_hashmap).lemma_wf_sorted(address);
                    crate::mvhashmap::lemma_read_registers(
                        h,
                        reader_txn_idx,
                        version,
                        state,
                        reader_txn_idx as int,
                    );
                    let h2 = mv_hashmap.history(address);
                    if h2 != h {
                        let j = version.txn_idx as int;
                        let p = crate::mvhashmap::idx_of(h, j);
                        assert(h2 == h.update(
                            p,
                            EntryModel {
                                version: entry_at(h, j).version,
                                state: entry_at(h, j).state,
                                readers: entry_at(h, j).readers.push(reader_txn_idx),
                            },
                        ));
                        assert(bare(h2) =~= bare(h));
                        assert forall|x: TxnIndex| #[trigger] reader_in(h2, x) implies reader_in(
                            h,
                            x,
                        ) || x == reader_txn_idx by {
                            let q = choose|q: int|
                                0 <= q < h2.len() && (#[trigger] h2[q]).readers.contains(x);
                            if q != p {
                                assert(h[q].readers.contains(x));
                            } else {
                                if x != reader_txn_idx {
                                    assert(h2[p].readers == h[p].readers.push(reader_txn_idx));
                                    let k = choose|k: int|
                                        0 <= k < h2[p].readers.len() && h2[p].readers[k] == x;
                                    assert(h[p].readers[k] == x);
                                    assert(h[p].readers.contains(x));
                                }
                            }
                        }
                    }
                }
                state
            },
            ReadResult::Storage => {
                mv_hashmap.record_storage_read(address, reader_txn_idx);
                proof {
                    assert(bare(mv_hashmap.history(address)) == bare(h));
                    assert(mv_hashmap.storage_readers(address).contains(reader_txn_idx)) by {
                        let srs0 = old(mv_hashmap).storage_readers(address);
                        if !srs0.contains(reader_txn_idx) {
                            assert(mv_hashmap.storage_readers(address)[srs0.len() as int]
                                == reader_txn_idx);
                        }
                    }
                    assert forall|x: TxnIndex|
                        #[trigger] mv_hashmap.storage_readers(address).contains(x) implies old(
                        mv_hashmap,
                    ).storage_readers(address).contains(x) || x == reader_txn_idx by {
                        let srs0 = old(mv_hashmap).storage_readers(address);
                        if !srs0.contains(reader_txn_idx) && x != reader_txn_idx {
                            let k = choose|k: int|
                                0 <= k < mv_hashmap.storage_readers(address).len()
                                    && mv_hashmap.storage_readers(address)[k] == x;
                            assert(srs0[k] == x);
                        }
                    }
                }
                match initial_states.get(&address) {
                    Some(st) => *st,
                    None => AccountState { nonce: 0, balance: Amount::zero() },
                }
            },
            ReadResult::Dependency(_) => {
                proof {
                    lemma_read_spec_cases(h, reader_txn_idx as int);
                }
                vstd::pervasive::unreached()
            },
        }
    }

    /// Executes a single transaction against the store: verifies the
    /// signature when asked, reads the sender and receiver through the
    /// store, validates nonce and balance, and installs the transfer's
    /// writes. Returns the read and written addresses and the invalidated
    /// readers, or the error: `Retry` for a dependency hazard (nonce
    /// mismatch or insufficient balance at read time), `Permanent` for an
    /// invalid signature or arithmetic that cannot be represented.
    ///
    /// A self-transfer is installed as the single net update: nonce
    /// advanced, balance unchanged.
    #[verifier::rlimit(100)]
    #[verifier::spinoff_prover]
    fn execute_transaction(
        tx: &Transaction,
        txn_idx: TxnIndex,
        incarnation: Incarnation,
        mv_hashmap: &mut MVHashMap,
        initial_states: &AccountMap,
        verify_signatures: bool,
    ) -> (r: Result<(Vec<Address>, Vec<Address>, Vec<TxnIndex>), ExecutionError>)
        requires
            old(mv_hashmap).wf(),
            initial_states.wf(),
            tx.wf(),
        ensures
            final(mv_hashmap).wf(),
            ({
                let sender = observed(*old(mv_hashmap), initial_states@, tx.from, txn_idx).model();
                let receiver = observed(*old(mv_hashmap), initial_states@, tx.to, txn_idx).model();
                let valid = transfer_valid(sender, receiver, *tx, verify_signatures);
                &&& (r is Ok <==> valid)
                &&& (r matches Err(e) ==> ((e is Retry) <==> ((verify_signatures ==> sig_ok(*tx))
                    && (sender.nonce != tx.nonce || sender.balance < tx.value.as_int()))))
                &&& (!valid ==> bare(final(mv_hashmap).history(tx.from)) == bare(
                    old(mv_hashmap).history(tx.from),
                ) && bare(final(mv_hashmap).history(tx.to)) == bare(old(mv_hashmap).history(tx.to)))
                &&& (valid && tx.from != tx.to ==> (exists|stf: AccountState, stt: AccountState|
                    {
                        &&& #[trigger] stf.model() == (AccountModel {
                            nonce: (tx.nonce + 1) as nat,
                            balance: sender.balance - tx.value.as_int(),
                        })
                        &&& #[trigger] stt.model() == (AccountModel {
                            nonce: receiver.nonce,
                            balance: receiver.balance + tx.value.as_int(),
                        })
                        &&& bare(final(mv_hashmap).history(tx.from)) == upsert(
                            bare(old(mv_hashmap).history(tx.from)),
                            EntryModel {
                                version: Version { txn_idx, incarnation },
                                state: stf,
                                readers: Seq::empty(),
                            },
                        )
                        &&& bare(final(mv_hashmap).history(tx.to)) == upsert(
                            bare(old(mv_hashmap).history(tx.to)),
                            EntryModel {
                                version: Version { txn_idx, incarnation },
                                state: stt,
                                readers: Seq::empty(),
                            },
                        )
                    }))
                &&& (valid && tx.from == tx.to ==> (exists|stf: AccountState|
                    {
                        &&& #[trigger] stf.model() == (AccountModel {
                            nonce: (tx.nonce + 1) as nat,
                            balance: sender.balance,
                        })
                        &&& bare(final(mv_hashmap).history(tx.from)) == upsert(
                            bare(old(mv_hashmap).history(tx.from)),
                            EntryModel {
                                version: Version { txn_idx, incarnation },
                                state: stf,
                                readers: Seq::empty(),
                            },
                        )
                    }))
                &&& (forall|b: Address|
                    b != tx.from && b != tx.to ==> #[trigger] final(mv_hashmap).history(b) == old(
                        mv_hashmap,
                    ).history(b))
                &&& (forall|b: Address|
                    b != tx.from && b != tx.to ==> #[trigger] final(mv_hashmap).storage_readers(b)
                        == old(mv_hashmap).storage_readers(b))
                &&& (forall|x: TxnIndex|
                    #[trigger] reader_in(final(mv_hashmap).history(tx.from), x) ==> reader_in(
                        old(mv_hashmap).history(tx.from),
                        x,
                    ) || x == txn_idx)
                &&& (forall|x: TxnIndex|
                    #[trigger] reader_in(final(mv_hashmap).history(tx.to), x) ==> reader_in(
                        old(mv_hashmap).history(tx.to),
                        x,
                    ) || x == txn_idx)
                &&& (forall|x: TxnIndex|
                    #[trigger] final(mv_hashmap).storage_readers(tx.from).contains(x) ==> old(
                        mv_hashmap,
                    ).storage_readers(tx.from).contains(x) || x == txn_idx)
                &&& (forall|x: TxnIndex|
                    #[trigger] final(mv_hashmap).storage_readers(tx.to).contains(x) ==> old(
                        mv_hashmap,
                    ).storage_readers(tx.to).contains(x) || x == txn_idx)
                &&& (r matches Err(e) ==> ((e is Permanent) <==> ((verify_signatures && !sig_ok(
                    *tx,
                )) || ((!verify_signatures || sig_ok(*tx)) && sender.nonce == tx.nonce
                    && sender.balance >= tx.value.as_int() && (tx.nonce == u64::MAX || (tx.from
                    != tx.to && receiver.balance + tx.value.as_int() >= amount_bound()))))))
                &&& (verify_signatures && !sig_ok(*tx) ==> *final(mv_hashmap) == *old(mv_hashmap))
                &&& ((!verify_signatures || sig_ok(*tx)) ==> registered_after(
                    *old(mv_hashmap),
                    *final(mv_hashmap),
                    tx.from,
                    txn_idx,
                ))
                &&& (r is Ok ==> registered_after(
                    *old(mv_hashmap),
                    *final(mv_hashmap),
                    tx.to,
                    txn_idx,
                ))
                &&& (r matches Ok(ok) ==> {
                    &&& ok.0@ == seq![tx.from, tx.to]
                    &&& ok.1@ == seq![tx.from, tx.to]
                    &&& crate::mvhashmap::sorted_strict(ok.2@)
                    &&& ({
                        let hf = post_read_history(old(mv_hashmap).history(tx.from), txn_idx);
                        let sf = post_read_storage(
                            old(mv_hashmap).history(tx.from),
                            old(mv_hashmap).storage_readers(tx.from),
                            txn_idx,
                        );
                        let ht = post_read_history(old(mv_hashmap).history(tx.to), txn_idx);
                        let st = post_read_storage(
                            old(mv_hashmap).history(tx.to),
                            old(mv_hashmap).storage_readers(tx.to),
                            txn_idx,
                        );
                        if tx.from == tx.to {
                            forall|j: TxnIndex|
                                #[trigger] ok.2@.contains(j)
                                    <==> crate::mvhashmap::invalidation_targets(
                                    hf,
                                    sf,
                                    txn_idx as int,
                                ).contains(j)
                        } else {
                            forall|j: TxnIndex|
                                #[trigger] ok.2@.contains(j) <==> (
                                crate::mvhashmap::invalidation_targets(
                                    hf,
                                    sf,
                                    txn_idx as int,
                                ).contains(j) || crate::mvhashmap::invalidation_targets(
                                    ht,
                                    st,
                                    txn_idx as int,
                                ).contains(j))
                        }
                    })
                    &&& (forall|j: TxnIndex|
                        #[trigger] ok.2@.contains(j) ==> (j as int) > txn_idx && (reader_in(
                            old(mv_hashmap).history(tx.from),
                            j,
                        ) || old(mv_hashmap).storage_readers(tx.from).contains(j) || reader_in(
                            old(mv_hashmap).history(tx.to),
                            j,
                        ) || old(mv_hashmap).storage_readers(tx.to).contains(j) || j == txn_idx))
                })
            }),
    {
        let ghost pre = *mv_hashmap;
        if verify_signatures && !tx.verify_signature() {
            return Err(ExecutionError::Permanent("Invalid signature".to_owned()));
        }
        let sender_state = Self::read_account(tx.from, txn_idx, mv_hashmap, initial_states);
        let ghost mid1 = *mv_hashmap;
        if sender_state.nonce != tx.nonce {
            proof {
                if tx.to != tx.from {
                    assert(mv_hashmap.history(tx.to) == pre.history(tx.to));
                }
            }
            return Err(ExecutionError::Retry);
        }
        let new_sender_balance = match sender_state.balance.checked_sub(&tx.value) {
            Some(b) => b,
            None => {
                proof {
                    if tx.to != tx.from {
                        assert(mv_hashmap.history(tx.to) == pre.history(tx.to));
                    }
                }
                return Err(ExecutionError::Retry);
            },
        };
        if tx.nonce == u64::MAX {
            proof {
                if tx.to != tx.from {
                    assert(mv_hashmap.history(tx.to) == pre.history(tx.to));
                }
            }
            return Err(ExecutionError::Permanent("sender nonce overflow".to_owned()));
        }
        let new_nonce = tx.nonce + 1;
        if tx.from == tx.to {
            // Two writes to one address would supersede each other; install
            // the net update: nonce advanced, balance unchanged.
            let combined = AccountState { nonce: new_nonce, balance: sender_state.balance };
            let invalidated = Self::install_write(tx.from, txn_idx, incarnation, combined,
                mv_hashmap);
            proof {
                assert(bare(mid1.history(tx.from)) == bare(pre.history(tx.from)));
                lemma_registration_survives(
                    pre,
                    mid1,
                    *mv_hashmap,
                    tx.from,
                    txn_idx,
                    incarnation,
                    combined,
                    true,
                );
                assert(registered_after(pre, *mv_hashmap, tx.to, txn_idx));
                assert(mid1.history(tx.from) == post_read_history(
                    pre.history(tx.from),
                    txn_idx,
                ));
                assert(mid1.storage_readers(tx.from) == post_read_storage(
                    pre.history(tx.from),
                    pre.storage_readers(tx.from),
                    txn_idx,
                ));
                assert(combined.model() == (AccountModel {
                    nonce: (tx.nonce + 1) as nat,
                    balance: observed(pre, initial_states@, tx.from, txn_idx).model().balance,
                }));
                assert forall|x: TxnIndex|
                    #[trigger] reader_in(mv_hashmap.history(tx.from), x) implies reader_in(
                    pre.history(tx.from),
                    x,
                ) || x == txn_idx by {
                    if reader_in(mid1.history(tx.from), x) {
                    }
                }
                assert(mv_hashmap.storage_readers(tx.from) == mid1.storage_readers(tx.from));
                assert forall|j: TxnIndex| #[trigger] invalidated@.contains(j) implies (j as int)
                    > txn_idx && (reader_in(pre.history(tx.from), j) || pre.storage_readers(
                    tx.from,
                ).contains(j) || reader_in(pre.history(tx.to), j) || pre.storage_readers(
                    tx.to,
                ).contains(j) || j == txn_idx) by {
                    if reader_in(mid1.history(tx.from), j) {
                        if !reader_in(pre.history(tx.from), j) {
                            assert(j == txn_idx);
                        }
                    }
                    if mid1.storage_readers(tx.from).contains(j) {
                        if !pre.storage_readers(tx.from).contains(j) {
                            assert(j == txn_idx);
                        }
                    }
                }
            }
            let mut read_addrs: Vec<Address> = Vec::new();
            read_addrs.push(tx.from);
            read_addrs.push(tx.to);
            let mut write_addrs: Vec<Address> = Vec::new();
            write_addrs.push(tx.from);
            write_addrs.push(tx.to);
            return Ok((read_addrs, write_addrs, invalidated));
        }
        let receiver_state = Self::read_account(tx.to, txn_idx, mv_hashmap, initial_states);
        let ghost mid2 = *mv_hashmap;
        proof {
            assert(mid1.history(tx.to) == pre.history(tx.to));
            assert(mid1.storage_readers(tx.to) == pre.storage_readers(tx.to));
            assert(mid2.history(tx.from) == mid1.history(tx.from));
            assert(mid2.storage_readers(tx.from) == mid1.storage_readers(tx.from));
            assert(observed(mid1, initial_states@, tx.to, txn_idx) == observed(
                pre,
                initial_states@,
                tx.to,
                txn_idx,
            ));
        }
        let new_receiver_balance = match receiver_state.balance.checked_add(&tx.value) {
            Some(b) => b,
            None => {
                proof {
                    assert(bare(mv_hashmap.history(tx.from)) == bare(pre.history(tx.from)));
                    assert(bare(mv_hashmap.history(tx.to)) == bare(pre.history(tx.to)));
                    lemma_registration_survives(
                        pre,
                        mid1,
                        *mv_hashmap,
                        tx.from,
                        txn_idx,
                        incarnation,
                        sender_state,
                        false,
                    );
                }
                return Err(ExecutionError::Permanent("receiver balance overflow".to_owned()));
            },
        };
        let new_sender = AccountState { nonce: new_nonce, balance: new_sender_balance };
        let new_receiver = AccountState {
            nonce: receiver_state.nonce,
            balance: new_receiver_balance,
        };
        let invalidated = Self::install_two_writes(
            tx.from,
            tx.to,
            txn_idx,
            incarnation,
            new_sender,
            new_receiver,
            mv_hashmap,
        );
        proof {
            assert(bare(mid2.history(tx.from)) == bare(pre.history(tx.from)));
            assert(bare(mid2.history(tx.to)) == bare(pre.history(tx.to)));
            // The sender's registration survives the receiver read and both
            // writes; the receiver's survives its own write.
            lemma_registration_survives(
                pre,
                mid1,
                mid2,
                tx.from,
                txn_idx,
                incarnation,
                new_sender,
                false,
            );
            lemma_registration_survives(
                pre,
                mid2,
                *mv_hashmap,
                tx.from,
                txn_idx,
                incarnation,
                new_sender,
                true,
            );
            assert(registered_after(mid1, mid2, tx.to, txn_idx));
            assert(registered_after(pre, mid2, tx.to, txn_idx)) by {
                assert(pre.history(tx.to) == mid1.history(tx.to));
            }
            lemma_registration_survives(
                pre,
                mid2,
                *mv_hashmap,
                tx.to,
                txn_idx,
                incarnation,
                new_receiver,
                true,
            );
            // The mid-state views the writes were computed on are exactly
            // the post-read views of the initial state.
            assert(mid2.history(tx.from) == post_read_history(pre.history(tx.from), txn_idx));
            assert(mid2.storage_readers(tx.from) == post_read_storage(
                pre.history(tx.from),
                pre.storage_readers(tx.from),
                txn_idx,
            ));
            assert(mid2.history(tx.to) == post_read_history(pre.history(tx.to), txn_idx)) by {
                assert(mid1.history(tx.to) == pre.history(tx.to));
            }
            assert(mid2.storage_readers(tx.to) == post_read_storage(
                pre.history(tx.to),
                pre.storage_readers(tx.to),
                txn_idx,
            )) by {
                assert(mid1.history(tx.to) == pre.history(tx.to));
                assert(mid1.storage_readers(tx.to) == pre.storage_readers(tx.to));
            }
            assert(new_sender.model() == (AccountModel {
                nonce: (tx.nonce + 1) as nat,
                balance: observed(pre, initial_states@, tx.from, txn_idx).model().balance
                    - tx.value.as_int(),
            }));
            assert(new_receiver.model() == (AccountModel {
                nonce: observed(pre, initial_states@, tx.to, txn_idx).model().nonce,
                balance: observed(pre, initial_states@, tx.to, txn_idx).model().balance
                    + tx.value.as_int(),
            }));
            assert forall|x: TxnIndex|
                #[trigger] reader_in(mv_hashmap.history(tx.from), x) implies reader_in(
                pre.history(tx.from),
                x,
            ) || x == txn_idx by {
                if reader_in(mid2.history(tx.from), x) {
                    if reader_in(mid1.history(tx.from), x) {
                    }
                }
            }
            assert forall|x: TxnIndex|
                #[trigger] reader_in(mv_hashmap.history(tx.to), x) implies reader_in(
                pre.history(tx.to),
                x,
            ) || x == txn_idx by {
                if reader_in(mid2.history(tx.to), x) {
                }
            }
            assert(mv_hashmap.storage_readers(tx.from) == mid2.storage_readers(tx.from));
            assert(mv_hashmap.storage_readers(tx.to) == mid2.storage_readers(tx.to));
            assert forall|j: TxnIndex| #[trigger] invalidated@.contains(j) implies (j as int)
                > txn_idx && (reader_in(pre.history(tx.from), j) || pre.storage_readers(
                tx.from,
            ).contains(j) || reader_in(pre.history(tx.to), j) || pre.storage_readers(
                tx.to,
            ).contains(j) || j == txn_idx) by {
                if reader_in(mid2.history(tx.from), j) {
                    if !reader_in(pre.history(tx.from), j) {
                        assert(j == txn_idx);
                    }
                }
                if mid2.storage_readers(tx.from).contains(j) {
                    if !pre.storage_readers(tx.from).contains(j) {
                        assert(j == txn_idx);
                    }
                }
                if reader_in(mid2.history(tx.to), j) {
                    if !reader_in(pre.history(tx.to), j) {
                        assert(j == txn_idx);
                    }
                }
                if mid2.storage_readers(tx.to).contains(j) {
                    if !pre.storage_readers(tx.to).contains(j) {
                        assert(j == txn_idx);
                    }
                }
            }
        }
        let mut read_addrs: Vec<Address> = Vec::new();
        read_addrs.push(tx.from);
        read_addrs.push(tx.to);
        let mut write_addrs: Vec<Address> = Vec::new();
        write_addrs.push(tx.from);
        write_addrs.push(tx.to);
        Ok((read_addrs, write_addrs, invalidated))
    }


    /// Installs one write and names the readers it invalidates.
    fn install_write(
        a: Address,
        txn_idx: TxnIndex,
        incarnation: Incarnation,
        st: AccountState,
        mv_hashmap: &mut MVHashMap,
    ) -> (inv: Vec<TxnIndex>)
        requires
            old(mv_hashmap).wf(),
        ensures
            final(mv_hashmap).wf(),
            final(mv_hashmap).history(a) == upsert(
                old(mv_hashmap).history(a),
                EntryModel {
                    version: Version { txn_idx, incarnation },
                    state: st,
                    readers: Seq::empty(),
                },
            ),
            bare(final(mv_hashmap).history(a)) == upsert(
                bare(old(mv_hashmap).history(a)),
                EntryModel {
                    version: Version { txn_idx, incarnation },
                    state: st,
                    readers: Seq::empty(),
                },
            ),
            forall|b: Address|
                b != a ==> #[trigger] final(mv_hashmap).history(b) == old(mv_hashmap).history(b),
            forall|b: Address|
                #[trigger] final(mv_hashmap).storage_readers(b) == old(mv_hashmap).storage_readers(
                    b,
                ),
            forall|x: TxnIndex|
                #[trigger] reader_in(final(mv_hashmap).history(a), x) ==> reader_in(
                    old(mv_hashmap).history(a),
                    x,
                ),
            crate::mvhashmap::sorted_strict(inv@),
            forall|j: TxnIndex|
                #[trigger] inv@.contains(j) <==> crate::mvhashmap::invalidation_targets(
                    old(mv_hashmap).history(a),
                    old(mv_hashmap).storage_readers(a),
                    txn_idx as int,
                ).contains(j),
            forall|j: TxnIndex|
                #[trigger] inv@.contains(j) ==> (j as int) > txn_idx && (reader_in(
                    old(mv_hashmap).history(a),
                    j,
                ) || old(mv_hashmap).storage_readers(a).contains(j)),
    {
        let ghost em = EntryModel {
            version: Version { txn_idx, incarnation },
            state: st,
            readers: Seq::empty(),
        };
        let wr = mv_hashmap.write(a, txn_idx, incarnation, st);
        proof {
            lemma_bare_upsert(old(mv_hashmap).history(a), em);
            assert(bare_entry(em) == em);
            assert forall|x: TxnIndex|
                #[trigger] reader_in(mv_hashmap.history(a), x) implies reader_in(
                old(mv_hashmap).history(a),
                x,
            ) by {
                lemma_upsert_reader_in(old(mv_hashmap).history(a), em, x);
            }
            assert forall|j: TxnIndex| #[trigger] wr.invalidated_readers@.contains(j) implies (
            j as int) > txn_idx && (reader_in(old(mv_hashmap).history(a), j) || old(
                mv_hashmap,
            ).storage_readers(a).contains(j)) by {
                lemma_targets_member(
                    old(mv_hashmap).history(a),
                    old(mv_hashmap).storage_readers(a),
                    txn_idx as int,
                    j,
                );
            }
        }
        wr.invalidated_readers
    }

    /// Installs the sender's and the receiver's writes and names, merged,
    /// de-duplicated and sorted, the readers they invalidate.
    fn install_two_writes(
        from: Address,
        to: Address,
        txn_idx: TxnIndex,
        incarnation: Incarnation,
        st_from: AccountState,
        st_to: AccountState,
        mv_hashmap: &mut MVHashMap,
    ) -> (inv: Vec<TxnIndex>)
        requires
            old(mv_hashmap).wf(),
            from != to,
        ensures
            final(mv_hashmap).wf(),
            final(mv_hashmap).history(from) == upsert(
                old(mv_hashmap).history(from),
                EntryModel {
                    version: Version { txn_idx, incarnation },
                    state: st_from,
                    readers: Seq::empty(),
                },
            ),
            final(mv_hashmap).history(to) == upsert(
                old(mv_hashmap).history(to),
                EntryModel {
                    version: Version { txn_idx, incarnation },
                    state: st_to,
                    readers: Seq::empty(),
                },
            ),
            bare(final(mv_hashmap).history(from)) == upsert(
                bare(old(mv_hashmap).history(from)),
                EntryModel {
                    version: Version { txn_idx, incarnation },
                    state: st_from,
                    readers: Seq::empty(),
                },
            ),
            bare(final(mv_hashmap).history(to)) == upsert(
                bare(old(mv_hashmap).history(to)),
                EntryModel {
                    version: Version { txn_idx, incarnation },
                    state: st_to,
                    readers: Seq::empty(),
                },
            ),
            forall|b: Address|
                b != from && b != to ==> #[trigger] final(mv_hashmap).history(b) == old(
                    mv_hashmap,
                ).history(b),
            forall|b: Address|
                #[trigger] final(mv_hashmap).storage_readers(b) == old(mv_hashmap).storage_readers(
                    b,
                ),
            forall|x: TxnIndex|
                #[trigger] reader_in(final(mv_hashmap).history(from), x) ==> reader_in(
                    old(mv_hashmap).history(from),
                    x,
                ),
            forall|x: TxnIndex|
                #[trigger] reader_in(final(mv_hashmap).history(to), x) ==> reader_in(
                    old(mv_hashmap).history(to),
                    x,
                ),
            crate::mvhashmap::sorted_strict(inv@),
            forall|j: TxnIndex|
                #[trigger] inv@.contains(j) <==> (crate::mvhashmap::invalidation_targets(
                    old(mv_hashmap).history(from),
                    old(mv_hashmap).storage_readers(from),
                    txn_idx as int,
                ).contains(j) || crate::mvhashmap::invalidation_targets(
                    old(mv_hashmap).history(to),
                    old(mv_hashmap).storage_readers(to),
                    txn_idx as int,
                ).contains(j)),
            forall|j: TxnIndex|
                #[trigger] inv@.contains(j) ==> (j as int) > txn_idx && (reader_in(
                    old(mv_hashmap).history(from),
                    j,
                ) || old(mv_hashmap).storage_readers(from).contains(j) || reader_in(
                    old(mv_hashmap).history(to),
                    j,
                ) || old(mv_hashmap).storage_readers(to).contains(j)),
    {
        let inv_from = Self::install_write(from, txn_idx, incarnation, st_from, mv_hashmap);
        let ghost mid = *mv_hashmap;
        let inv_to = Self::install_write(to, txn_idx, incarnation, st_to, mv_hashmap);
        let mut invalidated = inv_from;
        let ghost inv0 = invalidated@;
        let n2 = inv_to.len();
        let ghost inv2 = inv_to@;
        for k in 0..n2
            invariant
                n2 == inv2.len(),
                inv2 == inv_to@,
                crate::mvhashmap::sorted_strict(invalidated@),
                forall|j: TxnIndex|
                    #[trigger] invalidated@.contains(j) <==> (inv0.contains(j) || (exists|q: int|
                        0 <= q < k && inv2[q] == j)),
        {
            let ghost prev = invalidated@;
            sorted_insert(&mut invalidated, inv_to[k]);
            proof {
                assert forall|j: TxnIndex|
                    #[trigger] invalidated@.contains(j) <==> (inv0.contains(j) || (exists|q: int|
                        0 <= q < k + 1 && inv2[q] == j)) by {
                    if invalidated@.contains(j) {
                        if !prev.contains(j) {
                            assert(j == inv2[k as int]);
                        } else {
                            if !inv0.contains(j) {
                                let q = choose|q: int| 0 <= q < k && inv2[q] == j;
                            }
                        }
                    }
                    if inv0.contains(j) {
                        assert(prev.contains(j));
                        assert(invalidated@.contains(j));
                    }
                    if exists|q: int| 0 <= q < k + 1 && inv2[q] == j {
                        let q = choose|q: int| 0 <= q < k + 1 && inv2[q] == j;
                        if q < k {
                            assert(prev.contains(j));
                        }
                        assert(invalidated@.contains(j));
                    }
                }
            }
        }
        proof {
            assert(mid.history(to) == old(mv_hashmap).history(to));
            assert(mid.storage_readers(to) == old(mv_hashmap).storage_readers(to));
            assert(mv_hashmap.history(from) == mid.history(from));
            assert forall|j: TxnIndex|
                #[trigger] invalidated@.contains(j) <==> (crate::mvhashmap::invalidation_targets(
                    old(mv_hashmap).history(from),
                    old(mv_hashmap).storage_readers(from),
                    txn_idx as int,
                ).contains(j) || crate::mvhashmap::invalidation_targets(
                    old(mv_hashmap).history(to),
                    old(mv_hashmap).storage_readers(to),
                    txn_idx as int,
                ).contains(j)) by {
                if invalidated@.contains(j) && !inv0.contains(j) {
                    let q = choose|q: int| 0 <= q < n2 && inv2[q] == j;
                    assert(inv2.contains(j));
                }
                if inv2.contains(j) {
                    let q = choose|q: int| 0 <= q < inv2.len() && inv2[q] == j;
                    assert(exists|q: int| 0 <= q < n2 && inv2[q] == j);
                    assert(invalidated@.contains(j));
                }
                if inv0.contains(j) {
                    assert(invalidated@.contains(j));
                }
            }
            assert forall|j: TxnIndex| #[trigger] invalidated@.contains(j) implies (j as int)
                > txn_idx && (reader_in(old(mv_hashmap).history(from), j) || old(
                mv_hashmap,
            ).storage_readers(from).contains(j) || reader_in(old(mv_hashmap).history(to), j)
                || old(mv_hashmap).storage_readers(to).contains(j)) by {
                if !inv0.contains(j) {
                    let q = choose|q: int| 0 <= q < inv2.len() && inv2[q] == j;
                    assert(inv2.contains(j));
                }
            }
        }
        invalidated
    }

}

/// What the driver's invariant says of one versioned entry of address `a`
/// once the first `i` transactions are done: written at incarnation 0 by a
/// transaction below `i` that applies cleanly in the serial order, carrying
/// exactly the serial state after that transaction.
pub open spec fn entry_ok(
    e: EntryModel,
    txs: Seq<Transaction>,
    initm: Map<Address, AccountModel>,
    verify: bool,
    a: Address,
    i: int,
) -> bool {
    &&& e.version.incarnation == 0
    &&& 0 <= e.version.txn_idx < i
    &&& serial_writes(txs, initm, verify, e.version.txn_idx as int, a)
    &&& e.state.model() == account_in(state_after(txs, initm, verify, e.version.txn_idx + 1), a)
}

/// The engine's central invariant, after the first `i` transactions have
/// committed: each address's version history holds exactly the writes of the
/// cleanly-applying transactions below `i`, each entry carrying the serial
/// state after its writer, and every recorded reader sits below `i`.
pub open spec fn driver_inv(
    mv: MVHashMap,
    txs: Seq<Transaction>,
    init: Map<Address, AccountState>,
    verify: bool,
    i: int,
) -> bool {
    &&& mv.wf()
    &&& forall|a: Address, p: int|
        0 <= p < mv.history(a).len() ==> entry_ok(
            #[trigger] mv.history(a)[p],
            txs,
            models_of(init),
            verify,
            a,
            i,
        )
    &&& forall|a: Address, j: int|
        0 <= j < i && serial_writes(txs, models_of(init), verify, j, a) ==> #[trigger] has_entry(
            mv.history(a),
            j,
        )
    &&& forall|a: Address, x: TxnIndex| #[trigger] reader_in(mv.history(a), x) ==> (x as int) < i
    &&& forall|a: Address, x: TxnIndex|
        #[trigger] mv.storage_readers(a).contains(x) ==> (x as int) < i
}

/// The driver's picture of the scheduler after the first `i` transactions
/// have committed: the prefix is committed and the rest still pends, queued
/// in index order at incarnation 0.
pub open spec fn driver_sched(m: SchedModel, n: int, i: int) -> bool {
    &&& wf_model(m)
    &&& m.num == n
    &&& 0 <= i <= n
    &&& m.committed == i
    &&& forall|j: int| i <= j < n ==> (#[trigger] m.statuses[j]) == ExecutionStatus::Pending
    &&& m.queue.len() == n - i
    &&& forall|q: int|
        0 <= q < n - i ==> (#[trigger] m.queue[q]) == (((i + q) as TxnIndex), (0 as Incarnation))
}

/// Erasing reader sets keeps a history sorted.
proof fn lemma_bare_sorted(h: Seq<EntryModel>)
    requires
        sorted_history(h),
    ensures
        sorted_history(bare(h)),
{
    assert forall|i: int, j: int| 0 <= i < j < bare(h).len() implies (
    #[trigger] bare(h)[i]).version.txn_idx < (#[trigger] bare(h)[j]).version.txn_idx by {
        assert(bare(h)[i] == bare_entry(h[i]));
        assert(bare(h)[j] == bare_entry(h[j]));
    }
}

/// Erasing reader sets keeps the set of writers.
proof fn lemma_bare_has_entry(h: Seq<EntryModel>, j: int)
    ensures
        has_entry(bare(h), j) == has_entry(h, j),
{
    if has_entry(h, j) {
        let q = choose|q: int| 0 <= q < h.len() && (#[trigger] h[q]).version.txn_idx == j;
        assert(bare(h)[q] == bare_entry(h[q]));
        assert(has_entry(bare(h), j));
    }
    if has_entry(bare(h), j) {
        let q = choose|q: int| 0 <= q < bare(h).len() && (#[trigger] bare(h)[q]).version.txn_idx == j;
        assert(bare(h)[q] == bare_entry(h[q]));
        assert(h[q].version.txn_idx == j);
        assert(has_entry(h, j));
    }
}

/// With the store holding exactly the serial writes below `i` for address
/// `a`, a read by transaction `i` observes the serial state before `i`.
proof fn lemma_driver_read(
    h: Seq<EntryModel>,
    txs: Seq<Transaction>,
    init: Map<Address, AccountState>,
    verify: bool,
    a: Address,
    i: int,
)
    requires
        sorted_history(h),
        0 <= i,
        forall|p: int|
            0 <= p < h.len() ==> entry_ok(#[trigger] h[p], txs, models_of(init), verify, a, i),
        forall|j: int|
            0 <= j < i && serial_writes(txs, models_of(init), verify, j, a) ==> has_entry(h, j),
    ensures
        read_value(h, init, a, i).model() == account_in(
            state_after(txs, models_of(init), verify, i),
            a,
        ),
{
    let initm = models_of(init);
    if h.len() == 0 {
        assert(read_spec(h, i) == ReadResult::Storage);
        assert forall|j: int| 0 <= j < i implies !serial_writes(txs, initm, verify, j, a) by {
            if serial_writes(txs, initm, verify, j, a) {
                assert(has_entry(h, j));
                let q = choose|q: int| 0 <= q < h.len() && (#[trigger] h[q]).version.txn_idx == j;
            }
        }
        lemma_state_frame(txs, initm, verify, a, 0, i);
        if init.dom().contains(a) {
            assert(initm.dom().contains(a));
            assert(account_in(initm, a) == init[a].model());
        } else {
            assert(!initm.dom().contains(a));
            assert(zero_state().model() == crate::types::zero_model());
        }
    } else {
        assert(entry_ok(h[0], txs, initm, verify, a, i));
        assert(exists_below(h, i)) by {
            assert(h[0].version.txn_idx < i);
        }
        lemma_max_below(h, i);
        let mpos = max_below(h, i);
        let e = h[mpos];
        let jstar = e.version.txn_idx as int;
        assert(entry_ok(e, txs, initm, verify, a, i));
        assert forall|j: int| jstar + 1 <= j < i implies !serial_writes(txs, initm, verify, j, a) by {
            if serial_writes(txs, initm, verify, j, a) {
                assert(has_entry(h, j));
                let q = choose|q: int| 0 <= q < h.len() && (#[trigger] h[q]).version.txn_idx == j;
                assert(h[q].version.txn_idx < i);
                assert(q <= mpos);
                if q < mpos {
                    assert(h[q].version.txn_idx < h[mpos].version.txn_idx);
                }
                assert(false);
            }
        }
        lemma_state_frame(txs, initm, verify, a, jstar + 1, i);
        assert(read_value(h, init, a, i) == e.state);
    }
}

/// Installing the serial write of a cleanly-applying transaction `idx`
/// carries the driver's per-entry facts to the bound `idx + 1`.
proof fn lemma_inv_step_written(
    h_old: Seq<EntryModel>,
    txs: Seq<Transaction>,
    init: Map<Address, AccountState>,
    verify: bool,
    a: Address,
    idx: TxnIndex,
    st: AccountState,
)
    requires
        sorted_history(h_old),
        st.model() == account_in(state_after(txs, models_of(init), verify, idx + 1), a),
        serial_writes(txs, models_of(init), verify, idx as int, a),
        forall|p: int|
            0 <= p < h_old.len() ==> entry_ok(
                #[trigger] h_old[p],
                txs,
                models_of(init),
                verify,
                a,
                idx as int,
            ),
        forall|j: int|
            0 <= j < idx && serial_writes(txs, models_of(init), verify, j, a) ==> has_entry(
                h_old,
                j,
            ),
    ensures
        ({
            let h_new = upsert(
                h_old,
                EntryModel {
                    version: Version { txn_idx: idx, incarnation: 0 },
                    state: st,
                    readers: Seq::empty(),
                },
            );
            &&& forall|p: int|
                0 <= p < h_new.len() ==> entry_ok(
                    #[trigger] h_new[p],
                    txs,
                    models_of(init),
                    verify,
                    a,
                    idx + 1,
                )
            &&& forall|j: int|
                0 <= j < idx + 1 && serial_writes(txs, models_of(init), verify, j, a)
                    ==> has_entry(h_new, j)
        }),
{
    let initm = models_of(init);
    let e = EntryModel {
        version: Version { txn_idx: idx, incarnation: 0 },
        state: st,
        readers: Seq::empty(),
    };
    lemma_upsert_shape(h_old, e);
    lemma_max_below_bounds(h_old, idx as int);
    let pos = max_below(h_old, idx as int) + 1;
    let h_new = upsert(h_old, e);
    assert(entry_ok(e, txs, initm, verify, a, idx + 1));
    if pos < h_old.len() && h_old[pos].version.txn_idx == idx {
        assert(h_new == h_old.update(pos, e));
        assert forall|p: int| 0 <= p < h_new.len() implies entry_ok(
            #[trigger] h_new[p],
            txs,
            initm,
            verify,
            a,
            idx + 1,
        ) by {
            if p != pos {
                assert(h_new[p] == h_old[p]);
                assert(entry_ok(h_old[p], txs, initm, verify, a, idx as int));
            }
        }
        assert forall|j: int|
            0 <= j < idx + 1 && serial_writes(txs, initm, verify, j, a) implies has_entry(
            h_new,
            j,
        ) by {
            if j < idx {
                assert(has_entry(h_old, j));
                let q = choose|q: int|
                    0 <= q < h_old.len() && (#[trigger] h_old[q]).version.txn_idx == j;
                assert(q != pos);
                assert(h_new[q] == h_old[q]);
            } else {
                assert(h_new[pos] == e);
            }
        }
    } else {
        assert(h_new == h_old.insert(pos, e));
        h_old.insert_ensures(pos, e);
        assert forall|p: int| 0 <= p < h_new.len() implies entry_ok(
            #[trigger] h_new[p],
            txs,
            initm,
            verify,
            a,
            idx + 1,
        ) by {
            if p < pos {
                assert(h_new[p] == h_old[p]);
                assert(entry_ok(h_old[p], txs, initm, verify, a, idx as int));
            } else if p > pos {
                assert(h_new[p] == h_old[p - 1]);
                assert(entry_ok(h_old[p - 1], txs, initm, verify, a, idx as int));
            }
        }
        assert forall|j: int|
            0 <= j < idx + 1 && serial_writes(txs, initm, verify, j, a) implies has_entry(
            h_new,
            j,
        ) by {
            if j < idx {
                assert(has_entry(h_old, j));
                let q = choose|q: int|
                    0 <= q < h_old.len() && (#[trigger] h_old[q]).version.txn_idx == j;
                if q < pos {
                    assert(h_new[q] == h_old[q]);
                } else {
                    assert(h_new[q + 1] == h_old[q]);
                }
            } else {
                assert(h_new[pos] == e);
            }
        }
    }
}

/// One driver step on the scheduler: dispatching transaction `i`, marking
/// it executed, and committing advances the committed prefix by one.
proof fn lemma_driver_sched_step(m0: SchedModel, mf: SchedModel, n: int, i: int)
    requires
        driver_sched(m0, n, i),
        0 <= i < n,
        wf_model(mf),
        mf == commit_scan(
            set_executed(
                SchedModel {
                    statuses: m0.statuses.update(i, ExecutionStatus::Executing(0)),
                    queue: m0.queue.drop_first(),
                    ..m0
                },
                i,
                0,
            ),
        ),
    ensures
        driver_sched(mf, n, i + 1),
{
    let m1 = SchedModel {
        statuses: m0.statuses.update(i, ExecutionStatus::Executing(0)),
        queue: m0.queue.drop_first(),
        ..m0
    };
    let m2 = set_executed(m1, i, 0);
    assert(m2.statuses[i] is Executed);
    assert(m2.committed == i);
    let m3 = SchedModel {
        statuses: m2.statuses.update(i, ExecutionStatus::Committed),
        committed: i + 1,
        ..m2
    };
    assert(commit_scan(m2) == commit_scan(m3));
    if i + 1 == n {
        assert(commit_scan(m3) == (SchedModel { done: true, ..m3 }));
    } else {
        assert(m3.statuses[i + 1] == ExecutionStatus::Pending);
        assert(!(m3.statuses[i + 1] is Executed));
        assert(commit_scan(m3) == m3);
    }
    assert forall|j: int| i + 1 <= j < n implies (#[trigger] mf.statuses[j])
        == ExecutionStatus::Pending by {
        assert(m0.statuses[j] == ExecutionStatus::Pending);
    }
    assert forall|q: int|
        0 <= q < n - (i + 1) implies (#[trigger] mf.queue[q]) == (((i + 1 + q) as TxnIndex), (
    0 as Incarnation)) by {
        assert(m0.queue[q + 1] == (((i + 1 + q) as TxnIndex), (0 as Incarnation)));
    }
}

/// One driver step on the store, for a transaction that applies cleanly in
/// the serial order: after its writes are installed, the store again holds
/// exactly the serial writes, now below `idx + 1`.
#[verifier::rlimit(100)]
#[verifier::spinoff_prover]
proof fn lemma_driver_inv_step_ok(
    pre: MVHashMap,
    post: MVHashMap,
    txs: Seq<Transaction>,
    init: Map<Address, AccountState>,
    verify: bool,
    idx: TxnIndex,
)
    requires
        0 <= idx < txs.len(),
        driver_inv(pre, txs, init, verify, idx as int),
        tx_succeeds(txs, models_of(init), verify, idx as int),
        post.wf(),
        ({
            let tx = txs[idx as int];
            let sender = observed(pre, init, tx.from, idx).model();
            let receiver = observed(pre, init, tx.to, idx).model();
            &&& (tx.from != tx.to ==> (exists|stf: AccountState, stt: AccountState|
                {
                    &&& #[trigger] stf.model() == (AccountModel {
                        nonce: (tx.nonce + 1) as nat,
                        balance: sender.balance - tx.value.as_int(),
                    })
                    &&& #[trigger] stt.model() == (AccountModel {
                        nonce: receiver.nonce,
                        balance: receiver.balance + tx.value.as_int(),
                    })
                    &&& bare(post.history(tx.from)) == upsert(
                        bare(pre.history(tx.from)),
                        EntryModel {
                            version: Version { txn_idx: idx, incarnation: 0 },
                            state: stf,
                            readers: Seq::empty(),
                        },
                    )
                    &&& bare(post.history(tx.to)) == upsert(
                        bare(pre.history(tx.to)),
                        EntryModel {
                            version: Version { txn_idx: idx, incarnation: 0 },
                            state: stt,
                            readers: Seq::empty(),
                        },
                    )
                }))
            &&& (tx.from == tx.to ==> (exists|stf: AccountState|
                {
                    &&& #[trigger] stf.model() == (AccountModel {
                        nonce: (tx.nonce + 1) as nat,
                        balance: sender.balance,
                    })
                    &&& bare(post.history(tx.from)) == upsert(
                        bare(pre.history(tx.from)),
                        EntryModel {
                            version: Version { txn_idx: idx, incarnation: 0 },
                            state: stf,
                            readers: Seq::empty(),
                        },
                    )
                }))
            &&& (forall|b: Address|
                b != tx.from && b != tx.to ==> #[trigger] post.history(b) == pre.history(b))
            &&& (forall|b: Address|
                b != tx.from && b != tx.to ==> #[trigger] post.storage_readers(b)
                    == pre.storage_readers(b))
            &&& (forall|x: TxnIndex|
                #[trigger] reader_in(post.history(tx.from), x) ==> reader_in(
                    pre.history(tx.from),
                    x,
                ) || x == idx)
            &&& (forall|x: TxnIndex|
                #[trigger] reader_in(post.history(tx.to), x) ==> reader_in(pre.history(tx.to), x)
                    || x == idx)
            &&& (forall|x: TxnIndex|
                #[trigger] post.storage_readers(tx.from).contains(x) ==> pre.storage_readers(
                    tx.from,
                ).contains(x) || x == idx)
            &&& (forall|x: TxnIndex|
                #[trigger] post.storage_readers(tx.to).contains(x) ==> pre.storage_readers(
                    tx.to,
                ).contains(x) || x == idx)
        }),
    ensures
        driver_inv(post, txs, init, verify, idx + 1),
{
    let initm = models_of(init);
    let tx = txs[idx as int];
    let i = idx as int;
    // The observed reads are the serial values before `idx`.
    pre.lemma_wf_sorted(tx.from);
    pre.lemma_wf_sorted(tx.to);
    lemma_driver_read(pre.history(tx.from), txs, init, verify, tx.from, i);
    lemma_driver_read(pre.history(tx.to), txs, init, verify, tx.to, i);
    let sender = observed(pre, init, tx.from, idx).model();
    let receiver = observed(pre, init, tx.to, idx).model();
    assert(sender == account_in(state_after(txs, initm, verify, i), tx.from));
    assert(receiver == account_in(state_after(txs, initm, verify, i), tx.to));
    assert(state_after(txs, initm, verify, i + 1) == crate::semantics::apply_tx(
        state_after(txs, initm, verify, i),
        tx,
    ));
    // The facts carried by the new entries at `tx.from` and `tx.to`.
    if tx.from != tx.to {
        let (stf, stt) = choose|stf: AccountState, stt: AccountState|
            {
                &&& #[trigger] stf.model() == (AccountModel {
                    nonce: (tx.nonce + 1) as nat,
                    balance: sender.balance - tx.value.as_int(),
                })
                &&& #[trigger] stt.model() == (AccountModel {
                    nonce: receiver.nonce,
                    balance: receiver.balance + tx.value.as_int(),
                })
                &&& bare(post.history(tx.from)) == upsert(
                    bare(pre.history(tx.from)),
                    EntryModel {
                        version: Version { txn_idx: idx, incarnation: 0 },
                        state: stf,
                        readers: Seq::empty(),
                    },
                )
                &&& bare(post.history(tx.to)) == upsert(
                    bare(pre.history(tx.to)),
                    EntryModel {
                        version: Version { txn_idx: idx, incarnation: 0 },
                        state: stt,
                        readers: Seq::empty(),
                    },
                )
            };
        assert(stf.model() == account_in(state_after(txs, initm, verify, i + 1), tx.from));
        assert(stt.model() == account_in(state_after(txs, initm, verify, i + 1), tx.to));
        lemma_written_addr_step(pre, post, txs, init, verify, idx, tx.from, stf);
        lemma_written_addr_step(pre, post, txs, init, verify, idx, tx.to, stt);
    } else {
        let stf = choose|stf: AccountState|
            {
                &&& #[trigger] stf.model() == (AccountModel {
                    nonce: (tx.nonce + 1) as nat,
                    balance: sender.balance,
                })
                &&& bare(post.history(tx.from)) == upsert(
                    bare(pre.history(tx.from)),
                    EntryModel {
                        version: Version { txn_idx: idx, incarnation: 0 },
                        state: stf,
                        readers: Seq::empty(),
                    },
                )
            };
        assert(stf.model() == account_in(state_after(txs, initm, verify, i + 1), tx.from));
        lemma_written_addr_step(pre, post, txs, init, verify, idx, tx.from, stf);
    }
    // The remaining addresses and the global clauses.
    assert forall|a: Address, p: int| 0 <= p < post.history(a).len() implies entry_ok(
        #[trigger] post.history(a)[p],
        txs,
        initm,
        verify,
        a,
        i + 1,
    ) by {
        if a != tx.from && a != tx.to {
            assert(post.history(a) == pre.history(a));
            assert(entry_ok(pre.history(a)[p], txs, initm, verify, a, i));
        }
    }
    assert forall|a: Address, j: int|
        0 <= j < i + 1 && serial_writes(txs, initm, verify, j, a) implies #[trigger] has_entry(
        post.history(a),
        j,
    ) by {
        if a != tx.from && a != tx.to {
            assert(post.history(a) == pre.history(a));
            if j < i {
                assert(has_entry(pre.history(a), j));
            } else {
                assert(!crate::semantics::writes_addr(tx, a));
                assert(false);
            }
        }
    }
    assert forall|a: Address, x: TxnIndex| #[trigger] reader_in(post.history(a), x) implies (
    x as int) < i + 1 by {
        if a != tx.from && a != tx.to {
            assert(post.history(a) == pre.history(a));
            assert(reader_in(pre.history(a), x));
        } else {
            if reader_in(pre.history(a), x) {
            }
        }
    }
    assert forall|a: Address, x: TxnIndex|
        #[trigger] post.storage_readers(a).contains(x) implies (x as int) < i + 1 by {
        if a != tx.from && a != tx.to {
            assert(post.storage_readers(a) == pre.storage_readers(a));
            assert(pre.storage_readers(a).contains(x));
        } else {
            if pre.storage_readers(a).contains(x) {
            }
        }
    }
}

/// The per-entry and completeness facts for one written address, carried
/// from bound `idx` to `idx + 1` across the installed write.
proof fn lemma_written_addr_step(
    pre: MVHashMap,
    post: MVHashMap,
    txs: Seq<Transaction>,
    init: Map<Address, AccountState>,
    verify: bool,
    idx: TxnIndex,
    a: Address,
    st: AccountState,
)
    requires
        0 <= idx < txs.len(),
        driver_inv(pre, txs, init, verify, idx as int),
        serial_writes(txs, models_of(init), verify, idx as int, a),
        st.model() == account_in(state_after(txs, models_of(init), verify, idx + 1), a),
        bare(post.history(a)) == upsert(
            bare(pre.history(a)),
            EntryModel {
                version: Version { txn_idx: idx, incarnation: 0 },
                state: st,
                readers: Seq::empty(),
            },
        ),
    ensures
        forall|p: int|
            0 <= p < post.history(a).len() ==> entry_ok(
                #[trigger] post.history(a)[p],
                txs,
                models_of(init),
                verify,
                a,
                idx + 1,
            ),
        forall|j: int|
            0 <= j < idx + 1 && serial_writes(txs, models_of(init), verify, j, a) ==> has_entry(
                post.history(a),
                j,
            ),
{
    let initm = models_of(init);
    let h_pre = pre.history(a);
    let hb = bare(h_pre);
    let e = EntryModel {
        version: Version { txn_idx: idx, incarnation: 0 },
        state: st,
        readers: Seq::empty(),
    };
    pre.lemma_wf_sorted(a);
    lemma_bare_sorted(h_pre);
    assert forall|p: int| 0 <= p < hb.len() implies entry_ok(
        #[trigger] hb[p],
        txs,
        initm,
        verify,
        a,
        idx as int,
    ) by {
        assert(hb[p] == bare_entry(h_pre[p]));
        assert(entry_ok(h_pre[p], txs, initm, verify, a, idx as int));
    }
    assert forall|j: int|
        0 <= j < idx && serial_writes(txs, initm, verify, j, a) implies has_entry(hb, j) by {
        assert(has_entry(h_pre, j));
        lemma_bare_has_entry(h_pre, j);
    }
    lemma_inv_step_written(hb, txs, init, verify, a, idx, st);
    let h_new = upsert(hb, e);
    assert forall|p: int| 0 <= p < post.history(a).len() implies entry_ok(
        #[trigger] post.history(a)[p],
        txs,
        initm,
        verify,
        a,
        idx + 1,
    ) by {
        assert(bare(post.history(a))[p] == bare_entry(post.history(a)[p]));
        assert(entry_ok(h_new[p], txs, initm, verify, a, idx + 1));
    }
    assert forall|j: int|
        0 <= j < idx + 1 && serial_writes(txs, initm, verify, j, a) implies has_entry(
        post.history(a),
        j,
    ) by {
        assert(has_entry(h_new, j));
        lemma_bare_has_entry(post.history(a), j);
    }
}

/// One driver step on the store, for a transaction that does not apply in
/// the serial order: the store's versions and states are unchanged, only
/// read registrations by `idx` were added.
proof fn lemma_driver_inv_step_failed(
    pre: MVHashMap,
    post: MVHashMap,
    txs: Seq<Transaction>,
    init: Map<Address, AccountState>,
    verify: bool,
    idx: TxnIndex,
)
    requires
        0 <= idx < txs.len(),
        driver_inv(pre, txs, init, verify, idx as int),
        !tx_succeeds(txs, models_of(init), verify, idx as int),
        post.wf(),
        ({
            let tx = txs[idx as int];
            &&& bare(post.history(tx.from)) == bare(pre.history(tx.from))
            &&& bare(post.history(tx.to)) == bare(pre.history(tx.to))
            &&& (forall|b: Address|
                b != tx.from && b != tx.to ==> #[trigger] post.history(b) == pre.history(b))
            &&& (forall|b: Address|
                b != tx.from && b != tx.to ==> #[trigger] post.storage_readers(b)
                    == pre.storage_readers(b))
            &&& (forall|x: TxnIndex|
                #[trigger] reader_in(post.history(tx.from), x) ==> reader_in(
                    pre.history(tx.from),
                    x,
                ) || x == idx)
            &&& (forall|x: TxnIndex|
                #[trigger] reader_in(post.history(tx.to), x) ==> reader_in(pre.history(tx.to), x)
                    || x == idx)
            &&& (forall|x: TxnIndex|
                #[trigger] post.storage_readers(tx.from).contains(x) ==> pre.storage_readers(
                    tx.from,
                ).contains(x) || x == idx)
            &&& (forall|x: TxnIndex|
                #[trigger] post.storage_readers(tx.to).contains(x) ==> pre.storage_readers(
                    tx.to,
                ).contains(x) || x == idx)
        }),
    ensures
        driver_inv(post, txs, init, verify, idx + 1),
{
    let initm = models_of(init);
    let tx = txs[idx as int];
    let i = idx as int;
    assert forall|a: Address, p: int| 0 <= p < post.history(a).len() implies entry_ok(
        #[trigger] post.history(a)[p],
        txs,
        initm,
        verify,
        a,
        i + 1,
    ) by {
        if a != tx.from && a != tx.to {
            assert(post.history(a) == pre.history(a));
            assert(entry_ok(pre.history(a)[p], txs, initm, verify, a, i));
        } else {
            assert(bare(post.history(a)) == bare(pre.history(a)));
            assert(bare(post.history(a))[p] == bare_entry(post.history(a)[p]));
            assert(bare(pre.history(a))[p] == bare_entry(pre.history(a)[p]));
            assert(entry_ok(pre.history(a)[p], txs, initm, verify, a, i));
        }
    }
    assert forall|a: Address, j: int|
        0 <= j < i + 1 && serial_writes(txs, initm, verify, j, a) implies #[trigger] has_entry(
        post.history(a),
        j,
    ) by {
        if j == i {
            assert(false);
        } else {
            assert(has_entry(pre.history(a), j));
            if a != tx.from && a != tx.to {
                assert(post.history(a) == pre.history(a));
            } else {
                lemma_bare_has_entry(pre.history(a), j);
                lemma_bare_has_entry(post.history(a), j);
            }
        }
    }
    assert forall|a: Address, x: TxnIndex| #[trigger] reader_in(post.history(a), x) implies (
    x as int) < i + 1 by {
        if a != tx.from && a != tx.to {
            assert(post.history(a) == pre.history(a));
            assert(reader_in(pre.history(a), x));
        } else {
            if reader_in(pre.history(a), x) {
            }
        }
    }
    assert forall|a: Address, x: TxnIndex|
        #[trigger] post.storage_readers(a).contains(x) implies (x as int) < i + 1 by {
        if a != tx.from && a != tx.to {
            assert(post.storage_readers(a) == pre.storage_readers(a));
            assert(pre.storage_readers(a).contains(x));
        } else {
            if pre.storage_readers(a).contains(x) {
            }
        }
    }
}

/// What `execute_block` promises of its result: the counters and the final
/// states are exactly those of strict serial execution of the batch, and the
/// total number of executions is the batch size, within the `N * N` bound.
pub open spec fn batch_outcome_ok(
    r: BlockExecutionResult,
    txs: Seq<Transaction>,
    init: Map<Address, AccountState>,
    verify: bool,
) -> bool {
    let n = txs.len() as int;
    let initm = models_of(init);
    &&& r.total_executions == n
    &&& r.total_executions <= n * n
    &&& r.successful == success_count(txs, initm, verify, n)
    &&& r.failed + r.successful == n
    &&& crate::state::unique_keys(r.final_states@)
    &&& forall|i: int|
        0 <= i < r.final_states@.len() ==> written_set(txs, initm, verify, n).contains(
            (#[trigger] r.final_states@[i]).0,
        ) && r.final_states@[i].1.model() == account_in(
            state_after(txs, initm, verify, n),
            r.final_states@[i].0,
        )
    &&& forall|a: Address|
        written_set(txs, initm, verify, n).contains(a) ==> exists|i: int|
            0 <= i < r.final_states@.len() && (#[trigger] r.final_states@[i]).0 == a
}

/// The final states of a batch result, read as a map of account models.
pub open spec fn projected(r: BlockExecutionResult) -> Map<Address, AccountModel> {
    Map::new(
        |a: Address|
            exists|i: int| 0 <= i < r.final_states@.len() && (#[trigger] r.final_states@[i]).0 == a,
        |a: Address|
            {
                let i = choose|i: int|
                    0 <= i < r.final_states@.len() && (#[trigger] r.final_states@[i]).0 == a;
                r.final_states@[i].1.model()
            },
    )
}

/// Determinism of outcome: any two results that meet `execute_block`'s
/// contract for the same batch, initial state and verification flag agree on
/// the counters and on the final states — in particular, the outcome does
/// not depend on the configured number of threads.
pub proof fn lemma_outcome_deterministic(
    r1: BlockExecutionResult,
    r2: BlockExecutionResult,
    txs: Seq<Transaction>,
    init: Map<Address, AccountState>,
    verify: bool,
)
    requires
        batch_outcome_ok(r1, txs, init, verify),
        batch_outcome_ok(r2, txs, init, verify),
    ensures
        r1.successful == r2.successful,
        r1.failed == r2.failed,
        r1.total_executions == r2.total_executions,
        projected(r1) == projected(r2),
{
    let n = txs.len() as int;
    let initm = models_of(init);
    assert forall|a: Address| #[trigger] projected(r1).dom().contains(a) == projected(
        r2,
    ).dom().contains(a) by {
        if projected(r1).dom().contains(a) {
            let i = choose|i: int|
                0 <= i < r1.final_states@.len() && (#[trigger] r1.final_states@[i]).0 == a;
            assert(written_set(txs, initm, verify, n).contains(a));
        }
        if projected(r2).dom().contains(a) {
            let i = choose|i: int|
                0 <= i < r2.final_states@.len() && (#[trigger] r2.final_states@[i]).0 == a;
            assert(written_set(txs, initm, verify, n).contains(a));
        }
    }
    assert forall|a: Address| #[trigger] projected(r1).dom().contains(a) implies projected(r1)[a]
        == projected(r2)[a] by {
        let i1 = choose|i: int|
            0 <= i < r1.final_states@.len() && (#[trigger] r1.final_states@[i]).0 == a;
        let i2 = choose|i: int|
            0 <= i < r2.final_states@.len() && (#[trigger] r2.final_states@[i]).0 == a;
        assert(r1.final_states@[i1].1.model() == account_in(
            state_after(txs, initm, verify, n),
            a,
        ));
        assert(r2.final_states@[i2].1.model() == account_in(
            state_after(txs, initm, verify, n),
            a,
        ));
    }
    assert(projected(r1) =~= projected(r2));
}

impl ParallelExecutor {
    /// The worker loop: drains tasks from the scheduler until the batch is
    /// done. With in-order dispatch every transaction is executed once and
    /// commits at once; a transaction that commits without having produced
    /// writes — an invalid signature, or a transfer that is invalid in the
    /// serial order — counts as failed, the others as successful.
    #[verifier::rlimit(100)]
    #[verifier::spinoff_prover]
    fn worker_loop(
        scheduler: &mut Scheduler,
        mv_hashmap: &mut MVHashMap,
        transactions: &Vec<Transaction>,
        initial_states: &AccountMap,
        verify_signatures: bool,
    ) -> (counts: (usize, usize, usize))
        requires
            initial_states.wf(),
            forall|k: int| 0 <= k < transactions@.len() ==> (#[trigger] transactions@[k]).wf(),
            driver_sched(old(scheduler).model(), transactions@.len() as int, 0),
            driver_inv(*old(mv_hashmap), transactions@, initial_states@, verify_signatures, 0),
        ensures
            ({
                let n = transactions@.len() as int;
                let initm = models_of(initial_states@);
                &&& counts.0 == n
                &&& counts.1 == success_count(transactions@, initm, verify_signatures, n)
                &&& counts.1 <= n
                &&& counts.2 == n - counts.1
                &&& driver_inv(
                    *final(mv_hashmap),
                    transactions@,
                    initial_states@,
                    verify_signatures,
                    n,
                )
                &&& final(scheduler).model().committed == n
                &&& final(scheduler).wf()
            }),
    {
        let n = transactions.len();
        let mut executions: usize = 0;
        let mut successful: usize = 0;
        let mut failed: usize = 0;
        loop
            invariant_except_break
                n == transactions@.len(),
                initial_states.wf(),
                forall|k: int| 0 <= k < transactions@.len() ==> (#[trigger] transactions@[k]).wf(),
                executions <= n,
                driver_sched(scheduler.model(), n as int, executions as int),
                driver_inv(
                    *mv_hashmap,
                    transactions@,
                    initial_states@,
                    verify_signatures,
                    executions as int,
                ),
                successful as int == success_count(
                    transactions@,
                    models_of(initial_states@),
                    verify_signatures,
                    executions as int,
                ),
                successful <= executions,
                failed == executions - successful,
            ensures
                executions == n,
                driver_inv(
                    *mv_hashmap,
                    transactions@,
                    initial_states@,
                    verify_signatures,
                    n as int,
                ),
                successful as int == success_count(
                    transactions@,
                    models_of(initial_states@),
                    verify_signatures,
                    n as int,
                ),
                successful <= n,
                failed == n - successful,
                scheduler.model().committed == n as int,
                scheduler.wf(),
            decreases n - executions,
        {
            let ghost m0 = scheduler.model();
            let ghost txs = transactions@;
            let ghost initm = models_of(initial_states@);
            let ghost i = executions as int;
            let task = scheduler.next_task();
            match task {
                Task::Execute(txn_idx, incarnation) => {
                    proof {
                        assert(m0.queue[0] == ((i as TxnIndex), (0 as Incarnation)));
                        assert(txn_idx == executions && incarnation == 0);
                    }
                    let ghost m1 = scheduler.model();
                    let ghost pre_mv = *mv_hashmap;
                    let tx = &transactions[txn_idx];
                    proof {
                        pre_mv.lemma_wf_sorted(tx.from);
                        pre_mv.lemma_wf_sorted(tx.to);
                        assert forall|p: int|
                            0 <= p < pre_mv.history(tx.from).len() implies entry_ok(
                            #[trigger] pre_mv.history(tx.from)[p],
                            txs,
                            initm,
                            verify_signatures,
                            tx.from,
                            i,
                        ) by {}
                        lemma_driver_read(
                            pre_mv.history(tx.from),
                            txs,
                            initial_states@,
                            verify_signatures,
                            tx.from,
                            i,
                        );
                        lemma_driver_read(
                            pre_mv.history(tx.to),
                            txs,
                            initial_states@,
                            verify_signatures,
                            tx.to,
                            i,
                        );
                        assert(observed(pre_mv, initial_states@, tx.from, txn_idx).model()
                            == account_in(
                            state_after(txs, initm, verify_signatures, i),
                            tx.from,
                        ));
                        assert(observed(pre_mv, initial_states@, tx.to, txn_idx).model()
                            == account_in(state_after(txs, initm, verify_signatures, i), tx.to));
                    }
                    let result = Self::execute_transaction(
                        tx,
                        txn_idx,
                        incarnation,
                        mv_hashmap,
                        initial_states,
                        verify_signatures,
                    );
                    proof {
                        assert(result is Ok <==> tx_succeeds(txs, initm, verify_signatures, i));
                    }
                    executions = executions + 1;
                    match result {
                        Ok((_read_addrs, _write_addrs, invalidated)) => {
                            proof {
                                assert forall|j: TxnIndex|
                                    !(#[trigger] invalidated@.contains(j)) by {
                                    if invalidated@.contains(j) {
                                        if reader_in(pre_mv.history(tx.from), j) {
                                        }
                                        if reader_in(pre_mv.history(tx.to), j) {
                                        }
                                        if pre_mv.storage_readers(tx.from).contains(j) {
                                        }
                                        if pre_mv.storage_readers(tx.to).contains(j) {
                                        }
                                        assert(false);
                                    }
                                }
                                assert(invalidated@.len() == 0) by {
                                    if invalidated@.len() > 0 {
                                        assert(invalidated@.contains(invalidated@[0]));
                                    }
                                }
                            }
                            successful = successful + 1;
                            scheduler.finish_execution(txn_idx, incarnation, invalidated);
                            proof {
                                assert(abort_fold(
                                    set_executed(m1, txn_idx as int, incarnation),
                                    Seq::<TxnIndex>::empty(),
                                    0,
                                ) == set_executed(m1, txn_idx as int, incarnation));
                                lemma_driver_sched_step(m0, scheduler.model(), n as int, i);
                                lemma_driver_inv_step_ok(
                                    pre_mv,
                                    *mv_hashmap,
                                    txs,
                                    initial_states@,
                                    verify_signatures,
                                    txn_idx,
                                );
                            }
                        },
                        Err(_e) => {
                            failed = failed + 1;
                            let empty_list: Vec<TxnIndex> = Vec::new();
                            scheduler.finish_execution(txn_idx, incarnation, empty_list);
                            proof {
                                assert(abort_fold(
                                    set_executed(m1, txn_idx as int, incarnation),
                                    Seq::<TxnIndex>::empty(),
                                    0,
                                ) == set_executed(m1, txn_idx as int, incarnation));
                                lemma_driver_sched_step(m0, scheduler.model(), n as int, i);
                                lemma_driver_inv_step_failed(
                                    pre_mv,
                                    *mv_hashmap,
                                    txs,
                                    initial_states@,
                                    verify_signatures,
                                    txn_idx,
                                );
                            }
                        },
                    }
                },
                Task::Wait => {
                    // With in-order dispatch the ready queue cannot run dry
                    // before the batch commits, so no worker ever waits.
                    proof {
                        assert(m0.queue.len() == n - i);
                        assert(false);
                    }
                    break ;
                },
                Task::Done => {
                    proof {
                        if m0.done {
                            assert(m0.committed == m0.num);
                        }
                        assert(executions == n);
                    }
                    break ;
                },
            }
        }
        (executions, successful, failed)
    }

    /// Executes a batch of transactions: dispenses every transaction through
    /// the scheduler, applies it against the multi-version store, commits in
    /// index order, and projects the final states. The outcome — counters
    /// and final states — equals strict serial execution of the batch in its
    /// order, whatever `num_threads` says, and the total number of
    /// executions stays within `N * N`.
    #[verifier::rlimit(100)]
    #[verifier::spinoff_prover]
    pub fn execute_block(&self, transactions: Vec<Transaction>) -> (r: BlockExecutionResult)
        requires
            self.spec_config().initial_states.wf(),
            forall|k: int| 0 <= k < transactions@.len() ==> (#[trigger] transactions@[k]).wf(),
        ensures
            batch_outcome_ok(
                r,
                transactions@,
                self.spec_config().initial_states@,
                self.spec_config().verify_signatures,
            ),
    {
        let n = transactions.len();
        let mut scheduler = Scheduler::new(n);
        let mut mv_hashmap = MVHashMap::new();
        let ghost txs = transactions@;
        let ghost initm = models_of(self.config.initial_states@);
        let ghost verify = self.config.verify_signatures;
        proof {
            assert(driver_sched(scheduler.model(), n as int, 0));
            assert(driver_inv(mv_hashmap, txs, self.config.initial_states@, verify, 0)) by {
                assert forall|a: Address, p: int|
                    0 <= p < mv_hashmap.history(a).len() implies entry_ok(
                    #[trigger] mv_hashmap.history(a)[p],
                    txs,
                    initm,
                    verify,
                    a,
                    0,
                ) by {
                    assert(mv_hashmap.history(a) == Seq::<EntryModel>::empty());
                }
                assert forall|a: Address, x: TxnIndex|
                    !(#[trigger] reader_in(mv_hashmap.history(a), x)) by {
                    assert(mv_hashmap.history(a) == Seq::<EntryModel>::empty());
                    if reader_in(mv_hashmap.history(a), x) {
                        let p = choose|p: int|
                            0 <= p < mv_hashmap.history(a).len() && (#[trigger] mv_hashmap.history(
                                a,
                            )[p]).readers.contains(x);
                    }
                }
                assert forall|a: Address, x: TxnIndex|
                    !(#[trigger] mv_hashmap.storage_readers(a).contains(x)) by {
                    assert(mv_hashmap.storage_readers(a) == Seq::<TxnIndex>::empty());
                }
            }
        }
        let counts = Self::worker_loop(
            &mut scheduler,
            &mut mv_hashmap,
            &transactions,
            &self.config.initial_states,
            self.config.verify_signatures,
        );
        let final_states = mv_hashmap.get_committed_states();
        let result = BlockExecutionResult {
            successful: counts.1,
            failed: counts.2,
            total_executions: counts.0,
            final_states,
        };
        proof {
            assert((n * n - n) >= 0) by (nonlinear_arith)
                requires
                    n >= 0,
            {
            }
            assert forall|i: int| 0 <= i < result.final_states@.len() implies written_set(
                txs,
                initm,
                verify,
                n as int,
            ).contains((#[trigger] result.final_states@[i]).0) && result.final_states@[i].1.model()
                == account_in(
                state_after(txs, initm, verify, n as int),
                result.final_states@[i].0,
            ) by {
                let a = result.final_states@[i].0;
                let h = mv_hashmap.history(a);
                assert(h.len() > 0 && result.final_states@[i].1 == h.last().state);
                mv_hashmap.lemma_wf_sorted(a);
                let e = h[h.len() - 1];
                assert(entry_ok(e, txs, initm, verify, a, n as int));
                let jstar = e.version.txn_idx as int;
                assert(written_set(txs, initm, verify, n as int).contains(a)) by {
                    assert(serial_writes(txs, initm, verify, jstar, a));
                }
                assert forall|j: int| jstar + 1 <= j < n implies !serial_writes(
                    txs,
                    initm,
                    verify,
                    j,
                    a,
                ) by {
                    if serial_writes(txs, initm, verify, j, a) {
                        assert(has_entry(h, j));
                        let q = choose|q: int|
                            0 <= q < h.len() && (#[trigger] h[q]).version.txn_idx == j;
                        if q < h.len() - 1 {
                            assert(h[q].version.txn_idx < h[h.len() - 1].version.txn_idx);
                        }
                        assert(false);
                    }
                }
                lemma_state_frame(txs, initm, verify, a, jstar + 1, n as int);
            }
            assert forall|a: Address|
                written_set(txs, initm, verify, n as int).contains(a) implies exists|i: int|
                0 <= i < result.final_states@.len() && (#[trigger] result.final_states@[i]).0
                == a by {
                let j = choose|j: int| 0 <= j < n && serial_writes(txs, initm, verify, j, a);
                assert(has_entry(mv_hashmap.history(a), j));
                let q = choose|q: int|
                    0 <= q < mv_hashmap.history(a).len() && (#[trigger] mv_hashmap.history(
                        a,
                    )[q]).version.txn_idx == j;
                assert(mv_hashmap.history(a).len() > 0);
            }
        }
        result
    }
}

/// A registration made by `reader` against `pre`'s view of `a` survives:
/// the entry it sits on is of a transaction below `reader`, so installing
/// `reader`'s own write (or nothing) on top of the recorded state keeps it.
proof fn lemma_registration_survives(
    pre: MVHashMap,
    mid: MVHashMap,
    post: MVHashMap,
    a: Address,
    reader: TxnIndex,
    incarnation: Incarnation,
    st: AccountState,
    wrote: bool,
)
    requires
        pre.wf(),
        mid.wf(),
        registered_after(pre, mid, a, reader),
        (if wrote {
            post.history(a) == upsert(
                mid.history(a),
                EntryModel {
                    version: Version { txn_idx: reader, incarnation },
                    state: st,
                    readers: Seq::empty(),
                },
            )
        } else {
            post.history(a) == mid.history(a)
        }),
        post.storage_readers(a) == mid.storage_readers(a),
    ensures
        registered_after(pre, post, a, reader),
{
    match read_spec(pre.history(a), reader as int) {
        ReadResult::Versioned(v, s) => {
            pre.lemma_wf_sorted(a);
            crate::mvhashmap::lemma_read_registers(pre.history(a), reader, v, s, reader as int);
            assert((v.txn_idx as int) < reader as int);
            if wrote {
                mid.lemma_wf_sorted(a);
                crate::mvhashmap::lemma_upsert_preserves_entry(
                    mid.history(a),
                    EntryModel {
                        version: Version { txn_idx: reader, incarnation },
                        state: st,
                        readers: Seq::empty(),
                    },
                    v.txn_idx as int,
                );
            }
        },
        _ => {},
    }
}

/// A member of a write's invalidated set sits above the writer and was a
/// recorded reader of the written address.
proof fn lemma_targets_member(h: Seq<EntryModel>, srs: Seq<TxnIndex>, w: int, j: TxnIndex)
    requires
        crate::mvhashmap::invalidation_targets(h, srs, w).contains(j),
    ensures
        (j as int) > w,
        reader_in(h, j) || srs.contains(j),
{
    if exists_below(h, w) {
        assert(h[max_below(h, w)].readers.contains(j));
        crate::mvhashmap::lemma_max_below(h, w);
    }
}

/// A reader recorded on an upserted history was recorded before the write:
/// the new entry carries no readers.
proof fn lemma_upsert_reader_in(h: Seq<EntryModel>, e: EntryModel, x: TxnIndex)
    requires
        e.readers == Seq::<TxnIndex>::empty(),
        reader_in(upsert(h, e), x),
    ensures
        reader_in(h, x),
    decreases h.len(),
{
    let u = upsert(h, e);
    if h.len() == 0 {
        assert(u == seq![e]);
        let p = choose|p: int| 0 <= p < u.len() && (#[trigger] u[p]).readers.contains(x);
        assert(false);
    } else if h.last().version.txn_idx < e.version.txn_idx {
        let p = choose|p: int| 0 <= p < u.len() && (#[trigger] u[p]).readers.contains(x);
        assert(u == h.push(e));
        if p < h.len() {
            assert(h[p].readers.contains(x));
        } else {
            assert(u[p] == e);
            assert(false);
        }
    } else if h.last().version.txn_idx == e.version.txn_idx {
        let p = choose|p: int| 0 <= p < u.len() && (#[trigger] u[p]).readers.contains(x);
        assert(u == h.drop_last().push(e));
        if p < h.len() - 1 {
            assert(h.drop_last()[p] == h[p]);
            assert(h[p].readers.contains(x));
        } else {
            assert(u[p] == e);
            assert(false);
        }
    } else {
        let p = choose|p: int| 0 <= p < u.len() && (#[trigger] u[p]).readers.contains(x);
        assert(u == upsert(h.drop_last(), e).push(h.last()));
        if p < u.len() - 1 {
            assert(reader_in(upsert(h.drop_last(), e), x));
            lemma_upsert_reader_in(h.drop_last(), e, x);
            let q = choose|q: int|
                0 <= q < h.drop_last().len() && (#[trigger] h.drop_last()[q]).readers.contains(x);
            assert(h[q].readers.contains(x));
        } else {
            assert(u[p] == h.last());
            assert(h[h.len() - 1].readers.contains(x));
        }
    }
}

} // verus!
