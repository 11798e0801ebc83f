//! The serial reference semantics: what applying the batch strictly in order
//! means. Every executor's contract is stated against these functions.

use vstd::prelude::*;

use crate::amount::amount_bound;
use crate::types::{AccountModel, AccountState, Address, Transaction, zero_model};

verus! {

/// What ECDSA public-key recovery returns for a 65-byte signature and a
/// 32-byte digest: the recovered address as its four high bytes and sixteen
/// low bytes, or `None` when recovery fails. The result is a function of the
/// two byte strings alone.
pub uninterp spec fn recovered_of(sig: Seq<u8>, digest: Seq<u8>) -> Option<(u32, u128)>;

/// The signer recovered from a transaction's signature over its digest.
pub open spec fn spec_recover(tx: Transaction) -> Option<Address> {
    match recovered_of(tx.signature@, tx.tx_hash@) {
        Some(p) => Some(Address { hi: p.0, lo: p.1 }),
        None => None,
    }
}

/// Whether the signature recovers to the claimed sender.
pub open spec fn sig_ok(tx: Transaction) -> bool {
    spec_recover(tx) == Some(tx.from)
}

/// The state of `a` in `m`, with absent addresses read as nonce 0, balance 0.
pub open spec fn account_in(m: Map<Address, AccountModel>, a: Address) -> AccountModel {
    if m.dom().contains(a) {
        m[a]
    } else {
        zero_model()
    }
}

/// Whether a transfer applies cleanly given the sender and receiver states
/// it observed: the signature recovers to the sender (when verification is
/// on), the sender's nonce matches and can be advanced within 64 bits, the
/// balance covers the value, and the receiver's new balance stays within
/// 256 bits.
pub open spec fn transfer_valid(
    sender: AccountModel,
    receiver: AccountModel,
    tx: Transaction,
    verify: bool,
) -> bool {
    &&& (verify ==> sig_ok(tx))
    &&& sender.nonce == tx.nonce
    &&& tx.nonce < u64::MAX
    &&& sender.balance >= tx.value.as_int()
    &&& (tx.from == tx.to || receiver.balance + tx.value.as_int() < amount_bound())
}

/// Whether `tx` applies cleanly to state `m`.
pub open spec fn tx_valid(m: Map<Address, AccountModel>, tx: Transaction, verify: bool) -> bool {
    transfer_valid(account_in(m, tx.from), account_in(m, tx.to), tx, verify)
}

/// The mathematical reading of a concrete account store.
pub open spec fn models_of(m: Map<Address, AccountState>) -> Map<Address, AccountModel> {
    Map::new(|a: Address| m.dom().contains(a), |a: Address| m[a].model())
}

/// The state after a clean application of `tx`: the sender's nonce advances
/// and its balance drops by the value; the receiver's balance grows by it.
/// A self-transfer is one net update: nonce advanced, balance unchanged.
pub open spec fn apply_tx(m: Map<Address, AccountModel>, tx: Transaction) -> Map<
    Address,
    AccountModel,
> {
    if tx.from == tx.to {
        let s = account_in(m, tx.from);
        m.insert(tx.from, AccountModel { nonce: (s.nonce + 1) as nat, balance: s.balance })
    } else {
        let s = account_in(m, tx.from);
        let r = account_in(m, tx.to);
        m.insert(
            tx.from,
            AccountModel { nonce: (s.nonce + 1) as nat, balance: s.balance - tx.value.as_int() },
        ).insert(tx.to, AccountModel { nonce: r.nonce, balance: r.balance + tx.value.as_int() })
    }
}

/// One serial step: apply `tx` when it is valid, else leave the state as is.
pub open spec fn serial_step(m: Map<Address, AccountModel>, tx: Transaction, verify: bool) -> Map<
    Address,
    AccountModel,
> {
    if tx_valid(m, tx, verify) {
        apply_tx(m, tx)
    } else {
        m
    }
}

/// The state after serially applying the first `k` transactions of the batch.
pub open spec fn state_after(
    txs: Seq<Transaction>,
    init: Map<Address, AccountModel>,
    verify: bool,
    k: int,
) -> Map<Address, AccountModel>
    decreases k,
{
    if k <= 0 {
        init
    } else {
        serial_step(state_after(txs, init, verify, k - 1), txs[k - 1], verify)
    }
}

/// Whether transaction `j` applies cleanly in the serial order.
pub open spec fn tx_succeeds(
    txs: Seq<Transaction>,
    init: Map<Address, AccountModel>,
    verify: bool,
    j: int,
) -> bool {
    tx_valid(state_after(txs, init, verify, j), txs[j], verify)
}

/// How many of the first `k` transactions apply cleanly in the serial order.
pub open spec fn success_count(
    txs: Seq<Transaction>,
    init: Map<Address, AccountModel>,
    verify: bool,
    k: int,
) -> int
    decreases k,
{
    if k <= 0 {
        0
    } else {
        success_count(txs, init, verify, k - 1) + if tx_succeeds(txs, init, verify, k - 1) {
            1int
        } else {
            0int
        }
    }
}

/// Whether `tx` writes address `a` when it applies cleanly.
pub open spec fn writes_addr(tx: Transaction, a: Address) -> bool {
    a == tx.from || a == tx.to
}

/// Whether serial transaction `j` of the batch writes `a`.
pub open spec fn serial_writes(
    txs: Seq<Transaction>,
    init: Map<Address, AccountModel>,
    verify: bool,
    j: int,
    a: Address,
) -> bool {
    tx_succeeds(txs, init, verify, j) && writes_addr(txs[j], a)
}

/// The addresses written by some clean transaction among the first `k`.
pub open spec fn written_set(
    txs: Seq<Transaction>,
    init: Map<Address, AccountModel>,
    verify: bool,
    k: int,
) -> Set<Address> {
    Set::new(|a: Address| exists|j: int| 0 <= j < k && serial_writes(txs, init, verify, j, a))
}

/// The state of an address does not move across a stretch of the batch in
/// which no clean transaction writes it.
pub proof fn lemma_state_frame(
    txs: Seq<Transaction>,
    init: Map<Address, AccountModel>,
    verify: bool,
    a: Address,
    k1: int,
    k2: int,
)
    requires
        0 <= k1 <= k2,
        forall|j: int| k1 <= j < k2 ==> !serial_writes(txs, init, verify, j, a),
    ensures
        account_in(state_after(txs, init, verify, k2), a) == account_in(
            state_after(txs, init, verify, k1),
            a,
        ),
    decreases k2 - k1,
{
    if k2 > k1 {
        lemma_state_frame(txs, init, verify, a, k1, k2 - 1);
        assert(!serial_writes(txs, init, verify, k2 - 1, a));
    }
}

} // verus!
