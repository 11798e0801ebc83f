use db_test::{AccountState, Address, Amount, MVHashMap, ReadResult};

fn addr(n: u128) -> Address {
    Address { hi: 0, lo: n }
}

fn state(nonce: u64, balance: u64) -> AccountState {
    AccountState { nonce, balance: Amount::from_u64(balance) }
}

#[test]
fn test_read_write() {
    let mut mv = MVHashMap::new();
    let addr = addr(17);

    // Read from empty map
    let result = mv.read(addr, 1);
    assert!(matches!(result, ReadResult::Storage));

    // Write from transaction 0
    let state0 = state(1, 100);
    mv.write(addr, 0, 0, state0);

    // Transaction 1 should see transaction 0's write
    let result = mv.read(addr, 1);
    if let ReadResult::Versioned(version, state) = result {
        assert_eq!(version.txn_idx, 0);
        assert_eq!(state, state0);
    } else {
        panic!("Expected Versioned result");
    }
}

#[test]
fn test_invalidation() {
    let mut mv = MVHashMap::new();
    let addr = addr(23);

    // Transaction 0 writes
    let state0 = state(1, 100);
    mv.write(addr, 0, 0, state0);

    // Transaction 2 reads (and we record it)
    let result = mv.read(addr, 2);
    if let ReadResult::Versioned(version, _) = result {
        mv.record_read(addr, 2, version);
    }

    // Transaction 1 writes (should invalidate transaction 2)
    let state1 = state(2, 200);
    let write_result = mv.write(addr, 1, 0, state1);

    assert_eq!(write_result.invalidated_readers.len(), 1);
    assert_eq!(write_result.invalidated_readers[0], 2);
}

#[test]
fn test_storage_read_invalidation() {
    let mut mv = MVHashMap::new();
    let a = addr(5);

    // Transaction 3 resolves the address from the initial snapshot.
    assert!(matches!(mv.read(a, 3), ReadResult::Storage));
    mv.record_storage_read(a, 3);

    // A lower-indexed write must invalidate the storage reader.
    let wr = mv.write(a, 1, 0, state(1, 50));
    assert_eq!(wr.invalidated_readers, vec![3]);

    // A later write sees a versioned predecessor, so the storage reader is
    // not reported again: it has been re-homed by the first write.
    let wr2 = mv.write(a, 2, 0, state(1, 60));
    assert!(wr2.invalidated_readers.is_empty());
}

#[test]
fn test_write_supersedes_same_index() {
    let mut mv = MVHashMap::new();
    let a = addr(9);

    mv.write(a, 4, 0, state(1, 10));
    // Re-execution of the same transaction replaces its own entry.
    mv.write(a, 4, 1, state(2, 20));

    match mv.read(a, 5) {
        ReadResult::Versioned(version, st) => {
            assert_eq!(version.txn_idx, 4);
            assert_eq!(version.incarnation, 1);
            assert_eq!(st, state(2, 20));
        },
        _ => panic!("Expected Versioned result"),
    }

    let states = mv.get_committed_states();
    assert_eq!(states.len(), 1);
    assert_eq!(states[0], (a, state(2, 20)));
}

#[test]
fn test_clear_transaction() {
    let mut mv = MVHashMap::new();
    let a = addr(11);
    let b = addr(12);

    mv.write(a, 0, 0, state(1, 30));
    mv.write(a, 2, 0, state(2, 40));
    mv.write(b, 2, 0, state(1, 70));
    if let ReadResult::Versioned(version, _) = mv.read(a, 2) {
        mv.record_read(a, 2, version);
    }

    // Clearing transaction 2 removes its entries and its read registration.
    mv.clear_transaction(2);

    match mv.read(a, 5) {
        ReadResult::Versioned(version, st) => {
            assert_eq!(version.txn_idx, 0);
            assert_eq!(st, state(1, 30));
        },
        _ => panic!("Expected Versioned result"),
    }
    assert!(matches!(mv.read(b, 5), ReadResult::Storage));

    // Transaction 0's write is untouched, so a new write by 1 reports no
    // stale readers: 2's registration is gone.
    let wr = mv.write(a, 1, 0, state(1, 35));
    assert!(wr.invalidated_readers.is_empty());
}

#[test]
fn test_committed_states_take_highest_writer() {
    let mut mv = MVHashMap::new();
    let a = addr(1);
    let b = addr(2);

    mv.write(a, 0, 0, state(1, 10));
    mv.write(a, 3, 0, state(2, 15));
    mv.write(b, 1, 0, state(1, 99));

    let mut states = mv.get_committed_states();
    states.sort_by(|x, y| x.0.cmp(&y.0));
    assert_eq!(states, vec![(a, state(2, 15)), (b, state(1, 99))]);
}
