use ledger_state::errors::StateError;
use ledger_state::ledger::{
    Deployment, LedgerStore, Origin, Transaction, Transition,
};

fn transition(id: u64, tpk: u64, sns: &[u64], cms: &[u64], nonces: &[u64]) -> Transition {
    Transition {
        id,
        tpk,
        serial_numbers: sns.to_vec(),
        commitments: cms.to_vec(),
        nonces: nonces.to_vec(),
        origins: Vec::new(),
    }
}

#[test]
fn execute_round_trip() {
    let mut store = LedgerStore::new();
    let t1 = transition(10, 100, &[1, 2], &[31], &[41]);
    let t2 = transition(11, 101, &[3], &[32], &[42]);
    let fee = transition(12, 102, &[], &[], &[]);
    store
        .insert(Transaction::Execute(7, vec![t1, t2], Some(fee)))
        .unwrap();

    assert!(store.contains_transaction_id(7));
    assert!(store.contains_serial_number(1));
    assert!(store.contains_serial_number(3));
    assert!(store.contains_commitment(31));
    assert!(store.contains_nonce(42));
    assert!(store.contains_transition_public_key(102));

    match store.get_transaction(7).unwrap() {
        Transaction::Execute(id, transitions, fee) => {
            assert_eq!(id, 7);
            assert_eq!(transitions.len(), 2);
            assert_eq!(transitions[0].id, 10);
            assert_eq!(transitions[0].serial_numbers, vec![1, 2]);
            assert_eq!(transitions[1].id, 11);
            assert_eq!(transitions[1].commitments, vec![32]);
            assert_eq!(fee.unwrap().id, 12);
        }
        _ => panic!("inserted an execution"),
    }
}

#[test]
fn deploy_round_trip() {
    let mut store = LedgerStore::new();
    let deployment = Deployment {
        program_id: 500,
        functions: vec![1, 2],
        verifying_keys: vec![(2, 92), (1, 91)],
    };
    store.insert(Transaction::Deploy(8, deployment)).unwrap();
    match store.get_transaction(8).unwrap() {
        Transaction::Deploy(id, d) => {
            assert_eq!(id, 8);
            assert_eq!(d.program_id, 500);
            assert_eq!(d.functions, vec![1, 2]);
            assert_eq!(d.verifying_keys, vec![(2, 92), (1, 91)]);
        }
        _ => panic!("inserted a deployment"),
    }
}

#[test]
fn duplicate_serial_number_insert_leaves_no_partial_write() {
    let mut store = LedgerStore::new();
    let a = transition(10, 100, &[1], &[], &[]);
    store
        .insert(Transaction::Execute(7, vec![a], None))
        .unwrap();

    // B reuses serial number 1 and brings a new serial number 2.
    let b = transition(11, 101, &[1, 2], &[], &[]);
    assert_eq!(
        store
            .insert(Transaction::Execute(8, vec![b], None))
            .unwrap_err(),
        StateError::DuplicateKey
    );
    // Nothing of B leaked: its fresh serial number is still unknown.
    assert!(!store.contains_serial_number(2));
    assert!(!store.contains_transaction_id(8));
    assert!(!store.contains_transition_public_key(101));
    assert_eq!(
        store.get_transaction(8).unwrap_err(),
        StateError::UnknownTransaction
    );
}

#[test]
fn duplicate_transaction_id_is_rejected() {
    let mut store = LedgerStore::new();
    store
        .insert(Transaction::Execute(7, vec![transition(1, 2, &[], &[], &[])], None))
        .unwrap();
    assert_eq!(
        store
            .insert(Transaction::Execute(7, vec![transition(3, 4, &[], &[], &[])], None))
            .unwrap_err(),
        StateError::DuplicateKey
    );
}

#[test]
fn duplicate_key_within_one_transaction_is_rejected() {
    let mut store = LedgerStore::new();
    let t1 = transition(10, 100, &[5], &[], &[]);
    let t2 = transition(11, 101, &[5], &[], &[]);
    assert_eq!(
        store
            .insert(Transaction::Execute(7, vec![t1, t2], None))
            .unwrap_err(),
        StateError::DuplicateKey
    );
    assert!(!store.contains_serial_number(5));
}

#[test]
fn state_root_origins_are_unsupported() {
    let mut store = LedgerStore::new();
    let mut t = transition(10, 100, &[], &[], &[]);
    t.origins.push(Origin::StateRoot(9));
    assert_eq!(
        store
            .insert(Transaction::Execute(7, vec![t], None))
            .unwrap_err(),
        StateError::UnsupportedOrigin
    );
}

#[test]
fn commitment_origins_must_resolve() {
    let mut store = LedgerStore::new();
    let mut t = transition(10, 100, &[], &[], &[]);
    t.origins.push(Origin::Commitment(31));
    assert_eq!(
        store
            .insert(Transaction::Execute(7, vec![t], None))
            .unwrap_err(),
        StateError::MissingReference
    );

    // Once the commitment is indexed, the same origin resolves.
    store
        .insert(Transaction::Execute(
            8,
            vec![transition(20, 200, &[], &[31], &[])],
            None,
        ))
        .unwrap();
    let mut t = transition(10, 100, &[], &[], &[]);
    t.origins.push(Origin::Commitment(31));
    store.insert(Transaction::Execute(7, vec![t], None)).unwrap();
}

#[test]
fn deployment_function_keys_must_coincide() {
    let mut store = LedgerStore::new();
    let deployment = Deployment {
        program_id: 500,
        functions: vec![1, 2],
        verifying_keys: vec![(1, 91)],
    };
    assert_eq!(
        store.insert(Transaction::Deploy(8, deployment)).unwrap_err(),
        StateError::MissingReference
    );

    let deployment = Deployment {
        program_id: 500,
        functions: vec![1, 2],
        verifying_keys: vec![(1, 91), (3, 93)],
    };
    assert_eq!(
        store.insert(Transaction::Deploy(8, deployment)).unwrap_err(),
        StateError::MissingReference
    );
}

#[test]
fn redeploying_a_program_id_is_rejected() {
    let mut store = LedgerStore::new();
    let deployment = Deployment {
        program_id: 500,
        functions: vec![1],
        verifying_keys: vec![(1, 91)],
    };
    store.insert(Transaction::Deploy(8, deployment)).unwrap();
    let again = Deployment {
        program_id: 500,
        functions: vec![1],
        verifying_keys: vec![(1, 99)],
    };
    assert_eq!(
        store.insert(Transaction::Deploy(9, again)).unwrap_err(),
        StateError::DuplicateKey
    );
}

#[test]
fn missing_transaction_is_unknown() {
    let store = LedgerStore::new();
    assert_eq!(
        store.get_transaction(1).unwrap_err(),
        StateError::UnknownTransaction
    );
}

#[test]
fn remove_frees_every_index() {
    let mut store = LedgerStore::new();
    let t = transition(10, 100, &[1], &[31], &[41]);
    store
        .insert(Transaction::Execute(7, vec![t], None))
        .unwrap();
    store.remove(7).unwrap();
    assert!(!store.contains_transaction_id(7));
    assert!(!store.contains_serial_number(1));
    assert!(!store.contains_commitment(31));
    assert!(!store.contains_nonce(41));
    assert!(!store.contains_transition_public_key(100));
    assert_eq!(
        store.get_transaction(7).unwrap_err(),
        StateError::UnknownTransaction
    );
    // The freed keys can be used again.
    store
        .insert(Transaction::Execute(7, vec![transition(10, 100, &[1], &[31], &[41])], None))
        .unwrap();
}

#[test]
fn remove_of_unknown_transaction_fails() {
    let mut store = LedgerStore::new();
    assert_eq!(store.remove(3).unwrap_err(), StateError::UnknownTransaction);
}

#[test]
fn removing_a_deployment_frees_the_program_id() {
    let mut store = LedgerStore::new();
    let deployment = Deployment {
        program_id: 500,
        functions: vec![1],
        verifying_keys: vec![(1, 91)],
    };
    store.insert(Transaction::Deploy(8, deployment)).unwrap();
    store.remove(8).unwrap();
    let again = Deployment {
        program_id: 500,
        functions: vec![1],
        verifying_keys: vec![(1, 99)],
    };
    store.insert(Transaction::Deploy(9, again)).unwrap();
}
