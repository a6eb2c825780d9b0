use kv_runtime::account::{account_id_to_shard_id, AccountId};
use kv_runtime::chunk::{Action, ApplyError, Receipt, Transaction};
use kv_runtime::epoch::MockEpochManager;
use kv_runtime::hash::{hash_bytes, CryptoHash};
use kv_runtime::runtime::KeyValueRuntime;
use kv_runtime::schedule::ValidatorSchedule;

fn acc(s: &str) -> AccountId {
    AccountId::new(s)
}

fn runtime_for(producers: &[&str], num_shards: u64) -> KeyValueRuntime {
    let vs = ValidatorSchedule::new()
        .block_producers_per_epoch(vec![producers.iter().map(|p| acc(p)).collect()])
        .num_shards(num_shards);
    let em = MockEpochManager::new_with_validators(vs, 10).unwrap();
    KeyValueRuntime::new(&em).unwrap()
}

fn transfer_tx(tag: u8, from: &str, to: &str, amount: u128, nonce: u64) -> Transaction {
    Transaction {
        hash: CryptoHash { bytes: [tag; 32] },
        signer_id: acc(from),
        receiver_id: acc(to),
        nonce,
        actions: vec![Action::Transfer { deposit: amount }],
    }
}

fn zero() -> CryptoHash {
    CryptoHash::zero()
}

#[test]
fn hash_of_abc_is_sha256() {
    let h = hash_bytes(b"abc");
    let hex: String = h.bytes.iter().map(|b| format!("{:02x}", b)).collect();
    assert_eq!(hex, "ba7816bf8f01cfea414140de5dae2223b00361a396177a9cb410ff61f20015ad");
}

#[test]
fn shard_assignment_follows_digest() {
    assert_eq!(account_id_to_shard_id(&acc("alice"), 2), 1);
    assert_eq!(account_id_to_shard_id(&acc("carol"), 2), 0);
    assert_eq!(account_id_to_shard_id(&acc("alice"), 4), 3);
    assert_eq!(account_id_to_shard_id(&acc("test2"), 4), 0);
    assert_eq!(account_id_to_shard_id(&acc("anyone"), 1), 0);
}

#[test]
fn genesis_balances_by_producer_index() {
    let rt = runtime_for(&["alice", "bob", "carol"], 1);
    assert_eq!(rt.view_account(&zero(), &acc("alice")), 1000);
    assert_eq!(rt.view_account(&zero(), &acc("bob")), 1100);
    assert_eq!(rt.view_account(&zero(), &acc("carol")), 1200);
    assert_eq!(rt.view_account(&zero(), &acc("dave")), 0);
    assert_eq!(rt.view_account(&CryptoHash { bytes: [9; 32] }, &acc("alice")), 0);
}

#[test]
fn local_transfer_example() {
    let mut rt = runtime_for(&["alice"], 1);
    let txs = vec![transfer_tx(1, "alice", "bob", 100, 1)];
    let res = rt.apply_chunk(&zero(), 0, &vec![], &txs).unwrap();
    assert_eq!(rt.view_account(&res.new_root, &acc("alice")), 900);
    assert_eq!(rt.view_account(&res.new_root, &acc("bob")), 100);
    assert_eq!(res.outcomes.len(), 1);
    assert!(res.outcomes[0].receipt_ids.is_empty());
    assert!(res.outcomes[0].executor_id == acc("bob"));
    assert!(res.outgoing_receipts.is_empty());
    assert!(res.new_root != zero());
    // the previous root is untouched
    assert_eq!(rt.view_account(&zero(), &acc("alice")), 1000);
}

#[test]
fn cross_shard_transfer_example() {
    let mut rt = runtime_for(&["alice"], 2);
    let a_shard = account_id_to_shard_id(&acc("alice"), 2);
    let c_shard = account_id_to_shard_id(&acc("carol"), 2);
    assert_ne!(a_shard, c_shard);
    let txs = vec![transfer_tx(2, "alice", "carol", 50, 2)];
    let first = rt.apply_chunk(&zero(), a_shard, &vec![], &txs).unwrap();
    assert_eq!(rt.view_account(&first.new_root, &acc("alice")), 950);
    assert_eq!(rt.view_account(&first.new_root, &acc("carol")), 0);
    assert_eq!(first.outgoing_receipts.len(), 1);
    let receipt = &first.outgoing_receipts[0];
    assert_eq!(account_id_to_shard_id(&receipt.receiver_id, 2), c_shard);
    assert_eq!(receipt.actions, vec![Action::Transfer { deposit: 50 }]);
    assert_eq!(first.outcomes.len(), 1);
    assert!(first.outcomes[0].receipt_ids[0] == receipt.receipt_id);

    let incoming = vec![Receipt {
        predecessor_id: receipt.predecessor_id.duplicate(),
        receiver_id: receipt.receiver_id.duplicate(),
        receipt_id: receipt.receipt_id,
        actions: receipt.actions.clone(),
    }];
    let second = rt.apply_chunk(&zero(), c_shard, &incoming, &vec![]).unwrap();
    assert_eq!(rt.view_account(&second.new_root, &acc("carol")), 50);
    let third = rt.apply_chunk(&second.new_root, c_shard, &incoming, &vec![]);
    assert!(matches!(third, Err(ApplyError::DuplicateReceipt)));
}

#[test]
fn cross_shard_receipt_id_is_digest_of_record() {
    let mut rt = runtime_for(&["alice"], 2);
    let a_shard = account_id_to_shard_id(&acc("alice"), 2);
    let txs = vec![transfer_tx(2, "alice", "carol", 50, 2)];
    let res = rt.apply_chunk(&zero(), a_shard, &vec![], &txs).unwrap();
    let mut record = Vec::new();
    record.extend_from_slice(&5u32.to_le_bytes());
    record.extend_from_slice(b"alice");
    record.extend_from_slice(&5u32.to_le_bytes());
    record.extend_from_slice(b"carol");
    record.extend_from_slice(&50u128.to_le_bytes());
    record.extend_from_slice(&2u64.to_le_bytes());
    assert!(res.outgoing_receipts[0].receipt_id == hash_bytes(&record));
}

#[test]
fn replayed_transaction_moves_nothing() {
    let mut rt = runtime_for(&["alice"], 1);
    let txs = vec![transfer_tx(1, "alice", "bob", 100, 1)];
    let first = rt.apply_chunk(&zero(), 0, &vec![], &txs).unwrap();
    let again = vec![transfer_tx(3, "alice", "bob", 100, 1)];
    let second = rt.apply_chunk(&first.new_root, 0, &vec![], &again).unwrap();
    assert_eq!(rt.view_account(&second.new_root, &acc("alice")), 900);
    assert_eq!(rt.view_account(&second.new_root, &acc("bob")), 100);
    assert_eq!(second.outcomes.len(), 1);
    assert!(second.outcomes[0].id == CryptoHash { bytes: [3; 32] });
}

#[test]
fn replay_within_one_chunk_moves_once() {
    let mut rt = runtime_for(&["alice"], 1);
    let txs = vec![transfer_tx(1, "alice", "bob", 100, 7), transfer_tx(2, "alice", "bob", 100, 7)];
    let res = rt.apply_chunk(&zero(), 0, &vec![], &txs).unwrap();
    assert_eq!(rt.view_account(&res.new_root, &acc("alice")), 900);
    assert_eq!(rt.view_account(&res.new_root, &acc("bob")), 100);
    assert_eq!(res.outcomes.len(), 2);
}

#[test]
fn insufficient_balance_is_dropped_silently() {
    let mut rt = runtime_for(&["alice"], 1);
    let txs = vec![transfer_tx(1, "alice", "bob", 5000, 1), transfer_tx(2, "bob", "alice", 1, 1)];
    let res = rt.apply_chunk(&zero(), 0, &vec![], &txs).unwrap();
    assert!(res.outcomes.is_empty());
    assert_eq!(rt.view_account(&res.new_root, &acc("alice")), 1000);
    assert_eq!(rt.view_account(&res.new_root, &acc("bob")), 0);
}

#[test]
fn same_chunk_twice_gives_same_root() {
    let mut rt = runtime_for(&["alice"], 1);
    let txs = vec![transfer_tx(1, "alice", "bob", 100, 1)];
    let a = rt.apply_chunk(&zero(), 0, &vec![], &txs).unwrap();
    let b = rt.apply_chunk(&zero(), 0, &vec![], &txs).unwrap();
    assert!(a.new_root == b.new_root);
    assert_eq!(rt.view_account(&zero(), &acc("alice")), 1000);
    assert_eq!(rt.view_account(&a.new_root, &acc("alice")), 900);
}

#[test]
fn missing_state_root_is_reported() {
    let mut rt = runtime_for(&["alice"], 1);
    let r = rt.apply_chunk(&CryptoHash { bytes: [5; 32] }, 0, &vec![], &vec![]);
    assert!(matches!(r, Err(ApplyError::MissingState)));
}

#[test]
fn wrong_shard_inputs_are_rejected() {
    let mut rt = runtime_for(&["alice"], 2);
    let c_shard = account_id_to_shard_id(&acc("carol"), 2);
    let txs = vec![transfer_tx(1, "alice", "bob", 1, 1)];
    let r = rt.apply_chunk(&zero(), c_shard, &vec![], &txs);
    assert!(matches!(r, Err(ApplyError::TransactionWrongShard)));
    let rs = vec![Receipt {
        predecessor_id: acc("carol"),
        receiver_id: acc("alice"),
        receipt_id: CryptoHash { bytes: [4; 32] },
        actions: vec![Action::Transfer { deposit: 1 }],
    }];
    let r = rt.apply_chunk(&zero(), c_shard, &rs, &vec![]);
    assert!(matches!(r, Err(ApplyError::ReceiptWrongShard)));
}

#[test]
fn malformed_inputs_are_rejected() {
    let mut rt = runtime_for(&["alice"], 1);
    let rs = vec![Receipt {
        predecessor_id: acc("carol"),
        receiver_id: acc("alice"),
        receipt_id: CryptoHash { bytes: [4; 32] },
        actions: vec![],
    }];
    let r = rt.apply_chunk(&zero(), 0, &rs, &vec![]);
    assert!(matches!(r, Err(ApplyError::MalformedReceipt)));
    let mut tx = transfer_tx(1, "alice", "bob", 1, 1);
    tx.actions = vec![Action::Other];
    let r = rt.apply_chunk(&zero(), 0, &vec![], &vec![tx]);
    assert!(matches!(r, Err(ApplyError::UnsupportedAction)));
    let mut empty = transfer_tx(1, "alice", "bob", 1, 1);
    empty.actions = vec![];
    let ok = rt.apply_chunk(&zero(), 0, &vec![], &vec![empty]).unwrap();
    assert!(ok.outcomes.is_empty());
}

#[test]
fn zero_nonce_cross_shard_is_rejected() {
    let mut rt = runtime_for(&["alice"], 2);
    let a_shard = account_id_to_shard_id(&acc("alice"), 2);
    let txs = vec![transfer_tx(1, "alice", "carol", 1, 0)];
    let r = rt.apply_chunk(&zero(), a_shard, &vec![], &txs);
    assert!(matches!(r, Err(ApplyError::ZeroNonceCrossShard)));
}

#[test]
fn balance_overflow_is_rejected() {
    let mut rt = runtime_for(&["alice"], 2);
    let a_shard = account_id_to_shard_id(&acc("alice"), 2);
    let rs = vec![Receipt {
        predecessor_id: acc("carol"),
        receiver_id: acc("alice"),
        receipt_id: CryptoHash { bytes: [4; 32] },
        actions: vec![Action::Transfer { deposit: u128::MAX }],
    }];
    let r = rt.apply_chunk(&zero(), a_shard, &rs, &vec![]);
    assert!(matches!(r, Err(ApplyError::BalanceOverflow)));
}

#[test]
fn non_transfer_receipt_is_recorded_only() {
    let mut rt = runtime_for(&["alice"], 1);
    let rs = vec![Receipt {
        predecessor_id: acc("carol"),
        receiver_id: acc("alice"),
        receipt_id: CryptoHash { bytes: [4; 32] },
        actions: vec![Action::Other],
    }];
    let first = rt.apply_chunk(&zero(), 0, &rs, &vec![]).unwrap();
    assert!(first.outcomes.is_empty());
    let again = rt.apply_chunk(&first.new_root, 0, &rs, &vec![]);
    assert!(matches!(again, Err(ApplyError::DuplicateReceipt)));
}

#[test]
fn state_part_round_trip() {
    let mut rt = runtime_for(&["alice"], 1);
    let txs = vec![transfer_tx(1, "alice", "bob", 100, 1)];
    let res = rt.apply_chunk(&zero(), 0, &vec![], &txs).unwrap();
    let part = rt.obtain_state_part(&res.new_root, 0).unwrap();
    assert!(hash_bytes(&part) == res.new_root);
    assert!(rt.obtain_state_part(&res.new_root, 1).unwrap().is_empty());
    let (node, size) = rt.get_state_root_node(&res.new_root).unwrap();
    assert_eq!(node, part);
    assert_eq!(size as usize, part.len());

    let mut other = runtime_for(&["carol"], 1);
    other.apply_state_part(&res.new_root, 0, &part).unwrap();
    assert_eq!(other.view_account(&res.new_root, &acc("alice")), 900);
    assert_eq!(other.view_account(&res.new_root, &acc("bob")), 100);
    assert!(other.apply_state_part(&CryptoHash { bytes: [8; 32] }, 3, &[1, 2, 3]).is_ok());
    let bad = other.apply_state_part(&zero(), 0, &[1, 2, 3]);
    assert!(matches!(bad, Err(ApplyError::StateRootConflict)));
    let genesis = other.obtain_state_part(&zero(), 0).unwrap();
    assert!(other.apply_state_part(&zero(), 0, &genesis).is_ok());
    assert!(other.apply_state_part(&res.new_root, 0, &part).is_ok());
    let mut fresh = runtime_for(&["carol"], 1);
    let fake = CryptoHash { bytes: [0; 32] };
    assert!(matches!(fresh.apply_state_part(&fake, 0, &part), Err(ApplyError::StateRootConflict)));
    let wrong_root = other.apply_state_part(&CryptoHash { bytes: [8; 32] }, 0, &part);
    assert!(matches!(wrong_root, Err(ApplyError::StateRootMismatch)));
    assert_eq!(other.obtain_state_part(&res.new_root, 0).unwrap(), part);
    assert!(matches!(other.obtain_state_part(&CryptoHash { bytes: [8; 32] }, 0), Err(ApplyError::MissingState)));
}

#[test]
fn state_part_layout_is_sorted_borsh() {
    let rt = runtime_for(&["bob", "alice"], 1);
    let part = rt.obtain_state_part(&zero(), 0).unwrap();
    let mut expected = Vec::new();
    expected.extend_from_slice(&2u32.to_le_bytes());
    expected.extend_from_slice(&5u32.to_le_bytes());
    expected.extend_from_slice(b"alice");
    expected.extend_from_slice(&1100u128.to_le_bytes());
    expected.extend_from_slice(&3u32.to_le_bytes());
    expected.extend_from_slice(b"bob");
    expected.extend_from_slice(&1000u128.to_le_bytes());
    expected.extend_from_slice(&0u32.to_le_bytes());
    expected.extend_from_slice(&0u32.to_le_bytes());
    assert_eq!(part, expected);
}

#[test]
fn unsorted_state_part_is_rejected() {
    let mut rt = runtime_for(&["alice"], 1);
    let mut data = Vec::new();
    data.extend_from_slice(&2u32.to_le_bytes());
    data.extend_from_slice(&3u32.to_le_bytes());
    data.extend_from_slice(b"bob");
    data.extend_from_slice(&1u128.to_le_bytes());
    data.extend_from_slice(&5u32.to_le_bytes());
    data.extend_from_slice(b"alice");
    data.extend_from_slice(&1u128.to_le_bytes());
    data.extend_from_slice(&0u32.to_le_bytes());
    data.extend_from_slice(&0u32.to_le_bytes());
    let r = rt.apply_state_part(&hash_bytes(&data), 0, &data);
    assert!(matches!(r, Err(ApplyError::MalformedStatePart)));
}
