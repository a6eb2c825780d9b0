use kv_runtime::account::AccountId;
use kv_runtime::epoch::{EpochError, EpochId, MockEpochManager};
use kv_runtime::hash::CryptoHash;
use kv_runtime::header::BlockHeader;
use kv_runtime::runtime::KeyValueRuntime;
use kv_runtime::schedule::{ScheduleError, ValidatorSchedule};
use std::cmp::Ordering;

fn acc(s: &str) -> AccountId {
    AccountId::new(s)
}

fn h(n: u8) -> CryptoHash {
    CryptoHash { bytes: [n; 32] }
}

fn zero() -> CryptoHash {
    CryptoHash::zero()
}

fn names(v: &[AccountId]) -> Vec<String> {
    v.iter().map(|a| String::from_utf8(a.bytes.clone()).unwrap()).collect()
}

fn two_slot_manager(epoch_length: u64) -> MockEpochManager {
    let vs = ValidatorSchedule::new().block_producers_per_epoch(vec![
        vec![acc("alice"), acc("bob")],
        vec![acc("carol"), acc("alice")],
    ]);
    MockEpochManager::new_with_validators(vs, epoch_length).unwrap()
}

/// Genesis block 1 (height 0), then blocks 2..=n at heights 1.. whose last
/// final block is two blocks back.
fn add_chain(em: &mut MockEpochManager, n: u8) {
    em.add_header(BlockHeader { hash: h(1), prev_hash: zero(), height: 0, last_final_block: zero() });
    for k in 2..=n {
        let last_final = if k >= 4 { h(k - 2) } else { zero() };
        em.add_header(BlockHeader { hash: h(k), prev_hash: h(k - 1), height: (k - 1) as u64, last_final_block: last_final });
    }
}

#[test]
fn genesis_sentinel_is_its_own_epoch() {
    let mut em = two_slot_manager(5);
    let (e, slot, next) = em.get_epoch_and_valset(zero()).unwrap();
    assert!(e.0 == zero() && next.0 == zero());
    assert_eq!(slot, 0);
    em.add_header(BlockHeader { hash: h(1), prev_hash: zero(), height: 0, last_final_block: zero() });
    let (e, slot, next) = em.get_epoch_and_valset(h(1)).unwrap();
    assert!(e.0 == h(1) && next.0 == zero());
    assert_eq!(slot, 0);
}

#[test]
fn valset_grows_by_one_at_each_boundary() {
    let mut em = two_slot_manager(5);
    add_chain(&mut em, 11);
    let mut epochs = Vec::new();
    let mut slots = Vec::new();
    for k in 1..=11u8 {
        let (e, slot, _) = em.get_epoch_and_valset(h(k)).unwrap();
        epochs.push(e.0);
        slots.push(slot);
    }
    // a new epoch is named by the block whose successor starts it: blocks
    // after 1..=5 are in the epoch of block 1, after 6..=10 in that of block
    // 6, after 11 in that of block 11
    for k in 0..5 {
        assert!(epochs[k] == h(1));
        assert_eq!(slots[k], 0);
    }
    for k in 5..10 {
        assert!(epochs[k] == h(6));
        assert_eq!(slots[k], 1);
    }
    assert!(epochs[10] == h(11));
    assert_eq!(slots[10], 0);
    // the next epoch id is inherited from genesis
    let (_, _, next) = em.get_epoch_and_valset(h(7)).unwrap();
    assert!(next.0 == zero());
    assert!(em.epoch_exists(&EpochId(h(6))));
    assert!(em.epoch_exists(&EpochId(h(11))));
    assert!(!em.epoch_exists(&EpochId(h(3))));
}

#[test]
fn unknown_blocks_and_unindexed_ancestors_fail() {
    let mut em = two_slot_manager(5);
    assert!(matches!(em.get_epoch_and_valset(h(9)), Err(EpochError::MissingBlock(x)) if x == h(9)));
    add_chain(&mut em, 3);
    assert!(matches!(em.get_epoch_and_valset(h(3)), Err(EpochError::AncestorNotIndexed(x)) if x == h(2)));
    em.add_header(BlockHeader { hash: h(20), prev_hash: zero(), height: 0, last_final_block: h(21) });
    assert!(matches!(em.get_epoch_and_valset(h(20)), Err(EpochError::MissingBlock(x)) if x == h(21)));
}

#[test]
fn next_block_epoch_start() {
    let mut em = two_slot_manager(5);
    add_chain(&mut em, 8);
    assert!(em.is_next_block_epoch_start(&zero()).unwrap());
    for k in 1..=5u8 {
        em.get_epoch_and_valset(h(k)).unwrap();
    }
    assert!(em.is_next_block_epoch_start(&h(6)).unwrap());
    assert!(!em.is_next_block_epoch_start(&h(7)).unwrap());
    assert!(matches!(em.is_next_block_epoch_start(&h(40)), Err(EpochError::MissingBlock(_))));
}

#[test]
fn epoch_ids_from_prev_block() {
    let mut em = two_slot_manager(5);
    add_chain(&mut em, 7);
    for k in 1..=5u8 {
        em.get_epoch_and_valset(h(k)).unwrap();
    }
    assert!(em.get_epoch_id_from_prev_block(&h(6)).unwrap().0 == h(6));
    assert!(em.get_next_epoch_id_from_prev_block(&h(6)).unwrap().0 == zero());
    assert!(em.get_epoch_id(&h(6)).unwrap().0 == h(6));
    assert!(em.get_next_epoch_id(&h(7)).unwrap().0 == zero());
    assert_eq!(em.get_epoch_start_height(&h(6)).unwrap(), 5);
    assert_eq!(em.get_epoch_start_height(&h(2)).unwrap(), 0);
}

#[test]
fn block_producers_rotate_by_height() {
    let mut em = two_slot_manager(5);
    em.get_epoch_and_valset(zero()).unwrap();
    let genesis = EpochId(zero());
    assert!(em.get_block_producer(&genesis, 0).unwrap() == acc("alice"));
    assert!(em.get_block_producer(&genesis, 1).unwrap() == acc("bob"));
    assert!(em.get_block_producer(&genesis, 7).unwrap() == acc("bob"));
    let ordered = em.get_epoch_block_producers_ordered(&genesis).unwrap();
    assert_eq!(ordered.len(), 2);
    assert_eq!(ordered[0].stake, 1_000_000);
    assert!(matches!(em.get_block_producer(&EpochId(h(77)), 0), Err(EpochError::EpochOutOfBounds(_))));
}

#[test]
fn chunk_producer_formula() {
    let vs = ValidatorSchedule::new()
        .block_producers_per_epoch(vec![vec![acc("a"), acc("b"), acc("c"), acc("d")]])
        .num_shards(2)
        .validator_groups(2);
    let em = MockEpochManager::new_with_validators(vs, 10).unwrap();
    let genesis = EpochId(zero());
    assert_eq!(names(&em.get_epoch_chunk_producers_for_shard(&genesis, 0).unwrap()), vec!["a", "b"]);
    assert_eq!(names(&em.get_epoch_chunk_producers_for_shard(&genesis, 1).unwrap()), vec!["c", "d"]);
    // (shard + height + 1) mod 2
    assert!(em.get_chunk_producer(&genesis, 0, 0).unwrap() == acc("b"));
    assert!(em.get_chunk_producer(&genesis, 0, 1).unwrap() == acc("a"));
    assert!(em.get_chunk_producer(&genesis, 1, 0).unwrap() == acc("c"));
    assert!(matches!(em.get_chunk_producer(&genesis, 2, 0), Err(EpochError::InvalidShardId(2))));
    assert!(em.cares_about_shard_in_epoch(&genesis, &acc("c"), 1).unwrap());
    assert!(!em.cares_about_shard_in_epoch(&genesis, &acc("c"), 0).unwrap());
    assert_eq!(em.shard_ids(), vec![0, 1]);
}

#[test]
fn chunk_only_producers_join_their_shard() {
    let vs = ValidatorSchedule::new()
        .block_producers_per_epoch(vec![vec![acc("a"), acc("b")]])
        .chunk_only_producers_per_epoch_per_shard(vec![vec![vec![acc("x")], vec![acc("y"), acc("z")]]])
        .num_shards(2);
    let em = MockEpochManager::new_with_validators(vs, 10).unwrap();
    let genesis = EpochId(zero());
    assert_eq!(names(&em.get_epoch_chunk_producers_for_shard(&genesis, 0).unwrap()), vec!["a", "b", "x"]);
    assert_eq!(names(&em.get_epoch_chunk_producers_for_shard(&genesis, 1).unwrap()), vec!["a", "b", "y", "z"]);
    assert!(em.get_validator_by_account_id(&genesis, &acc("z")).unwrap().account_id == acc("z"));
    assert!(em.get_validator_by_account_id(&genesis, &acc("a")).unwrap().account_id == acc("a"));
    assert!(matches!(
        em.get_validator_by_account_id(&genesis, &acc("q")),
        Err(EpochError::NotAValidator(a, _)) if a == acc("q")
    ));
}

#[test]
fn unusable_schedules_are_rejected() {
    let err = |vs: ValidatorSchedule| MockEpochManager::new_with_validators(vs, 5).err().unwrap();
    assert_eq!(err(ValidatorSchedule::new()), ScheduleError::EmptySchedule);
    let one = || vec![vec![acc("a")]];
    assert_eq!(err(ValidatorSchedule::new().block_producers_per_epoch(one()).num_shards(0)), ScheduleError::NoShards);
    assert_eq!(
        err(ValidatorSchedule::new().block_producers_per_epoch(one()).validator_groups(0)),
        ScheduleError::NoValidatorGroups
    );
    assert_eq!(
        err(ValidatorSchedule::new().block_producers_per_epoch(one()).validator_groups(2)),
        ScheduleError::TooFewBlockProducers
    );
    assert_eq!(
        err(ValidatorSchedule::new()
            .block_producers_per_epoch(one())
            .chunk_only_producers_per_epoch_per_shard(vec![vec![vec![acc("x")], vec![acc("y")]]])),
        ScheduleError::ChunkOnlyShape
    );
    assert_eq!(
        err(ValidatorSchedule::new()
            .block_producers_per_epoch(one())
            .chunk_only_producers_per_epoch_per_shard(vec![vec![vec![acc("a")]]])),
        ScheduleError::ChunkOnlyProducerAlreadyValidator
    );
    assert_eq!(
        err(ValidatorSchedule::new()
            .block_producers_per_epoch(vec![vec![acc("a"), acc("b")]])
            .num_shards(2)
            .chunk_only_producers_per_epoch_per_shard(vec![vec![vec![acc("x")], vec![acc("x")]]])),
        ScheduleError::ChunkOnlyProducerAlreadyValidator
    );
}

#[test]
fn part_owner_formula() {
    let em = two_slot_manager(5);
    // one shard: 14 parts, 4 of them with data
    assert_eq!(em.num_total_parts(), 14);
    assert_eq!(em.num_data_parts(), 4);
    let genesis = EpochId(zero());
    // (part + 4 + 14) mod 2
    assert!(em.get_part_owner(&genesis, 0).unwrap() == acc("alice"));
    assert!(em.get_part_owner(&genesis, 1).unwrap() == acc("bob"));
    let other = two_slot_manager(9);
    for part in 0..6 {
        assert!(em.get_part_owner(&genesis, part).unwrap() == other.get_part_owner(&genesis, part).unwrap());
    }
    let vs = ValidatorSchedule::new().block_producers_per_epoch(vec![vec![acc("a")]]).num_shards(49);
    let many = MockEpochManager::new_with_validators(vs, 5).unwrap();
    assert_eq!(many.num_total_parts(), 12);
    assert_eq!(many.num_data_parts(), 3);
}

#[test]
fn approvers_include_next_epoch_when_due() {
    let mut em = two_slot_manager(5);
    add_chain(&mut em, 4);
    for k in 1..=3u8 {
        em.get_epoch_and_valset(h(k)).unwrap();
    }
    // the block after 3 (height 3) comes within three blocks of the boundary
    let approvers = em.get_epoch_block_approvers_ordered(&h(4)).unwrap();
    assert_eq!(approvers.len(), 3);
    assert!(approvers[0].account_id == acc("alice") && approvers[0].stake_this_epoch == 1_000_000);
    assert!(approvers[1].account_id == acc("bob") && approvers[1].stake_next_epoch == 0);
    assert!(approvers[2].account_id == acc("carol"));
    assert_eq!(approvers[2].stake_this_epoch, 0);
    assert_eq!(approvers[2].stake_next_epoch, 1_000_000);
    let early = em.get_epoch_block_approvers_ordered(&h(2)).unwrap();
    assert_eq!(early.len(), 2);
    assert!(matches!(em.get_epoch_block_approvers_ordered(&zero()), Err(EpochError::AncestorNotIndexed(_))));
}

#[test]
fn cares_about_shard_by_slot() {
    let vs = ValidatorSchedule::new().block_producers_per_epoch(vec![
        vec![acc("a")],
        vec![acc("b")],
        vec![acc("c")],
    ]);
    let mut em = MockEpochManager::new_with_validators(vs, 5).unwrap();
    add_chain(&mut em, 2);
    em.get_epoch_and_valset(h(1)).unwrap();
    // slot 0 governs the block after block 2
    assert!(em.cares_about_shard_from_prev_block(&h(2), &acc("a"), 0).unwrap());
    assert!(em.cares_about_shard_next_epoch_from_prev_block(&h(2), &acc("b"), 0).unwrap());
    // the schedule is reused cyclically: the slot before 0 is the last one
    assert!(em.cared_about_shard_prev_epoch_from_prev_block(&h(2), &acc("c"), 0).unwrap());
    assert!(!em.cared_about_shard_prev_epoch_from_prev_block(&h(2), &acc("a"), 0).unwrap());
}

#[test]
fn compare_epochs_by_slot() {
    let mut em = two_slot_manager(5);
    add_chain(&mut em, 6);
    for k in 1..=6u8 {
        em.get_epoch_and_valset(h(k)).unwrap();
    }
    assert_eq!(em.compare_epoch_id(&EpochId(h(1)), &EpochId(h(6))).unwrap(), Ordering::Less);
    assert_eq!(em.compare_epoch_id(&EpochId(h(6)), &EpochId(h(1))).unwrap(), Ordering::Greater);
    assert_eq!(em.compare_epoch_id(&EpochId(h(9)), &EpochId(h(9))).unwrap(), Ordering::Equal);
    assert!(matches!(em.compare_epoch_id(&EpochId(h(9)), &EpochId(zero())), Err(EpochError::EpochOutOfBounds(_))));
}

#[test]
fn default_manager_has_one_validator() {
    let em = MockEpochManager::new(10);
    assert!(em.get_block_producer(&EpochId(zero()), 3).unwrap() == acc("test"));
    let rt = KeyValueRuntime::new(&em).unwrap();
    assert_eq!(rt.view_account(&zero(), &acc("test")), 1000);
}

#[test]
fn gc_stop_height_keeps_five_epochs() {
    let em = MockEpochManager::new(10);
    let mut rt = KeyValueRuntime::new(&em).unwrap();
    rt.add_header(BlockHeader { hash: h(1), prev_hash: zero(), height: 120, last_final_block: zero() });
    rt.add_header(BlockHeader { hash: h(2), prev_hash: h(1), height: 30, last_final_block: zero() });
    assert_eq!(rt.get_gc_stop_height(&h(1)), 70);
    assert_eq!(rt.get_gc_stop_height(&h(2)), 0);
    assert_eq!(rt.get_gc_stop_height(&h(3)), 0);
    let mut keep = KeyValueRuntime::new_with_no_gc(&em, true).unwrap();
    keep.add_header(BlockHeader { hash: h(1), prev_hash: zero(), height: 120, last_final_block: zero() });
    assert_eq!(keep.get_gc_stop_height(&h(1)), 0);
}

#[test]
fn possible_epochs_lists_every_indexed_hash_once() {
    let mut em = two_slot_manager(5);
    add_chain(&mut em, 3);
    for k in 1..=3u8 {
        em.get_epoch_and_valset(h(k)).unwrap();
    }
    em.get_epoch_and_valset(h(2)).unwrap();
    let epochs = em.possible_epochs_of_height_around_tip();
    assert_eq!(epochs.len(), 4);
    for want in [zero(), h(1), h(2), h(3)] {
        assert_eq!(epochs.iter().filter(|e| e.0 == want).count(), 1);
    }
}

#[test]
fn memoized_answer_is_not_recomputed() {
    let mut em = two_slot_manager(5);
    add_chain(&mut em, 6);
    for k in 1..=6u8 {
        em.get_epoch_and_valset(h(k)).unwrap();
    }
    let (e1, s1, n1) = em.get_epoch_and_valset(h(6)).unwrap();
    let (e2, s2, n2) = em.get_epoch_and_valset(h(6)).unwrap();
    assert!(e1.0 == e2.0 && n1.0 == n2.0);
    assert_eq!(s1, s2);
    assert!(e1.0 == h(6));
    assert_eq!(s1, 1);
    assert_eq!(em.get_valset_for_epoch(&e1).unwrap(), 1);
}

#[test]
fn validators_hold_the_standard_stake() {
    let em = two_slot_manager(5);
    let genesis = EpochId(zero());
    let v = em.get_validator_by_account_id(&genesis, &acc("bob")).unwrap();
    assert_eq!(v.stake, 1_000_000);
    assert!(em.epoch_exists(&genesis));
    assert_eq!(em.get_valset_for_epoch(&genesis).unwrap(), 0);
}

#[test]
fn previous_epoch_by_walking_back() {
    let mut em = two_slot_manager(5);
    add_chain(&mut em, 8);
    for k in 1..=7u8 {
        em.get_epoch_and_valset(h(k)).unwrap();
    }
    assert!(em.get_prev_epoch_id_from_prev_block(&h(8)).unwrap().0 == h(6));
    assert!(em.get_prev_epoch_id_from_prev_block(&h(3)).unwrap().0 == h(1));
    assert!(matches!(em.get_prev_epoch_id_from_prev_block(&h(50)), Err(EpochError::MissingBlock(_))));
}
