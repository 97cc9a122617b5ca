use cw20_staking::state::{
    insert_lock_info, read_user_lock_info, remove_and_accumulate_lock_info, LockInfo, StakingStore,
    StoreError,
};

fn lock(t: u64, amount: u128) -> LockInfo {
    LockInfo { unlock_time: t, amount }
}

fn seeded() -> StakingStore {
    let mut s = StakingStore::new();
    insert_lock_info(&mut s, b"asset", b"user", lock(20, 7)).unwrap();
    insert_lock_info(&mut s, b"asset", b"user", lock(10, 5)).unwrap();
    insert_lock_info(&mut s, b"asset", b"user", lock(30, 3)).unwrap();
    s
}

#[test]
fn listing_ascends_and_descends() {
    let s = seeded();
    let asc = read_user_lock_info(&s, b"asset", b"user", None, None, Some(1)).unwrap();
    assert_eq!(asc, vec![lock(10, 5), lock(20, 7), lock(30, 3)]);
    let default_order = read_user_lock_info(&s, b"asset", b"user", None, None, None).unwrap();
    assert_eq!(default_order, asc);
    let desc = read_user_lock_info(&s, b"asset", b"user", None, None, Some(2)).unwrap();
    let mut reversed = asc.clone();
    reversed.reverse();
    assert_eq!(desc, reversed);
}

#[test]
fn listing_an_empty_queue_returns_nothing() {
    let s = StakingStore::new();
    assert_eq!(read_user_lock_info(&s, b"asset", b"user", None, None, None).unwrap().len(), 0);
    assert_eq!(read_user_lock_info(&s, b"asset", b"user", Some(5), Some(3), Some(2)).unwrap().len(), 0);
}

#[test]
fn listing_rejects_unknown_order_code() {
    let s = seeded();
    assert_eq!(
        read_user_lock_info(&s, b"asset", b"user", None, None, Some(3)).err(),
        Some(StoreError::Malformed)
    );
    assert_eq!(
        read_user_lock_info(&s, b"asset", b"user", None, None, Some(0)).err(),
        Some(StoreError::Malformed)
    );
    assert_eq!(
        read_user_lock_info(&s, b"asset", b"user", None, None, Some(-1)).err(),
        Some(StoreError::Malformed)
    );
}

#[test]
fn start_after_is_exclusive() {
    let s = seeded();
    let after20 = read_user_lock_info(&s, b"asset", b"user", Some(20), None, Some(1)).unwrap();
    assert_eq!(after20, vec![lock(30, 3)]);
    let before20 = read_user_lock_info(&s, b"asset", b"user", Some(20), None, Some(2)).unwrap();
    assert_eq!(before20, vec![lock(10, 5)]);
    let after5 = read_user_lock_info(&s, b"asset", b"user", Some(5), None, Some(1)).unwrap();
    assert_eq!(after5.len(), 3);
    let after30 = read_user_lock_info(&s, b"asset", b"user", Some(30), None, Some(1)).unwrap();
    assert_eq!(after30.len(), 0);
}

#[test]
fn limit_defaults_to_ten_and_clamps_at_thirty() {
    let mut s = StakingStore::new();
    for t in 1..=35u64 {
        insert_lock_info(&mut s, b"asset", b"user", lock(t, t as u128)).unwrap();
    }
    let unlimited = read_user_lock_info(&s, b"asset", b"user", None, None, Some(1)).unwrap();
    assert_eq!(unlimited.len(), 10);
    assert_eq!(unlimited[0], lock(1, 1));
    assert_eq!(unlimited[9], lock(10, 10));
    let hundred = read_user_lock_info(&s, b"asset", b"user", None, Some(100), Some(1)).unwrap();
    let thirty = read_user_lock_info(&s, b"asset", b"user", None, Some(30), Some(1)).unwrap();
    assert_eq!(hundred, thirty);
    assert_eq!(thirty.len(), 30);
    let five = read_user_lock_info(&s, b"asset", b"user", None, Some(5), Some(2)).unwrap();
    assert_eq!(five.len(), 5);
    assert_eq!(five[0], lock(35, 35));
}

#[test]
fn inserting_at_same_second_sums_amounts() {
    let mut s = StakingStore::new();
    insert_lock_info(&mut s, b"asset", b"user", lock(10, 5)).unwrap();
    insert_lock_info(&mut s, b"asset", b"user", lock(10, 6)).unwrap();
    let list = read_user_lock_info(&s, b"asset", b"user", None, None, None).unwrap();
    assert_eq!(list, vec![lock(10, 11)]);
}

#[test]
fn inserting_past_the_range_is_rejected() {
    let mut s = StakingStore::new();
    insert_lock_info(&mut s, b"asset", b"user", lock(10, u128::MAX)).unwrap();
    assert_eq!(
        insert_lock_info(&mut s, b"asset", b"user", lock(10, 1)).err(),
        Some(StoreError::ArithmeticOverflow)
    );
    let list = read_user_lock_info(&s, b"asset", b"user", None, None, None).unwrap();
    assert_eq!(list, vec![lock(10, u128::MAX)]);
}

#[test]
fn drain_collects_matured_entries() {
    let mut s = seeded();
    assert_eq!(remove_and_accumulate_lock_info(&mut s, b"asset", b"user", 20).unwrap(), 12);
    let left = read_user_lock_info(&s, b"asset", b"user", None, None, None).unwrap();
    assert_eq!(left, vec![lock(30, 3)]);
    assert_eq!(remove_and_accumulate_lock_info(&mut s, b"asset", b"user", 30).unwrap(), 3);
    assert_eq!(read_user_lock_info(&s, b"asset", b"user", None, None, None).unwrap().len(), 0);
    assert_eq!(remove_and_accumulate_lock_info(&mut s, b"asset", b"user", 30).unwrap(), 0);
}

#[test]
fn drain_before_everything_returns_zero() {
    let mut s = seeded();
    assert_eq!(remove_and_accumulate_lock_info(&mut s, b"asset", b"user", 5).unwrap(), 0);
    assert_eq!(read_user_lock_info(&s, b"asset", b"user", None, None, None).unwrap().len(), 3);
    assert_eq!(remove_and_accumulate_lock_info(&mut s, b"other", b"user", 99).unwrap(), 0);
}

#[test]
fn drain_overflow_is_rejected_and_changes_nothing() {
    let mut s = StakingStore::new();
    insert_lock_info(&mut s, b"asset", b"user", lock(10, u128::MAX)).unwrap();
    insert_lock_info(&mut s, b"asset", b"user", lock(20, 1)).unwrap();
    assert_eq!(
        remove_and_accumulate_lock_info(&mut s, b"asset", b"user", 30).err(),
        Some(StoreError::ArithmeticOverflow)
    );
    let list = read_user_lock_info(&s, b"asset", b"user", None, None, None).unwrap();
    assert_eq!(list, vec![lock(10, u128::MAX), lock(20, 1)]);
    assert_eq!(remove_and_accumulate_lock_info(&mut s, b"asset", b"user", 10).unwrap(), u128::MAX);
}

#[test]
fn queues_are_separate_per_asset_and_user() {
    let mut s = StakingStore::new();
    insert_lock_info(&mut s, b"asset", b"alice", lock(10, 1)).unwrap();
    insert_lock_info(&mut s, b"asset", b"bob", lock(10, 2)).unwrap();
    insert_lock_info(&mut s, b"other", b"alice", lock(10, 4)).unwrap();
    assert_eq!(remove_and_accumulate_lock_info(&mut s, b"asset", b"alice", 10).unwrap(), 1);
    assert_eq!(
        read_user_lock_info(&s, b"asset", b"bob", None, None, None).unwrap(),
        vec![lock(10, 2)]
    );
    assert_eq!(
        read_user_lock_info(&s, b"other", b"alice", None, None, None).unwrap(),
        vec![lock(10, 4)]
    );
}
