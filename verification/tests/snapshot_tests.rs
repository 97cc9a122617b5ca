use cw20_staking::snapshot::SnapshotMap;
use cw20_staking::state::{staked_balance_key, StakingStore};

#[test]
fn read_at_reconstructs_history() {
    let mut m = SnapshotMap::new();
    let key = b"balance".to_vec();
    m.advance_version(1);
    m.write(&key, 100);
    m.advance_version(5);
    m.write(&key, 200);
    m.advance_version(9);
    m.write(&key, 300);
    assert_eq!(m.read_at(&key, 0), 0);
    assert_eq!(m.read_at(&key, 3), 100);
    assert_eq!(m.read_at(&key, 5), 200);
    assert_eq!(m.read_at(&key, 100), 300);
    assert_eq!(m.read(&key), 300);
}

#[test]
fn unwritten_keys_read_zero_at_every_version() {
    let m = SnapshotMap::new();
    assert_eq!(m.read(&b"nothing".to_vec()), 0);
    assert_eq!(m.read_at(&b"nothing".to_vec(), 7), 0);
}

#[test]
fn keys_keep_separate_histories() {
    let mut m = SnapshotMap::new();
    let a = b"a".to_vec();
    let b = b"b".to_vec();
    m.advance_version(1);
    m.write(&a, 10);
    m.advance_version(2);
    m.write(&b, 20);
    m.advance_version(3);
    m.write(&a, 30);
    assert_eq!(m.read_at(&a, 1), 10);
    assert_eq!(m.read_at(&a, 2), 10);
    assert_eq!(m.read_at(&a, 3), 30);
    assert_eq!(m.read_at(&b, 1), 0);
    assert_eq!(m.read_at(&b, 2), 20);
    assert_eq!(m.read_at(&b, 3), 20);
}

#[test]
fn rewriting_within_one_version_keeps_the_last_value() {
    let mut m = SnapshotMap::new();
    let key = b"k".to_vec();
    m.advance_version(4);
    m.write(&key, 1);
    m.write(&key, 2);
    assert_eq!(m.read_at(&key, 4), 2);
    assert_eq!(m.read_at(&key, 3), 0);
}

#[test]
fn the_two_snapshot_families_do_not_mix() {
    let mut s = StakingStore::new();
    let pair_key = staked_balance_key(b"asset", b"alice");
    let total_key = b"asset".to_vec();
    s.staked_balances.advance_version(1);
    s.staked_total.advance_version(1);
    s.staked_balances.write(&pair_key, 50);
    s.staked_total.write(&total_key, 50);
    s.staked_balances.advance_version(2);
    s.staked_balances.write(&pair_key, 70);
    assert_eq!(s.staked_balances.read(&pair_key), 70);
    assert_eq!(s.staked_total.read(&total_key), 50);
    assert_eq!(s.staked_balances.read_at(&pair_key, 1), 50);
}

#[test]
fn balance_keys_distinguish_pairs() {
    let k1 = staked_balance_key(b"asset", b"alice");
    let k2 = staked_balance_key(b"asse", b"talice");
    let k3 = staked_balance_key(b"asset", b"alicf");
    assert_ne!(k1, k2);
    assert_ne!(k1, k3);
    assert_ne!(k2, k3);
}
