use cw20_staking::state::{
    read_all_pool_infos, read_config, read_pool_info, read_rewards_per_sec, read_unbonding_period,
    rewards_list, rewards_read, rewards_store, stakers_contains, stakers_read, stakers_remove,
    stakers_store, store_config, store_pool_info, store_rewards_per_sec, store_unbonding_period,
    AssetAmount, Config, PoolInfo, RewardInfo, StakingStore, StoreError,
};

fn pool(token: &[u8], pending: u128, total: u128, index: u128) -> PoolInfo {
    PoolInfo {
        staking_token: token.to_vec(),
        pending_reward: pending,
        total_bond_amount: total,
        reward_index: index,
    }
}

fn reward(bond: u128, pending: u128, withdraw: Vec<AssetAmount>) -> RewardInfo {
    RewardInfo {
        native_token: false,
        index: 0,
        bond_amount: bond,
        pending_reward: pending,
        pending_withdraw: withdraw,
    }
}

#[test]
fn config_round_trip() {
    let mut s = StakingStore::new();
    assert_eq!(read_config(&s).err(), Some(StoreError::NotFound));
    let c = Config { owner: b"owner".to_vec(), rewarder: b"rewarder".to_vec() };
    store_config(&mut s, &c);
    let got = read_config(&s).unwrap();
    assert_eq!(got.owner, b"owner".to_vec());
    assert_eq!(got.rewarder, b"rewarder".to_vec());
    let c2 = Config { owner: b"owner2".to_vec(), rewarder: b"rewarder2".to_vec() };
    store_config(&mut s, &c2);
    assert_eq!(read_config(&s).unwrap().owner, b"owner2".to_vec());
}

#[test]
fn pool_info_round_trip() {
    let mut s = StakingStore::new();
    assert_eq!(read_pool_info(&s, b"asset").err(), Some(StoreError::NotFound));
    store_pool_info(&mut s, b"asset", &pool(b"token", 1, 2, 3));
    let p = read_pool_info(&s, b"asset").unwrap();
    assert_eq!(p.staking_token, b"token".to_vec());
    assert_eq!(p.pending_reward, 1);
    assert_eq!(p.total_bond_amount, 2);
    assert_eq!(p.reward_index, 3);
    store_pool_info(&mut s, b"asset", &pool(b"token", 9, 9, 9));
    assert_eq!(read_pool_info(&s, b"asset").unwrap().pending_reward, 9);
}

#[test]
fn pool_listing_is_sorted_by_key() {
    let mut s = StakingStore::new();
    store_pool_info(&mut s, b"zz", &pool(b"t1", 0, 1, 0));
    store_pool_info(&mut s, b"aa", &pool(b"t2", 0, 2, 0));
    store_pool_info(&mut s, b"mm", &pool(b"t3", 0, 3, 0));
    let all = read_all_pool_infos(&s);
    let keys: Vec<Vec<u8>> = all.iter().map(|e| e.0.clone()).collect();
    assert_eq!(keys, vec![b"aa".to_vec(), b"mm".to_vec(), b"zz".to_vec()]);
    assert_eq!(all[0].1.total_bond_amount, 2);
    assert_eq!(all[1].1.total_bond_amount, 3);
    assert_eq!(all[2].1.total_bond_amount, 1);
}

#[test]
fn reward_record_round_trip() {
    let mut s = StakingStore::new();
    assert_eq!(rewards_read(&s, b"staker", b"asset").err(), Some(StoreError::NotFound));
    rewards_store(&mut s, b"staker", b"asset", &reward(100, 7, vec![]));
    let r = rewards_read(&s, b"staker", b"asset").unwrap();
    assert_eq!(r.bond_amount, 100);
    assert_eq!(r.pending_reward, 7);
    assert_eq!(rewards_read(&s, b"staker", b"other").err(), Some(StoreError::NotFound));
    assert_eq!(rewards_read(&s, b"other", b"asset").err(), Some(StoreError::NotFound));
}

#[test]
fn reward_listing_per_staker() {
    let mut s = StakingStore::new();
    rewards_store(&mut s, b"staker", b"b_asset", &reward(2, 0, vec![]));
    rewards_store(&mut s, b"staker", b"a_asset", &reward(1, 0, vec![]));
    rewards_store(&mut s, b"other", b"c_asset", &reward(3, 0, vec![]));
    let list = rewards_list(&s, b"staker");
    assert_eq!(list.len(), 2);
    assert_eq!(list[0].0, b"a_asset".to_vec());
    assert_eq!(list[0].1.bond_amount, 1);
    assert_eq!(list[1].0, b"b_asset".to_vec());
    assert_eq!(list[1].1.bond_amount, 2);
    assert_eq!(rewards_list(&s, b"nobody").len(), 0);
}

#[test]
fn pending_withdrawals_coexist() {
    let mut s = StakingStore::new();
    let withdraw = vec![
        AssetAmount { asset_id: b"atom".to_vec(), amount: 11 },
        AssetAmount { asset_id: b"osmo".to_vec(), amount: 22 },
        AssetAmount { asset_id: b"juno".to_vec(), amount: 33 },
    ];
    rewards_store(&mut s, b"staker", b"asset", &reward(5, 0, withdraw));
    let r = rewards_read(&s, b"staker", b"asset").unwrap();
    assert_eq!(r.pending_withdraw.len(), 3);
    assert_eq!(r.pending_withdraw[0].asset_id, b"atom".to_vec());
    assert_eq!(r.pending_withdraw[0].amount, 11);
    assert_eq!(r.pending_withdraw[1].asset_id, b"osmo".to_vec());
    assert_eq!(r.pending_withdraw[1].amount, 22);
    assert_eq!(r.pending_withdraw[2].asset_id, b"juno".to_vec());
    assert_eq!(r.pending_withdraw[2].amount, 33);
}

#[test]
fn pool_total_matches_staker_bonds() {
    let mut s = StakingStore::new();
    rewards_store(&mut s, b"alice", b"asset", &reward(10, 0, vec![]));
    rewards_store(&mut s, b"bob", b"asset", &reward(20, 0, vec![]));
    store_pool_info(&mut s, b"asset", &pool(b"token", 0, 30, 0));
    let total = read_pool_info(&s, b"asset").unwrap().total_bond_amount;
    let sum = rewards_read(&s, b"alice", b"asset").unwrap().bond_amount
        + rewards_read(&s, b"bob", b"asset").unwrap().bond_amount;
    assert_eq!(total, sum);
}

#[test]
fn staker_registry_is_idempotent() {
    let mut s = StakingStore::new();
    stakers_store(&mut s, b"asset", b"alice");
    stakers_store(&mut s, b"asset", b"alice");
    let list = stakers_read(&s, b"asset");
    assert_eq!(list, vec![b"alice".to_vec()]);
    assert!(stakers_contains(&s, b"asset", b"alice"));
}

#[test]
fn staker_remove_absent_is_noop() {
    let mut s = StakingStore::new();
    stakers_store(&mut s, b"asset", b"alice");
    stakers_remove(&mut s, b"asset", b"bob");
    assert_eq!(stakers_read(&s, b"asset"), vec![b"alice".to_vec()]);
    stakers_remove(&mut s, b"other", b"alice");
    assert_eq!(stakers_read(&s, b"asset"), vec![b"alice".to_vec()]);
    stakers_remove(&mut s, b"asset", b"alice");
    assert!(!stakers_contains(&s, b"asset", b"alice"));
    assert_eq!(stakers_read(&s, b"asset").len(), 0);
}

#[test]
fn staker_listing_is_sorted() {
    let mut s = StakingStore::new();
    stakers_store(&mut s, b"asset", b"carol");
    stakers_store(&mut s, b"asset", b"alice");
    stakers_store(&mut s, b"asset", b"bob");
    let list = stakers_read(&s, b"asset");
    assert_eq!(list, vec![b"alice".to_vec(), b"bob".to_vec(), b"carol".to_vec()]);
}

#[test]
fn rewards_per_sec_round_trip() {
    let mut s = StakingStore::new();
    assert_eq!(read_rewards_per_sec(&s, b"asset").err(), Some(StoreError::NotFound));
    let rates = vec![
        AssetAmount { asset_id: b"atom".to_vec(), amount: 3 },
        AssetAmount { asset_id: b"osmo".to_vec(), amount: 4 },
    ];
    store_rewards_per_sec(&mut s, b"asset", rates);
    let got = read_rewards_per_sec(&s, b"asset").unwrap();
    assert_eq!(got.len(), 2);
    assert_eq!(got[0].asset_id, b"atom".to_vec());
    assert_eq!(got[0].amount, 3);
    assert_eq!(got[1].asset_id, b"osmo".to_vec());
    assert_eq!(got[1].amount, 4);
}

#[test]
fn unbonding_period_round_trip() {
    let mut s = StakingStore::new();
    assert_eq!(read_unbonding_period(&s, b"asset").err(), Some(StoreError::NotFound));
    store_unbonding_period(&mut s, b"asset", 86400);
    assert_eq!(read_unbonding_period(&s, b"asset").unwrap(), 86400);
    store_unbonding_period(&mut s, b"asset", 3600);
    assert_eq!(read_unbonding_period(&s, b"asset").unwrap(), 3600);
    assert_eq!(read_unbonding_period(&s, b"other").err(), Some(StoreError::NotFound));
}
