//! The staking store: per-asset pool aggregates, per-staker reward records,
//! the registry of bonded stakers, reward-rate and unbonding-period tables,
//! the time-ordered unbonding queue, and the two versioned balance maps.
//!
//! All amounts are plain `u128` values; fixed-point reward indices are kept
//! as their raw atomic representation. Addresses and asset identifiers are
//! opaque byte strings (canonical key bytes).

use vstd::prelude::*;
use crate::omap::OMap;
use crate::snapshot::SnapshotMap;
use crate::bytes::{lex_lt, bytes_of, copy_bytes, be_val, be_encode, be_decode, lemma_be_order, lemma_be_val_bound, lemma_be_val_injective, lemma_pow256_values};

verus! {

/// The number of entries a paginated listing returns when no limit is given.
pub const DEFAULT_LIMIT: u32 = 10;

/// The largest number of entries a paginated listing returns, whatever limit
/// is asked for.
pub const MAX_LIMIT: u32 = 30;

/// Why a store operation failed.
#[derive(Clone, Copy, Debug, PartialEq, Eq, Structural)]
pub enum StoreError {
    /// A required key was absent.
    NotFound,
    /// A malformed request, such as an unknown ordering code.
    Malformed,
    /// An amount accumulation would exceed the representable range.
    ArithmeticOverflow,
    /// A stored timestamp failed to decode back into a time value; guards
    /// the queue against a corrupted key.
    InvalidTimestamp,
}

/// The two fixed authority addresses: the administrative owner and the
/// reward-source authority.
pub struct Config {
    pub owner: Vec<u8>,
    pub rewarder: Vec<u8>,
}

pub ghost struct ConfigV {
    pub owner: Seq<u8>,
    pub rewarder: Seq<u8>,
}

impl View for Config {
    type V = ConfigV;

    open spec fn view(&self) -> ConfigV {
        ConfigV { owner: self.owner@, rewarder: self.rewarder@ }
    }
}

impl Config {
    pub fn dup(&self) -> (r: Config)
        ensures
            r@ == self@,
    {
        Config { owner: copy_bytes(&self.owner), rewarder: copy_bytes(&self.rewarder) }
    }
}

/// The per-asset aggregate pool state.
pub struct PoolInfo {
    pub staking_token: Vec<u8>,
    pub pending_reward: u128,
    pub total_bond_amount: u128,
    pub reward_index: u128,
}

pub ghost struct PoolInfoV {
    pub staking_token: Seq<u8>,
    pub pending_reward: u128,
    pub total_bond_amount: u128,
    pub reward_index: u128,
}

impl View for PoolInfo {
    type V = PoolInfoV;

    open spec fn view(&self) -> PoolInfoV {
        PoolInfoV {
            staking_token: self.staking_token@,
            pending_reward: self.pending_reward,
            total_bond_amount: self.total_bond_amount,
            reward_index: self.reward_index,
        }
    }
}

impl PoolInfo {
    pub fn dup(&self) -> (r: PoolInfo)
        ensures
            r@ == self@,
    {
        PoolInfo {
            staking_token: copy_bytes(&self.staking_token),
            pending_reward: self.pending_reward,
            total_bond_amount: self.total_bond_amount,
            reward_index: self.reward_index,
        }
    }
}

/// An amount denominated in one reward asset.
pub struct AssetAmount {
    pub asset_id: Vec<u8>,
    pub amount: u128,
}

pub ghost struct AssetAmountV {
    pub asset_id: Seq<u8>,
    pub amount: u128,
}

impl View for AssetAmount {
    type V = AssetAmountV;

    open spec fn view(&self) -> AssetAmountV {
        AssetAmountV { asset_id: self.asset_id@, amount: self.amount }
    }
}

impl AssetAmount {
    pub fn dup(&self) -> (r: AssetAmount)
        ensures
            r@ == self@,
    {
        AssetAmount { asset_id: copy_bytes(&self.asset_id), amount: self.amount }
    }
}

/// The per-asset, per-staker reward record.
pub struct RewardInfo {
    pub native_token: bool,
    pub index: u128,
    pub bond_amount: u128,
    pub pending_reward: u128,
    pub pending_withdraw: Vec<AssetAmount>,
}

pub ghost struct RewardInfoV {
    pub native_token: bool,
    pub index: u128,
    pub bond_amount: u128,
    pub pending_reward: u128,
    pub pending_withdraw: Seq<AssetAmountV>,
}

impl View for RewardInfo {
    type V = RewardInfoV;

    open spec fn view(&self) -> RewardInfoV {
        RewardInfoV {
            native_token: self.native_token,
            index: self.index,
            bond_amount: self.bond_amount,
            pending_reward: self.pending_reward,
            pending_withdraw: self.pending_withdraw@.map_values(|a: AssetAmount| a@),
        }
    }
}

fn dup_asset_amounts(src: &Vec<AssetAmount>) -> (r: Vec<AssetAmount>)
    ensures
        r@.map_values(|a: AssetAmount| a@) == src@.map_values(|a: AssetAmount| a@),
{
    let mut r: Vec<AssetAmount> = Vec::new();
    let mut i: usize = 0;
    while i < src.len()
        invariant
            i <= src@.len(),
            r@.len() == i,
            forall|j: int| 0 <= j < i ==> (#[trigger] r@[j])@ == src@[j]@,
        decreases src@.len() - i,
    {
        r.push(src[i].dup());
        i = i + 1;
    }
    proof {
        let rm = r@.map_values(|a: AssetAmount| a@);
        let sm = src@.map_values(|a: AssetAmount| a@);
        assert forall|j: int| #![trigger rm[j]] 0 <= j < src@.len() implies rm[j] == sm[j] by {
            assert(r@[j]@ == src@[j]@);
        }
        assert(rm =~= sm);
    }
    r
}

impl RewardInfo {
    pub fn dup(&self) -> (r: RewardInfo)
        ensures
            r@ == self@,
    {
        RewardInfo {
            native_token: self.native_token,
            index: self.index,
            bond_amount: self.bond_amount,
            pending_reward: self.pending_reward,
            pending_withdraw: dup_asset_amounts(&self.pending_withdraw),
        }
    }
}

/// A queued amount becoming withdrawable at a timestamp, in whole seconds.
#[derive(Clone, Copy, Debug, PartialEq, Eq, Structural)]
pub struct LockInfo {
    pub unlock_time: u64,
    pub amount: u128,
}

/// A per-user unbonding queue holds eight-byte big-endian timestamp keys.
pub open spec fn lock_queue_wf(q: OMap<u128>) -> bool {
    &&& q.wf()
    &&& forall|i: int| 0 <= i < q.key_seq().len() ==> (#[trigger] q.key_seq()[i]).len() == 8
}

pub open spec fn lock_user_wf(m: OMap<OMap<u128>>) -> bool {
    &&& m.wf()
    &&& forall|u: Seq<u8>| #[trigger] m.spec_get(u) matches Some(q) ==> lock_queue_wf(q)
}

/// The whole persistent store, one explicit handle object; every component
/// keeps its records under its own field, so no two key spaces can overlap.
pub struct StakingStore {
    pub config: Option<Config>,
    pub pools: OMap<PoolInfo>,
    pub rewards: OMap<OMap<RewardInfo>>,
    pub stakers: OMap<OMap<bool>>,
    pub rewards_per_sec: OMap<Vec<AssetAmount>>,
    pub unbonding_period: OMap<u64>,
    pub locks: OMap<OMap<OMap<u128>>>,
    pub staked_balances: SnapshotMap,
    pub staked_total: SnapshotMap,
}

impl StakingStore {
    pub open spec fn wf(self) -> bool {
        &&& self.pools.wf()
        &&& self.rewards.wf()
        &&& forall|st: Seq<u8>| #[trigger] self.rewards.spec_get(st) matches Some(m) ==> m.wf()
        &&& self.stakers.wf()
        &&& forall|a: Seq<u8>| #[trigger] self.stakers.spec_get(a) matches Some(m) ==> m.wf()
        &&& self.rewards_per_sec.wf()
        &&& self.unbonding_period.wf()
        &&& self.locks.wf()
        &&& forall|a: Seq<u8>| #[trigger] self.locks.spec_get(a) matches Some(m) ==> lock_user_wf(
            m,
        )
        &&& self.staked_balances.wf()
        &&& self.staked_total.wf()
    }

    /// The configuration, if stored.
    pub open spec fn spec_config(self) -> Option<ConfigV> {
        match self.config {
            Some(c) => Some(c@),
            None => None,
        }
    }

    /// The pool record of an asset.
    pub open spec fn spec_pool(self, asset: Seq<u8>) -> Option<PoolInfoV> {
        match self.pools.spec_get(asset) {
            Some(p) => Some(p@),
            None => None,
        }
    }

    /// The asset keys holding pool records, in ascending byte order.
    pub open spec fn pool_keys(self) -> Seq<Seq<u8>> {
        self.pools.key_seq()
    }

    /// The reward record of a staker for an asset.
    pub open spec fn spec_reward(self, staker: Seq<u8>, asset: Seq<u8>) -> Option<RewardInfoV> {
        match self.rewards.spec_get(staker) {
            Some(m) => match m.spec_get(asset) {
                Some(r) => Some(r@),
                None => None,
            },
            None => None,
        }
    }

    /// The asset keys a staker holds reward records under, ascending.
    pub open spec fn reward_keys(self, staker: Seq<u8>) -> Seq<Seq<u8>> {
        match self.rewards.spec_get(staker) {
            Some(m) => m.key_seq(),
            None => Seq::empty(),
        }
    }

    /// Whether a staker is registered as bonded for an asset.
    pub open spec fn spec_is_staker(self, asset: Seq<u8>, staker: Seq<u8>) -> bool {
        match self.stakers.spec_get(asset) {
            Some(m) => m.spec_get(staker) is Some,
            None => false,
        }
    }

    /// The stakers registered for an asset, in ascending byte order.
    pub open spec fn spec_stakers(self, asset: Seq<u8>) -> Seq<Seq<u8>> {
        match self.stakers.spec_get(asset) {
            Some(m) => m.key_seq(),
            None => Seq::empty(),
        }
    }

    /// The reward rates configured for an asset.
    pub open spec fn spec_rewards_per_sec(self, asset: Seq<u8>) -> Option<Seq<AssetAmountV>> {
        match self.rewards_per_sec.spec_get(asset) {
            Some(v) => Some(v@.map_values(|a: AssetAmount| a@)),
            None => None,
        }
    }

    /// The unbonding period configured for an asset, in seconds.
    pub open spec fn spec_unbonding_period(self, asset: Seq<u8>) -> Option<u64> {
        self.unbonding_period.spec_get(asset)
    }

    /// An empty store.
    pub fn new() -> (r: StakingStore)
        ensures
            r.wf(),
            r.spec_config() is None,
            forall|a: Seq<u8>| r.spec_pool(a) is None,
            r.pool_keys().len() == 0,
            forall|st: Seq<u8>, a: Seq<u8>| r.spec_reward(st, a) is None,
            forall|a: Seq<u8>, st: Seq<u8>| !r.spec_is_staker(a, st),
            forall|a: Seq<u8>| r.spec_stakers(a).len() == 0,
            forall|a: Seq<u8>| r.spec_rewards_per_sec(a) is None,
            forall|a: Seq<u8>| r.spec_unbonding_period(a) is None,
            forall|a: Seq<u8>, u: Seq<u8>| r.lock_entries(a, u).len() == 0,
            r.staked_balances.version == 0,
            r.staked_total.version == 0,
            forall|k: Seq<u8>, v: u64| r.staked_balances.spec_value_at(k, v) == 0,
            forall|k: Seq<u8>, v: u64| r.staked_total.spec_value_at(k, v) == 0,
    {
        StakingStore {
            config: None,
            pools: OMap::new(),
            rewards: OMap::new(),
            stakers: OMap::new(),
            rewards_per_sec: OMap::new(),
            unbonding_period: OMap::new(),
            locks: OMap::new(),
            staked_balances: SnapshotMap::new(),
            staked_total: SnapshotMap::new(),
        }
    }

    /// The queued unbonding entries of a staker for an asset, in ascending
    /// timestamp order.
    pub open spec fn lock_entries(self, asset: Seq<u8>, user: Seq<u8>) -> Seq<LockInfo> {
        match self.locks.spec_get(asset) {
            Some(m) => match m.spec_get(user) {
                Some(q) => entries_of(q),
                None => Seq::empty(),
            },
            None => Seq::empty(),
        }
    }
}

/// The entries a queue holds, in ascending timestamp order, with the
/// timestamps decoded from their big-endian keys.
pub open spec fn entries_of(q: OMap<u128>) -> Seq<LockInfo> {
    Seq::new(
        q.key_seq().len(),
        |i: int|
            LockInfo { unlock_time: be_val(q.key_seq()[i]) as u64, amount: q.val_seq()[i] },
    )
}

/// The amount queued at exactly timestamp `t`, if any.
pub open spec fn entry_amount(es: Seq<LockInfo>, t: u64) -> Option<u128>
    decreases es.len(),
{
    if es.len() == 0 {
        None
    } else if es[0].unlock_time == t {
        Some(es[0].amount)
    } else {
        entry_amount(es.skip(1), t)
    }
}

/// The amount queued at timestamp `t`, zero when none is.
pub open spec fn queued_amount(es: Seq<LockInfo>, t: u64) -> int {
    match entry_amount(es, t) {
        Some(x) => x as int,
        None => 0,
    }
}

/// The sum of the queued amounts.
pub open spec fn amount_sum(es: Seq<LockInfo>) -> int
    decreases es.len(),
{
    if es.len() == 0 {
        0
    } else {
        amount_sum(es.drop_last()) + es.last().amount
    }
}

/// The position of the first entry strictly after `t`.
pub open spec fn cut_gt(es: Seq<LockInfo>, t: u64) -> int
    decreases es.len(),
{
    if es.len() == 0 {
        0
    } else if es[0].unlock_time > t {
        0
    } else {
        1 + cut_gt(es.skip(1), t)
    }
}

/// The position of the first entry at or after `t`.
pub open spec fn cut_ge(es: Seq<LockInfo>, t: u64) -> int
    decreases es.len(),
{
    if es.len() == 0 {
        0
    } else if es[0].unlock_time >= t {
        0
    } else {
        1 + cut_ge(es.skip(1), t)
    }
}

/// The number of entries a listing returns: the default when none is asked
/// for, and never more than the maximum.
pub open spec fn eff_limit(limit: Option<u32>) -> int {
    let l = match limit {
        Some(x) => x,
        None => DEFAULT_LIMIT,
    };
    if l > MAX_LIMIT {
        MAX_LIMIT as int
    } else {
        l as int
    }
}

/// An ascending page: the entries strictly after `sa`, at most `lim` of
/// them, in queue order.
pub open spec fn page_asc(es: Seq<LockInfo>, sa: Option<u64>, lim: int) -> Seq<LockInfo> {
    let c = match sa {
        Some(x) => cut_gt(es, x),
        None => 0,
    };
    let n = if lim < es.len() - c {
        lim
    } else {
        es.len() - c
    };
    es.subrange(c, c + n)
}

/// A descending page: the entries strictly before `sa`, at most `lim` of
/// them, latest first.
pub open spec fn page_desc(es: Seq<LockInfo>, sa: Option<u64>, lim: int) -> Seq<LockInfo> {
    let c = match sa {
        Some(x) => cut_ge(es, x),
        None => es.len() as int,
    };
    let n = if lim < c {
        lim
    } else {
        c
    };
    es.subrange(c - n, c).reverse()
}

/// In a well-formed queue the decoded timestamps ascend strictly.
pub proof fn lemma_times_sorted(q: OMap<u128>)
    requires
        lock_queue_wf(q),
    ensures
        forall|i: int, j: int|
            0 <= i < j < entries_of(q).len() ==> (#[trigger] entries_of(q)[i]).unlock_time < (
            #[trigger] entries_of(q)[j]).unlock_time,
{
    lemma_pow256_values();
    assert forall|i: int, j: int|
        0 <= i < j < entries_of(q).len() implies (#[trigger] entries_of(q)[i]).unlock_time < (
    #[trigger] entries_of(q)[j]).unlock_time by {
        let ki = q.key_seq()[i];
        let kj = q.key_seq()[j];
        assert(lex_lt(ki, kj));
        lemma_be_order(ki, kj);
        lemma_be_val_bound(ki);
        lemma_be_val_bound(kj);
    }
}

proof fn lemma_entry_amount_at(es: Seq<LockInfo>, t: u64, i: int)
    requires
        forall|a: int, b: int|
            0 <= a < b < es.len() ==> (#[trigger] es[a]).unlock_time < (#[trigger] es[b]).unlock_time,
        0 <= i < es.len(),
        es[i].unlock_time == t,
    ensures
        entry_amount(es, t) == Some(es[i].amount),
    decreases i,
{
    if i > 0 {
        assert(es[0].unlock_time < t);
        assert forall|a: int, b: int|
            0 <= a < b < es.skip(1).len() implies (#[trigger] es.skip(1)[a]).unlock_time < (
        #[trigger] es.skip(1)[b]).unlock_time by {
            assert(es.skip(1)[a] == es[a + 1] && es.skip(1)[b] == es[b + 1]);
        }
        assert(es.skip(1)[i - 1] == es[i]);
        lemma_entry_amount_at(es.skip(1), t, i - 1);
    }
}

proof fn lemma_entry_amount_absent(es: Seq<LockInfo>, t: u64)
    requires
        forall|i: int| 0 <= i < es.len() ==> (#[trigger] es[i]).unlock_time != t,
    ensures
        entry_amount(es, t) is None,
    decreases es.len(),
{
    if es.len() > 0 {
        assert forall|i: int| 0 <= i < es.skip(1).len() implies (#[trigger] es.skip(
            1,
        )[i]).unlock_time != t by {
            assert(es.skip(1)[i] == es[i + 1]);
        }
        lemma_entry_amount_absent(es.skip(1), t);
    }
}

proof fn lemma_entry_amount_witness(es: Seq<LockInfo>, t: u64)
    requires
        entry_amount(es, t) is Some,
    ensures
        exists|i: int|
            0 <= i < es.len() && (#[trigger] es[i]).unlock_time == t && entry_amount(es, t)
                == Some(es[i].amount),
    decreases es.len(),
{
    if es.len() > 0 {
        if es[0].unlock_time == t {
            assert(es[0].unlock_time == t && entry_amount(es, t) == Some(es[0].amount));
        } else {
            lemma_entry_amount_witness(es.skip(1), t);
            let j = choose|i: int|
                0 <= i < es.skip(1).len() && (#[trigger] es.skip(1)[i]).unlock_time == t
                    && entry_amount(es.skip(1), t) == Some(es.skip(1)[i].amount);
            assert(es[j + 1] == es.skip(1)[j]);
            assert(es[j + 1].unlock_time == t && entry_amount(es, t) == Some(es[j + 1].amount));
        }
    }
}

/// Looking an exact timestamp up in the decoded entries agrees with looking
/// its encoded key up in the queue.
pub proof fn lemma_queue_lookup(q: OMap<u128>, t: u64, tk: Seq<u8>)
    requires
        lock_queue_wf(q),
        tk.len() == 8,
        be_val(tk) == t,
    ensures
        entry_amount(entries_of(q), t) == q.spec_get(tk),
{
    lemma_times_sorted(q);
    lemma_pow256_values();
    let es = entries_of(q);
    if q.spec_get(tk) is Some {
        q.lemma_contains_index(tk);
        let i = choose|i: int| 0 <= i < q.key_seq().len() && q.key_seq()[i] == tk;
        q.lemma_get_at(i);
        lemma_be_val_bound(tk);
        assert(es[i].unlock_time == t);
        lemma_entry_amount_at(es, t, i);
    } else {
        assert forall|i: int| 0 <= i < es.len() implies (#[trigger] es[i]).unlock_time != t by {
            let k = q.key_seq()[i];
            lemma_be_val_bound(k);
            if es[i].unlock_time == t {
                lemma_be_val_injective(k, tk);
                q.lemma_get_at(i);
            }
        }
        lemma_entry_amount_absent(es, t);
    }
}

/// Two queues that agree everywhere but at one encoded key hold the same
/// amount at every other timestamp.
pub proof fn lemma_entry_frame(q0: OMap<u128>, q1: OMap<u128>, tk: Seq<u8>)
    requires
        lock_queue_wf(q0),
        lock_queue_wf(q1),
        tk.len() == 8,
        forall|k2: Seq<u8>| k2 != tk ==> q1.spec_get(k2) == q0.spec_get(k2),
    ensures
        forall|t2: u64|
            t2 != be_val(tk) ==> entry_amount(entries_of(q1), t2) == entry_amount(
                entries_of(q0),
                t2,
            ),
{
    lemma_pow256_values();
    let e0 = entries_of(q0);
    let e1 = entries_of(q1);
    assert forall|t2: u64| t2 != be_val(tk) implies entry_amount(e1, t2) == entry_amount(
        e0,
        t2,
    ) by {
        if entry_amount(e1, t2) is Some {
            lemma_entry_amount_witness(e1, t2);
            let i = choose|i: int|
                0 <= i < e1.len() && (#[trigger] e1[i]).unlock_time == t2 && entry_amount(e1, t2)
                    == Some(e1[i].amount);
            let k = q1.key_seq()[i];
            lemma_be_val_bound(k);
            q1.lemma_get_at(i);
            assert(k != tk);
            lemma_queue_lookup(q0, t2, k);
            lemma_queue_lookup(q1, t2, k);
        } else {
            if entry_amount(e0, t2) is Some {
                lemma_entry_amount_witness(e0, t2);
                let i = choose|i: int|
                    0 <= i < e0.len() && (#[trigger] e0[i]).unlock_time == t2 && entry_amount(
                        e0,
                        t2,
                    ) == Some(e0[i].amount);
                let k = q0.key_seq()[i];
                lemma_be_val_bound(k);
                q0.lemma_get_at(i);
                assert(k != tk);
                lemma_queue_lookup(q0, t2, k);
                lemma_queue_lookup(q1, t2, k);
            }
        }
    }
}

/// Queues `lock_info.amount` for withdrawal at `lock_info.unlock_time`. An
/// amount already queued at that exact second is combined by summing, never
/// overwritten; a sum past the largest representable value is rejected and
/// changes nothing.
pub fn insert_lock_info(
    store: &mut StakingStore,
    asset_key: &[u8],
    user: &[u8],
    lock_info: LockInfo,
) -> (r: Result<(), StoreError>)
    requires
        old(store).wf(),
    ensures
        final(store).wf(),
        r is Ok <==> queued_amount(old(store).lock_entries(asset_key@, user@), lock_info.unlock_time)
            + lock_info.amount <= u128::MAX,
        r is Err ==> *final(store) == *old(store) && r == Err::<(), StoreError>(
            StoreError::ArithmeticOverflow,
        ),
        r is Ok ==> entry_amount(
            final(store).lock_entries(asset_key@, user@),
            lock_info.unlock_time,
        ) == Some(
            (queued_amount(old(store).lock_entries(asset_key@, user@), lock_info.unlock_time)
                + lock_info.amount) as u128,
        ),
        r is Ok ==> forall|t2: u64|
            t2 != lock_info.unlock_time ==> entry_amount(
                final(store).lock_entries(asset_key@, user@),
                t2,
            ) == entry_amount(old(store).lock_entries(asset_key@, user@), t2),
        r is Ok ==> final(store).lock_entries(asset_key@, user@).len() == old(store).lock_entries(
            asset_key@,
            user@,
        ).len() + (if entry_amount(
            old(store).lock_entries(asset_key@, user@),
            lock_info.unlock_time,
        ) is Some {
            0int
        } else {
            1int
        }),
        forall|a2: Seq<u8>, u2: Seq<u8>|
            !(a2 == asset_key@ && u2 == user@) ==> final(store).lock_entries(a2, u2) == old(
                store,
            ).lock_entries(a2, u2),
        final(store).config == old(store).config,
        final(store).pools == old(store).pools,
        final(store).rewards == old(store).rewards,
        final(store).stakers == old(store).stakers,
        final(store).rewards_per_sec == old(store).rewards_per_sec,
        final(store).unbonding_period == old(store).unbonding_period,
        final(store).staked_balances == old(store).staked_balances,
        final(store).staked_total == old(store).staked_total,
{
    let ghost s0 = *store;
    let akey = bytes_of(asset_key);
    let ukey = bytes_of(user);
    let tkey = be_encode(lock_info.unlock_time);
    let mut existing: u128 = 0;
    match store.locks.get(&akey) {
        Some(m) => {
            match m.get(&ukey) {
                Some(q) => {
                    match q.get(&tkey) {
                        Some(amt) => {
                            existing = *amt;
                            proof {
                                lemma_queue_lookup(
                                    (s0.locks.spec_get(akey@))->Some_0.spec_get(ukey@)->Some_0,
                                    lock_info.unlock_time,
                                    tkey@,
                                );
                            }
                        },
                        None => {
                            proof {
                                lemma_queue_lookup(
                                    (s0.locks.spec_get(akey@))->Some_0.spec_get(ukey@)->Some_0,
                                    lock_info.unlock_time,
                                    tkey@,
                                );
                            }
                        },
                    }
                },
                None => {},
            }
        },
        None => {},
    }
    proof {
        assert(existing == queued_amount(
            s0.lock_entries(asset_key@, user@),
            lock_info.unlock_time,
        ));
    }
    if lock_info.amount > u128::MAX - existing {
        return Err(StoreError::ArithmeticOverflow);
    }
    let total = existing + lock_info.amount;
    let mut by_user = match store.locks.remove(&akey) {
        Some(m) => m,
        None => OMap::new(),
    };
    let ghost bu0 = by_user;
    let mut q = match by_user.remove(&ukey) {
        Some(m) => m,
        None => OMap::new(),
    };
    let ghost q0 = q;
    proof {
        assert(s0.locks.spec_get(akey@) matches Some(m) ==> lock_user_wf(m));
        assert(lock_queue_wf(q0));
        assert(entries_of(q0) =~= s0.lock_entries(asset_key@, user@));
    }
    q.insert(tkey, total);
    let ghost q1 = q;
    proof {
        assert(lock_queue_wf(q1)) by {
            assert forall|i: int| 0 <= i < q1.key_seq().len() implies (#[trigger] q1.key_seq()[i]).len()
                == 8 by {
                q1.lemma_get_at(i);
                q1.lemma_contains_iff(q1.key_seq()[i]);
                q0.lemma_contains_iff(q1.key_seq()[i]);
                if q1.key_seq()[i] != tkey@ {
                    let k2 = q1.key_seq()[i];
                    q0.lemma_contains_index(k2);
                }
            }
        }
        lemma_queue_lookup(q1, lock_info.unlock_time, tkey@);
        lemma_entry_frame(q0, q1, tkey@);
        lemma_queue_lookup(q0, lock_info.unlock_time, tkey@);
        q0.lemma_contains_iff(tkey@);
        q1.lemma_contains_iff(tkey@);
    }
    by_user.insert(ukey, q);
    let ghost bu1 = by_user;
    store.locks.insert(akey, by_user);
    proof {
        assert(lock_user_wf(bu1)) by {
            assert forall|u2: Seq<u8>| (#[trigger] bu1.spec_get(u2)) is Some implies lock_queue_wf(
                (bu1.spec_get(u2))->Some_0,
            ) by {
                if u2 != ukey@ {
                    assert(bu1.spec_get(u2) == bu0.spec_get(u2));
                }
            }
        }
        assert forall|a2: Seq<u8>| (#[trigger] store.locks.spec_get(a2)) is Some implies lock_user_wf(
            (store.locks.spec_get(a2))->Some_0,
        ) by {
            if a2 != akey@ {
                assert(store.locks.spec_get(a2) == s0.locks.spec_get(a2));
            }
        }
        assert(store.wf());
        assert(store.lock_entries(asset_key@, user@) == entries_of(q1));
        assert forall|a2: Seq<u8>, u2: Seq<u8>|
            !(a2 == asset_key@ && u2 == user@) implies store.lock_entries(a2, u2)
            == s0.lock_entries(a2, u2) by {
            if a2 != akey@ {
                assert(store.locks.spec_get(a2) == s0.locks.spec_get(a2));
            } else {
                assert(bu1.spec_get(u2) == bu0.spec_get(u2));
                match s0.locks.spec_get(akey@) {
                    Some(m) => {},
                    None => {
                        assert(bu0.spec_get(u2) is None);
                    },
                }
            }
        }
    }
    Ok(())
}


/// Stores the configuration.
pub fn store_config(store: &mut StakingStore, config: &Config)
    requires
        old(store).wf(),
    ensures
        final(store).wf(),
        final(store).spec_config() == Some(config@),
        final(store).pools == old(store).pools,
        final(store).rewards == old(store).rewards,
        final(store).stakers == old(store).stakers,
        final(store).rewards_per_sec == old(store).rewards_per_sec,
        final(store).unbonding_period == old(store).unbonding_period,
        final(store).locks == old(store).locks,
        final(store).staked_balances == old(store).staked_balances,
        final(store).staked_total == old(store).staked_total,
{
    store.config = Some(config.dup());
}

/// Reads the configuration; `NotFound` before it was ever stored.
pub fn read_config(store: &StakingStore) -> (r: Result<Config, StoreError>)
    ensures
        match store.spec_config() {
            Some(c) => r is Ok && r->Ok_0@ == c,
            None => r == Err::<Config, StoreError>(StoreError::NotFound),
        },
{
    match &store.config {
        Some(c) => Ok(c.dup()),
        None => Err(StoreError::NotFound),
    }
}

/// Stores the pool record of an asset, replacing any previous one.
pub fn store_pool_info(store: &mut StakingStore, asset_key: &[u8], pool_info: &PoolInfo)
    requires
        old(store).wf(),
    ensures
        final(store).wf(),
        final(store).spec_pool(asset_key@) == Some(pool_info@),
        forall|a2: Seq<u8>| a2 != asset_key@ ==> final(store).spec_pool(a2) == old(
            store,
        ).spec_pool(a2),
        forall|a2: Seq<u8>|
            final(store).pool_keys().contains(a2) == (old(store).pool_keys().contains(a2) || a2
                == asset_key@),
        final(store).config == old(store).config,
        final(store).rewards == old(store).rewards,
        final(store).stakers == old(store).stakers,
        final(store).rewards_per_sec == old(store).rewards_per_sec,
        final(store).unbonding_period == old(store).unbonding_period,
        final(store).locks == old(store).locks,
        final(store).staked_balances == old(store).staked_balances,
        final(store).staked_total == old(store).staked_total,
{
    let ghost s0 = *store;
    let k = bytes_of(asset_key);
    store.pools.insert(k, pool_info.dup());
    proof {
        assert forall|a2: Seq<u8>|
            final(store).pool_keys().contains(a2) == (s0.pool_keys().contains(a2) || a2
                == asset_key@) by {
            store.pools.lemma_contains_iff(a2);
            s0.pools.lemma_contains_iff(a2);
        }
    }
}

/// Reads the pool record of an asset; `NotFound` when the asset was never
/// initialized.
pub fn read_pool_info(store: &StakingStore, asset_key: &[u8]) -> (r: Result<PoolInfo, StoreError>)
    requires
        store.wf(),
    ensures
        match store.spec_pool(asset_key@) {
            Some(p) => r is Ok && r->Ok_0@ == p,
            None => r == Err::<PoolInfo, StoreError>(StoreError::NotFound),
        },
{
    let k = bytes_of(asset_key);
    match store.pools.get(&k) {
        Some(p) => Ok(p.dup()),
        None => Err(StoreError::NotFound),
    }
}

/// Lists every pool record, as `(asset key, record)` pairs in ascending key
/// order.
pub fn read_all_pool_infos(store: &StakingStore) -> (r: Vec<(Vec<u8>, PoolInfo)>)
    requires
        store.wf(),
    ensures
        r@.len() == store.pool_keys().len(),
        forall|i: int|
            0 <= i < r@.len() ==> (#[trigger] r@[i]).0@ == store.pool_keys()[i] && store.spec_pool(
                r@[i].0@,
            ) == Some(r@[i].1@),
        forall|i: int, j: int| 0 <= i < j < r@.len() ==> lex_lt(r@[i].0@, r@[j].0@),
{
    let mut r: Vec<(Vec<u8>, PoolInfo)> = Vec::new();
    let n = store.pools.len();
    let mut i: usize = 0;
    while i < n
        invariant
            store.wf(),
            n == store.pool_keys().len(),
            i <= n,
            r@.len() == i,
            forall|j: int|
                0 <= j < i ==> (#[trigger] r@[j]).0@ == store.pool_keys()[j] && store.spec_pool(
                    r@[j].0@,
                ) == Some(r@[j].1@),
        decreases n - i,
    {
        let key = copy_bytes(store.pools.key_at(i));
        let val = store.pools.val_at(i).dup();
        r.push((key, val));
        i = i + 1;
    }
    r
}

/// Stores the reward record of `(staker, asset_key)`, replacing any previous
/// one.
pub fn rewards_store(store: &mut StakingStore, staker: &[u8], asset_key: &[u8], info: &RewardInfo)
    requires
        old(store).wf(),
    ensures
        final(store).wf(),
        final(store).spec_reward(staker@, asset_key@) == Some(info@),
        forall|st2: Seq<u8>, a2: Seq<u8>|
            !(st2 == staker@ && a2 == asset_key@) ==> final(store).spec_reward(st2, a2) == old(
                store,
            ).spec_reward(st2, a2),
        forall|st2: Seq<u8>|
            st2 != staker@ ==> final(store).rewards.spec_get(st2) == old(store).rewards.spec_get(
                st2,
            ),
        forall|a2: Seq<u8>|
            final(store).reward_keys(staker@).contains(a2) == (old(store).reward_keys(
                staker@,
            ).contains(a2) || a2 == asset_key@),
        final(store).config == old(store).config,
        final(store).pools == old(store).pools,
        final(store).stakers == old(store).stakers,
        final(store).rewards_per_sec == old(store).rewards_per_sec,
        final(store).unbonding_period == old(store).unbonding_period,
        final(store).locks == old(store).locks,
        final(store).staked_balances == old(store).staked_balances,
        final(store).staked_total == old(store).staked_total,
{
    let ghost s0 = *store;
    let skey = bytes_of(staker);
    let akey = bytes_of(asset_key);
    let mut inner = match store.rewards.remove(&skey) {
        Some(m) => m,
        None => OMap::new(),
    };
    let ghost ib = inner;
    inner.insert(akey, info.dup());
    let ghost ig = inner;
    store.rewards.insert(skey, inner);
    proof {
        assert(s0.rewards.spec_get(staker@) matches Some(m) ==> m.wf());
        assert forall|a2: Seq<u8>|
            final(store).reward_keys(staker@).contains(a2) == (s0.reward_keys(staker@).contains(
                a2,
            ) || a2 == asset_key@) by {
            ig.lemma_contains_iff(a2);
            match s0.rewards.spec_get(staker@) {
                Some(m) => {
                    m.lemma_contains_iff(a2);
                },
                None => {},
            }
        }
        assert forall|st2: Seq<u8>| (#[trigger] store.rewards.spec_get(st2)) is Some implies (
        store.rewards.spec_get(st2))->Some_0.wf() by {
            if st2 != staker@ {
                assert(store.rewards.spec_get(st2) == s0.rewards.spec_get(st2));
            }
        }
        assert(store.wf());
    }
}

/// Reads the reward record of `(staker, asset_key)`; `NotFound` when none is
/// stored.
pub fn rewards_read(store: &StakingStore, staker: &[u8], asset_key: &[u8]) -> (r: Result<
    RewardInfo,
    StoreError,
>)
    requires
        store.wf(),
    ensures
        match store.spec_reward(staker@, asset_key@) {
            Some(info) => r is Ok && r->Ok_0@ == info,
            None => r == Err::<RewardInfo, StoreError>(StoreError::NotFound),
        },
{
    let skey = bytes_of(staker);
    match store.rewards.get(&skey) {
        Some(inner) => {
            let akey = bytes_of(asset_key);
            match inner.get(&akey) {
                Some(info) => Ok(info.dup()),
                None => Err(StoreError::NotFound),
            }
        },
        None => Err(StoreError::NotFound),
    }
}

/// Lists every reward record of a staker, as `(asset key, record)` pairs in
/// ascending key order; empty when the staker holds none.
pub fn rewards_list(store: &StakingStore, staker: &[u8]) -> (r: Vec<(Vec<u8>, RewardInfo)>)
    requires
        store.wf(),
    ensures
        r@.len() == store.reward_keys(staker@).len(),
        forall|i: int|
            0 <= i < r@.len() ==> (#[trigger] r@[i]).0@ == store.reward_keys(staker@)[i]
                && store.spec_reward(staker@, r@[i].0@) == Some(r@[i].1@),
        forall|i: int, j: int| 0 <= i < j < r@.len() ==> lex_lt(r@[i].0@, r@[j].0@),
{
    let mut r: Vec<(Vec<u8>, RewardInfo)> = Vec::new();
    let skey = bytes_of(staker);
    match store.rewards.get(&skey) {
        None => r,
        Some(inner) => {
            let n = inner.len();
            let mut i: usize = 0;
            while i < n
                invariant
                    store.wf(),
                    inner.wf(),
                    store.rewards.spec_get(skey@) == Some(*inner),
                    skey@ == staker@,
                    n == inner.key_seq().len(),
                    i <= n,
                    r@.len() == i,
                    forall|j: int|
                        0 <= j < i ==> (#[trigger] r@[j]).0@ == store.reward_keys(staker@)[j]
                            && store.spec_reward(staker@, r@[j].0@) == Some(r@[j].1@),
                decreases n - i,
            {
                let key = copy_bytes(inner.key_at(i));
                let val = inner.val_at(i).dup();
                r.push((key, val));
                i = i + 1;
            }
            r
        },
    }
}

/// Registers a staker as bonded for an asset; idempotent.
pub fn stakers_store(store: &mut StakingStore, asset_key: &[u8], staker: &[u8])
    requires
        old(store).wf(),
    ensures
        final(store).wf(),
        final(store).spec_is_staker(asset_key@, staker@),
        forall|a2: Seq<u8>, st2: Seq<u8>|
            !(a2 == asset_key@ && st2 == staker@) ==> final(store).spec_is_staker(a2, st2) == old(
                store,
            ).spec_is_staker(a2, st2),
        forall|a2: Seq<u8>|
            a2 != asset_key@ ==> final(store).stakers.spec_get(a2) == old(store).stakers.spec_get(
                a2,
            ),
        forall|st2: Seq<u8>|
            final(store).spec_stakers(asset_key@).contains(st2) == (old(store).spec_stakers(
                asset_key@,
            ).contains(st2) || st2 == staker@),
        final(store).config == old(store).config,
        final(store).pools == old(store).pools,
        final(store).rewards == old(store).rewards,
        final(store).rewards_per_sec == old(store).rewards_per_sec,
        final(store).unbonding_period == old(store).unbonding_period,
        final(store).locks == old(store).locks,
        final(store).staked_balances == old(store).staked_balances,
        final(store).staked_total == old(store).staked_total,
{
    let ghost s0 = *store;
    let akey = bytes_of(asset_key);
    let skey = bytes_of(staker);
    let mut inner = match store.stakers.remove(&akey) {
        Some(m) => m,
        None => OMap::new(),
    };
    inner.insert(skey, true);
    let ghost ig = inner;
    store.stakers.insert(akey, inner);
    proof {
        assert(s0.stakers.spec_get(asset_key@) matches Some(m) ==> m.wf());
        assert forall|st2: Seq<u8>|
            final(store).spec_stakers(asset_key@).contains(st2) == (s0.spec_stakers(
                asset_key@,
            ).contains(st2) || st2 == staker@) by {
            ig.lemma_contains_iff(st2);
            match s0.stakers.spec_get(asset_key@) {
                Some(m) => {
                    m.lemma_contains_iff(st2);
                },
                None => {},
            }
        }
        assert forall|a2: Seq<u8>| (#[trigger] store.stakers.spec_get(a2)) is Some implies (
        store.stakers.spec_get(a2))->Some_0.wf() by {
            if a2 != asset_key@ {
                assert(store.stakers.spec_get(a2) == s0.stakers.spec_get(a2));
            }
        }
        assert(store.wf());
    }
}

/// Unregisters a staker for an asset; removing an absent staker changes
/// nothing and is not an error.
pub fn stakers_remove(store: &mut StakingStore, asset_key: &[u8], staker: &[u8])
    requires
        old(store).wf(),
    ensures
        final(store).wf(),
        !final(store).spec_is_staker(asset_key@, staker@),
        forall|a2: Seq<u8>, st2: Seq<u8>|
            !(a2 == asset_key@ && st2 == staker@) ==> final(store).spec_is_staker(a2, st2) == old(
                store,
            ).spec_is_staker(a2, st2),
        forall|a2: Seq<u8>|
            a2 != asset_key@ ==> final(store).stakers.spec_get(a2) == old(store).stakers.spec_get(
                a2,
            ),
        forall|st2: Seq<u8>|
            final(store).spec_stakers(asset_key@).contains(st2) == (old(store).spec_stakers(
                asset_key@,
            ).contains(st2) && st2 != staker@),
        !old(store).spec_is_staker(asset_key@, staker@) ==> final(store).spec_stakers(asset_key@)
            == old(store).spec_stakers(asset_key@),
        final(store).config == old(store).config,
        final(store).pools == old(store).pools,
        final(store).rewards == old(store).rewards,
        final(store).rewards_per_sec == old(store).rewards_per_sec,
        final(store).unbonding_period == old(store).unbonding_period,
        final(store).locks == old(store).locks,
        final(store).staked_balances == old(store).staked_balances,
        final(store).staked_total == old(store).staked_total,
{
    let ghost s0 = *store;
    let akey = bytes_of(asset_key);
    let skey = bytes_of(staker);
    match store.stakers.remove(&akey) {
        Some(m) => {
            let mut inner = m;
            let ghost i0 = inner;
            inner.remove(&skey);
            proof {
                if !i0.contains_key(staker@) {
                    assert(inner.key_seq() == i0.key_seq());
                }
            }
            let ghost ig = inner;
            store.stakers.insert(akey, inner);
            proof {
                assert(s0.stakers.spec_get(asset_key@) matches Some(m2) ==> m2.wf());
                assert forall|st2: Seq<u8>|
                    final(store).spec_stakers(asset_key@).contains(st2) == (s0.spec_stakers(
                        asset_key@,
                    ).contains(st2) && st2 != staker@) by {
                    ig.lemma_contains_iff(st2);
                    i0.lemma_contains_iff(st2);
                }
                assert forall|a2: Seq<u8>| (#[trigger] store.stakers.spec_get(a2)) is Some implies (
                store.stakers.spec_get(a2))->Some_0.wf() by {
                    if a2 != asset_key@ {
                        assert(store.stakers.spec_get(a2) == s0.stakers.spec_get(a2));
                    }
                }
                assert(store.wf());
            }
        },
        None => {
            proof {
                assert(store.stakers.spec_get(asset_key@) is None);
            }
        },
    }
}

/// Whether a staker is registered for an asset.
pub fn stakers_contains(store: &StakingStore, asset_key: &[u8], staker: &[u8]) -> (r: bool)
    requires
        store.wf(),
    ensures
        r == store.spec_is_staker(asset_key@, staker@),
{
    let akey = bytes_of(asset_key);
    match store.stakers.get(&akey) {
        Some(inner) => {
            let skey = bytes_of(staker);
            match inner.get(&skey) {
                Some(_) => true,
                None => false,
            }
        },
        None => false,
    }
}

/// Lists the stakers registered for an asset, in ascending byte order.
pub fn stakers_read(store: &StakingStore, asset_key: &[u8]) -> (r: Vec<Vec<u8>>)
    requires
        store.wf(),
    ensures
        r@.len() == store.spec_stakers(asset_key@).len(),
        forall|i: int|
            0 <= i < r@.len() ==> (#[trigger] r@[i])@ == store.spec_stakers(asset_key@)[i],
        forall|i: int, j: int| 0 <= i < j < r@.len() ==> lex_lt(r@[i]@, r@[j]@),
{
    let mut r: Vec<Vec<u8>> = Vec::new();
    let akey = bytes_of(asset_key);
    match store.stakers.get(&akey) {
        None => r,
        Some(inner) => {
            let n = inner.len();
            let mut i: usize = 0;
            while i < n
                invariant
                    store.wf(),
                    inner.wf(),
                    store.stakers.spec_get(akey@) == Some(*inner),
                    akey@ == asset_key@,
                    n == inner.key_seq().len(),
                    i <= n,
                    r@.len() == i,
                    forall|j: int|
                        0 <= j < i ==> (#[trigger] r@[j])@ == store.spec_stakers(asset_key@)[j],
                decreases n - i,
            {
                let key = copy_bytes(inner.key_at(i));
                r.push(key);
                i = i + 1;
            }
            r
        },
    }
}

/// Stores the reward rates of an asset, replacing any previous list.
pub fn store_rewards_per_sec(store: &mut StakingStore, asset_key: &[u8], assets: Vec<AssetAmount>)
    requires
        old(store).wf(),
    ensures
        final(store).wf(),
        final(store).spec_rewards_per_sec(asset_key@) == Some(
            assets@.map_values(|a: AssetAmount| a@),
        ),
        forall|a2: Seq<u8>|
            a2 != asset_key@ ==> final(store).spec_rewards_per_sec(a2) == old(
                store,
            ).spec_rewards_per_sec(a2),
        final(store).config == old(store).config,
        final(store).pools == old(store).pools,
        final(store).rewards == old(store).rewards,
        final(store).stakers == old(store).stakers,
        final(store).unbonding_period == old(store).unbonding_period,
        final(store).locks == old(store).locks,
        final(store).staked_balances == old(store).staked_balances,
        final(store).staked_total == old(store).staked_total,
{
    let k = bytes_of(asset_key);
    store.rewards_per_sec.insert(k, assets);
}

/// Reads the reward rates of an asset; `NotFound` means unconfigured, not
/// zero.
pub fn read_rewards_per_sec(store: &StakingStore, asset_key: &[u8]) -> (r: Result<
    Vec<AssetAmount>,
    StoreError,
>)
    requires
        store.wf(),
    ensures
        match store.spec_rewards_per_sec(asset_key@) {
            Some(v) => r is Ok && r->Ok_0@.map_values(|a: AssetAmount| a@) == v,
            None => r == Err::<Vec<AssetAmount>, StoreError>(StoreError::NotFound),
        },
{
    let k = bytes_of(asset_key);
    match store.rewards_per_sec.get(&k) {
        Some(v) => Ok(dup_asset_amounts(v)),
        None => Err(StoreError::NotFound),
    }
}

/// Stores the unbonding period of an asset, in seconds.
pub fn store_unbonding_period(store: &mut StakingStore, asset_key: &[u8], period: u64)
    requires
        old(store).wf(),
    ensures
        final(store).wf(),
        final(store).spec_unbonding_period(asset_key@) == Some(period),
        forall|a2: Seq<u8>|
            a2 != asset_key@ ==> final(store).spec_unbonding_period(a2) == old(
                store,
            ).spec_unbonding_period(a2),
        final(store).config == old(store).config,
        final(store).pools == old(store).pools,
        final(store).rewards == old(store).rewards,
        final(store).stakers == old(store).stakers,
        final(store).rewards_per_sec == old(store).rewards_per_sec,
        final(store).locks == old(store).locks,
        final(store).staked_balances == old(store).staked_balances,
        final(store).staked_total == old(store).staked_total,
{
    let k = bytes_of(asset_key);
    store.unbonding_period.insert(k, period);
}

/// Reads the unbonding period of an asset; `NotFound` means unconfigured.
pub fn read_unbonding_period(store: &StakingStore, asset_key: &[u8]) -> (r: Result<
    u64,
    StoreError,
>)
    requires
        store.wf(),
    ensures
        match store.spec_unbonding_period(asset_key@) {
            Some(p) => r == Ok::<u64, StoreError>(p),
            None => r == Err::<u64, StoreError>(StoreError::NotFound),
        },
{
    let k = bytes_of(asset_key);
    match store.unbonding_period.get(&k) {
        Some(p) => Ok(*p),
        None => Err(StoreError::NotFound),
    }
}


pub proof fn lemma_cut_gt_char(es: Seq<LockInfo>, t: u64)
    ensures
        0 <= cut_gt(es, t) <= es.len(),
        forall|i: int| 0 <= i < cut_gt(es, t) ==> (#[trigger] es[i]).unlock_time <= t,
        cut_gt(es, t) < es.len() ==> es[cut_gt(es, t)].unlock_time > t,
    decreases es.len(),
{
    if es.len() > 0 && es[0].unlock_time <= t {
        lemma_cut_gt_char(es.skip(1), t);
        let c = cut_gt(es, t);
        assert forall|i: int| 0 <= i < c implies (#[trigger] es[i]).unlock_time <= t by {
            if i > 0 {
                assert(es.skip(1)[i - 1] == es[i]);
            }
        }
        if c < es.len() {
            assert(es.skip(1)[c - 1] == es[c]);
        }
    }
}

pub proof fn lemma_cut_ge_char(es: Seq<LockInfo>, t: u64)
    ensures
        0 <= cut_ge(es, t) <= es.len(),
        forall|i: int| 0 <= i < cut_ge(es, t) ==> (#[trigger] es[i]).unlock_time < t,
        cut_ge(es, t) < es.len() ==> es[cut_ge(es, t)].unlock_time >= t,
    decreases es.len(),
{
    if es.len() > 0 && es[0].unlock_time < t {
        lemma_cut_ge_char(es.skip(1), t);
        let c = cut_ge(es, t);
        assert forall|i: int| 0 <= i < c implies (#[trigger] es[i]).unlock_time < t by {
            if i > 0 {
                assert(es.skip(1)[i - 1] == es[i]);
            }
        }
        if c < es.len() {
            assert(es.skip(1)[c - 1] == es[c]);
        }
    }
}

proof fn lemma_amount_sum_step(es: Seq<LockInfo>, i: int)
    requires
        0 <= i < es.len(),
    ensures
        amount_sum(es.take(i + 1)) == amount_sum(es.take(i)) + es[i].amount,
{
    assert(es.take(i + 1).drop_last() =~= es.take(i));
    assert(es.take(i + 1).last() == es[i]);
}

proof fn lemma_amount_sum_mono(es: Seq<LockInfo>, i: int, j: int)
    requires
        0 <= i <= j <= es.len(),
    ensures
        amount_sum(es.take(i)) <= amount_sum(es.take(j)),
    decreases j - i,
{
    if i < j {
        lemma_amount_sum_mono(es, i, j - 1);
        lemma_amount_sum_step(es, j - 1);
    }
}

/// Removing the front entry of a queue shifts the decoded entries down by
/// one.
proof fn lemma_entries_pop(q0: OMap<u128>, q1: OMap<u128>)
    requires
        q0.wf(),
        q1.wf(),
        q0.key_seq().len() > 0,
        q1.key_seq() == q0.key_seq().remove(0),
        forall|k2: Seq<u8>| k2 != q0.key_seq()[0] ==> q1.spec_get(k2) == q0.spec_get(k2),
    ensures
        entries_of(q1) == entries_of(q0).skip(1),
{
    assert forall|i: int| 0 <= i < entries_of(q1).len() implies entries_of(q1)[i] == entries_of(
        q0,
    ).skip(1)[i] by {
        assert(q1.key_seq()[i] == q0.key_seq()[i + 1]);
        if q0.key_seq()[i + 1] == q0.key_seq()[0] {
            q0.lemma_keys_distinct(i + 1, 0);
        }
        q1.lemma_get_at(i);
        q0.lemma_get_at(i + 1);
        assert(entries_of(q0).skip(1)[i] == entries_of(q0)[i + 1]);
    }
    assert(entries_of(q1) =~= entries_of(q0).skip(1));
}

/// Lists a staker's lock entries for an asset: ascending (order code 1, the
/// default) or descending (code 2), at most `eff_limit(limit)` of them,
/// starting strictly after (ascending) or strictly before (descending) the
/// `start_after` timestamp; any other order code is a malformed request.
pub fn read_user_lock_info(
    store: &StakingStore,
    asset_key: &[u8],
    user: &[u8],
    start_after: Option<u64>,
    limit: Option<u32>,
    order: Option<i32>,
) -> (r: Result<Vec<LockInfo>, StoreError>)
    requires
        store.wf(),
    ensures
        !(order is None || order == Some(1i32) || order == Some(2i32)) ==> r == Err::<
            Vec<LockInfo>,
            StoreError,
        >(StoreError::Malformed),
        (order is None || order == Some(1i32)) ==> r is Ok && r->Ok_0@ == page_asc(
            store.lock_entries(asset_key@, user@),
            start_after,
            eff_limit(limit),
        ),
        order == Some(2i32) ==> r is Ok && r->Ok_0@ == page_desc(
            store.lock_entries(asset_key@, user@),
            start_after,
            eff_limit(limit),
        ),
{
    let asc: bool = match order {
        None => true,
        Some(o) => {
            if o == 1 {
                true
            } else if o == 2 {
                false
            } else {
                return Err(StoreError::Malformed);
            }
        },
    };
    let lim_u32: u32 = match limit {
        Some(l) => if l > MAX_LIMIT {
            MAX_LIMIT
        } else {
            l
        },
        None => DEFAULT_LIMIT,
    };
    let lim: usize = lim_u32 as usize;
    proof {
        assert(lim == eff_limit(limit));
    }
    let akey = bytes_of(asset_key);
    let ukey = bytes_of(user);
    let ghost es = store.lock_entries(asset_key@, user@);
    let mut out: Vec<LockInfo> = Vec::new();
    let qopt = match store.locks.get(&akey) {
        Some(m) => m.get(&ukey),
        None => None,
    };
    match qopt {
        None => {
            proof {
                assert(es =~= Seq::<LockInfo>::empty());
                if asc {
                    assert(out@ =~= page_asc(es, start_after, lim as int));
                } else {
                    assert(out@ =~= page_desc(es, start_after, lim as int));
                }
            }
            Ok(out)
        },
        Some(q) => {
            proof {
                assert(lock_queue_wf(*q));
                assert(es == entries_of(*q));
                lemma_times_sorted(*q);
                lemma_pow256_values();
            }
            let n = q.len();
            if asc {
                let mut c: usize = 0;
                match start_after {
                    Some(sa) => {
                        proof {
                            lemma_cut_gt_char(es, sa);
                        }
                        let mut stop = false;
                        while c < n && !stop
                            invariant
                                store.wf(),
                                lock_queue_wf(*q),
                                es == entries_of(*q),
                                n == es.len(),
                                c <= n,
                                forall|j: int| 0 <= j < c ==> (#[trigger] es[j]).unlock_time <= sa,
                                stop ==> c < n && es[c as int].unlock_time > sa,
                            decreases n - c + (if stop { 0int } else { 1int }),
                        {
                            let k = q.key_at(c);
                            let t = be_decode(k);
                            proof {
                                lemma_be_val_bound(q.key_seq()[c as int]);
                                assert(t == es[c as int].unlock_time);
                            }
                            if t > sa {
                                stop = true;
                            } else {
                                c = c + 1;
                            }
                        }
                        proof {
                            lemma_cut_gt_char(es, sa);
                            let cc = cut_gt(es, sa);
                            if c < cc {
                                assert(es[c as int].unlock_time <= sa);
                                assert(false);
                            }
                            if cc < c {
                                assert(es[cc].unlock_time <= sa);
                                assert(false);
                            }
                            assert(c == cc);
                        }
                    },
                    None => {},
                }
                let ghost cg = c as int;
                let mut i: usize = c;
                while i < n && out.len() < lim
                    invariant
                        store.wf(),
                        lock_queue_wf(*q),
                        es == entries_of(*q),
                        n == es.len(),
                        cg == c,
                        c <= i <= n,
                        out@.len() == i - c,
                        out@.len() <= lim,
                        out@ == es.subrange(cg, i as int),
                    decreases n - i,
                {
                    let k = q.key_at(i);
                    let t = be_decode(k);
                    let a = *q.val_at(i);
                    proof {
                        lemma_be_val_bound(q.key_seq()[i as int]);
                        assert(LockInfo { unlock_time: t, amount: a } == es[i as int]);
                    }
                    out.push(LockInfo { unlock_time: t, amount: a });
                    proof {
                        assert(out@ =~= es.subrange(cg, i + 1));
                    }
                    i = i + 1;
                }
                proof {
                    let c2 = match start_after {
                        Some(x) => cut_gt(es, x),
                        None => 0int,
                    };
                    assert(c2 == cg);
                    let want = if (lim as int) < es.len() - c2 {
                        lim as int
                    } else {
                        es.len() - c2
                    };
                    assert(out@.len() == want);
                    assert(out@ =~= page_asc(es, start_after, lim as int));
                }
                Ok(out)
            } else {
                let mut c: usize = n;
                match start_after {
                    Some(sa) => {
                        proof {
                            lemma_cut_ge_char(es, sa);
                        }
                        let mut b: usize = 0;
                        let mut stop = false;
                        while b < n && !stop
                            invariant
                                store.wf(),
                                lock_queue_wf(*q),
                                es == entries_of(*q),
                                n == es.len(),
                                b <= n,
                                forall|j: int| 0 <= j < b ==> (#[trigger] es[j]).unlock_time < sa,
                                stop ==> b < n && es[b as int].unlock_time >= sa,
                            decreases n - b + (if stop { 0int } else { 1int }),
                        {
                            let k = q.key_at(b);
                            let t = be_decode(k);
                            proof {
                                lemma_be_val_bound(q.key_seq()[b as int]);
                                assert(t == es[b as int].unlock_time);
                            }
                            if t >= sa {
                                stop = true;
                            } else {
                                b = b + 1;
                            }
                        }
                        c = b;
                        proof {
                            lemma_cut_ge_char(es, sa);
                            let cc = cut_ge(es, sa);
                            if c < cc {
                                assert(es[c as int].unlock_time < sa);
                                assert(false);
                            }
                            if cc < c {
                                assert(es[cc].unlock_time < sa);
                                assert(false);
                            }
                        }
                    },
                    None => {},
                }
                let ghost cg = c as int;
                let mut taken: usize = 0;
                while taken < c && taken < lim
                    invariant
                        store.wf(),
                        lock_queue_wf(*q),
                        es == entries_of(*q),
                        n == es.len(),
                        cg == c,
                        c <= n,
                        taken <= c,
                        taken <= lim,
                        out@.len() == taken,
                        forall|j: int| 0 <= j < taken ==> (#[trigger] out@[j]) == es[cg - 1 - j],
                    decreases c - taken,
                {
                    let idx = c - 1 - taken;
                    let k = q.key_at(idx);
                    let t = be_decode(k);
                    let a = *q.val_at(idx);
                    proof {
                        lemma_be_val_bound(q.key_seq()[idx as int]);
                        assert(LockInfo { unlock_time: t, amount: a } == es[idx as int]);
                    }
                    out.push(LockInfo { unlock_time: t, amount: a });
                    taken = taken + 1;
                }
                proof {
                    let c2 = match start_after {
                        Some(x) => cut_ge(es, x),
                        None => es.len() as int,
                    };
                    assert(c2 == cg);
                    let want = if (lim as int) < c2 {
                        lim as int
                    } else {
                        c2
                    };
                    assert(out@.len() == want);
                    assert forall|j: int| 0 <= j < want implies out@[j] == page_desc(
                        es,
                        start_after,
                        lim as int,
                    )[j] by {
                        assert(es.subrange(cg - want, cg)[want - 1 - j] == es[cg - 1 - j]);
                    }
                    assert(out@ =~= page_desc(es, start_after, lim as int));
                }
                Ok(out)
            }
        },
    }
}


/// Drains every entry matured by `timestamp`: scans the queue in ascending
/// timestamp order, sums the amounts of the entries at or before the cutoff,
/// removes exactly those entries, and returns the sum; zero when none
/// matured. A sum past the largest representable value is rejected and
/// changes nothing.
pub fn remove_and_accumulate_lock_info(
    store: &mut StakingStore,
    asset_key: &[u8],
    user: &[u8],
    timestamp: u64,
) -> (r: Result<u128, StoreError>)
    requires
        old(store).wf(),
    ensures
        final(store).wf(),
        r is Ok <==> amount_sum(
            old(store).lock_entries(asset_key@, user@).take(
                cut_gt(old(store).lock_entries(asset_key@, user@), timestamp),
            ),
        ) <= u128::MAX,
        r is Err ==> *final(store) == *old(store) && r == Err::<u128, StoreError>(
            StoreError::ArithmeticOverflow,
        ),
        r is Ok ==> r->Ok_0 == amount_sum(
            old(store).lock_entries(asset_key@, user@).take(
                cut_gt(old(store).lock_entries(asset_key@, user@), timestamp),
            ),
        ),
        r is Ok ==> final(store).lock_entries(asset_key@, user@) == old(store).lock_entries(
            asset_key@,
            user@,
        ).skip(cut_gt(old(store).lock_entries(asset_key@, user@), timestamp)),
        forall|a2: Seq<u8>, u2: Seq<u8>|
            !(a2 == asset_key@ && u2 == user@) ==> final(store).lock_entries(a2, u2) == old(
                store,
            ).lock_entries(a2, u2),
        final(store).config == old(store).config,
        final(store).pools == old(store).pools,
        final(store).rewards == old(store).rewards,
        final(store).stakers == old(store).stakers,
        final(store).rewards_per_sec == old(store).rewards_per_sec,
        final(store).unbonding_period == old(store).unbonding_period,
        final(store).staked_balances == old(store).staked_balances,
        final(store).staked_total == old(store).staked_total,
{
    let ghost s0 = *store;
    let akey = bytes_of(asset_key);
    let ukey = bytes_of(user);
    let ghost es = store.lock_entries(asset_key@, user@);
    let ghost cut = cut_gt(es, timestamp);
    proof {
        lemma_cut_gt_char(es, timestamp);
    }
    let mut c: usize = 0;
    let mut total: u128 = 0;
    let mut present = false;
    let qopt = match store.locks.get(&akey) {
        Some(m) => m.get(&ukey),
        None => None,
    };
    match qopt {
        None => {
            proof {
                assert(es =~= Seq::<LockInfo>::empty());
            }
        },
        Some(q) => {
            present = true;
            proof {
                assert(lock_queue_wf(*q));
                assert(es == entries_of(*q));
                lemma_times_sorted(*q);
                lemma_pow256_values();
                assert(es.take(0) =~= Seq::<LockInfo>::empty());
            }
            let n = q.len();
            let mut stop = false;
            while c < n && !stop
                invariant
                    store.wf(),
                    *store == *old(store),
                    lock_queue_wf(*q),
                    es == entries_of(*q),
                    es == old(store).lock_entries(asset_key@, user@),
                    cut == cut_gt(es, timestamp),
                    n == es.len(),
                    c <= n,
                    forall|j: int| 0 <= j < c ==> (#[trigger] es[j]).unlock_time <= timestamp,
                    stop ==> c < n && es[c as int].unlock_time > timestamp,
                    total == amount_sum(es.take(c as int)),
                decreases n - c + (if stop { 0int } else { 1int }),
            {
                let k = q.key_at(c);
                let t = be_decode(k);
                proof {
                    lemma_be_val_bound(q.key_seq()[c as int]);
                    assert(t == es[c as int].unlock_time);
                }
                if t > timestamp {
                    stop = true;
                } else {
                    let a = *q.val_at(c);
                    proof {
                        assert(a == es[c as int].amount);
                        lemma_cut_gt_char(es, timestamp);
                        if cut <= c {
                            assert(es[cut].unlock_time > timestamp);
                            assert(false);
                        }
                        lemma_amount_sum_step(es, c as int);
                        lemma_amount_sum_mono(es, c + 1, cut);
                    }
                    if a > u128::MAX - total {
                        return Err(StoreError::ArithmeticOverflow);
                    }
                    total = total + a;
                    c = c + 1;
                }
            }
            proof {
                if c < cut {
                    assert(es[c as int].unlock_time <= timestamp);
                    assert(false);
                }
                if cut < c {
                    assert(es[cut].unlock_time <= timestamp);
                    assert(false);
                }
                assert(c == cut);
            }
        },
    }
    if !present || c == 0 {
        proof {
            if !present {
                assert(cut == 0);
            }
            assert(es.take(0) =~= Seq::<LockInfo>::empty());
            assert(es.skip(0) =~= es);
        }
        return Ok(total);
    }
    let mut by_user = match store.locks.remove(&akey) {
        Some(m) => m,
        None => OMap::new(),
    };
    let ghost bu0 = by_user;
    let mut q = match by_user.remove(&ukey) {
        Some(m) => m,
        None => OMap::new(),
    };
    proof {
        assert(s0.locks.spec_get(akey@) matches Some(m) ==> lock_user_wf(m));
        assert(lock_queue_wf(q));
        assert(entries_of(q) == es);
    }
    let mut k: usize = 0;
    while k < c
        invariant
            lock_queue_wf(q),
            k <= c,
            c <= es.len(),
            entries_of(q) == es.skip(k as int),
        decreases c - k,
    {
        let ghost qh = q;
        proof {
            assert(entries_of(q).len() == q.key_seq().len());
            assert(es.skip(k as int).len() == es.len() - k);
        }
        q.remove_at(0);
        proof {
            assert forall|i: int| 0 <= i < q.key_seq().len() implies (#[trigger] q.key_seq()[i]).len()
                == 8 by {
                assert(q.key_seq()[i] == qh.key_seq()[i + 1]);
            }
            lemma_entries_pop(qh, q);
            assert(es.skip(k as int).skip(1) =~= es.skip(k + 1));
        }
        k = k + 1;
    }
    let ghost q1 = q;
    by_user.insert(ukey, q);
    let ghost bu1 = by_user;
    store.locks.insert(akey, by_user);
    proof {
        assert(lock_user_wf(bu1)) by {
            assert forall|u2: Seq<u8>| (#[trigger] bu1.spec_get(u2)) is Some implies lock_queue_wf(
                (bu1.spec_get(u2))->Some_0,
            ) by {
                if u2 != ukey@ {
                    assert(bu1.spec_get(u2) == bu0.spec_get(u2));
                }
            }
        }
        assert forall|a2: Seq<u8>| (#[trigger] store.locks.spec_get(a2)) is Some implies lock_user_wf(
            (store.locks.spec_get(a2))->Some_0,
        ) by {
            if a2 != akey@ {
                assert(store.locks.spec_get(a2) == s0.locks.spec_get(a2));
            }
        }
        assert(store.wf());
        assert(store.lock_entries(asset_key@, user@) == entries_of(q1));
        assert forall|a2: Seq<u8>, u2: Seq<u8>|
            !(a2 == asset_key@ && u2 == user@) implies store.lock_entries(a2, u2)
            == s0.lock_entries(a2, u2) by {
            if a2 != akey@ {
                assert(store.locks.spec_get(a2) == s0.locks.spec_get(a2));
            } else {
                assert(bu1.spec_get(u2) == bu0.spec_get(u2));
                match s0.locks.spec_get(akey@) {
                    Some(m) => {},
                    None => {
                        assert(bu0.spec_get(u2) is None);
                    },
                }
            }
        }
    }
    Ok(total)
}


/// The composite key under which `staked_balances` records the balance of
/// `(asset, staker)`: a two-byte big-endian length prefix for the asset part
/// keeps distinct pairs at distinct keys.
pub open spec fn balance_key_of(asset: Seq<u8>, staker: Seq<u8>) -> Seq<u8> {
    seq![((asset.len() as int / 256) as u8), ((asset.len() as int % 256) as u8)] + asset + staker
}

pub fn staked_balance_key(asset_key: &[u8], staker: &[u8]) -> (r: Vec<u8>)
    requires
        asset_key@.len() < 65536,
    ensures
        r@ == balance_key_of(asset_key@, staker@),
{
    let n: usize = asset_key.len();
    let mut r: Vec<u8> = Vec::new();
    r.push((n / 256) as u8);
    r.push((n % 256) as u8);
    let mut i: usize = 0;
    while i < asset_key.len()
        invariant
            asset_key@.len() < 65536,
            i <= asset_key@.len(),
            r@.len() == 2 + i,
            r@[0] == ((asset_key@.len() as int / 256) as u8),
            r@[1] == ((asset_key@.len() as int % 256) as u8),
            forall|j: int| 0 <= j < i ==> r@[2 + j] == asset_key@[j],
        decreases asset_key@.len() - i,
    {
        r.push(asset_key[i]);
        i = i + 1;
    }
    let mut j: usize = 0;
    while j < staker.len()
        invariant
            asset_key@.len() < 65536,
            j <= staker@.len(),
            r@.len() == 2 + asset_key@.len() + j,
            r@[0] == ((asset_key@.len() as int / 256) as u8),
            r@[1] == ((asset_key@.len() as int % 256) as u8),
            forall|jj: int| 0 <= jj < asset_key@.len() ==> r@[2 + jj] == asset_key@[jj],
            forall|jj: int| 0 <= jj < j ==> r@[2 + asset_key@.len() + jj] == staker@[jj],
        decreases staker@.len() - j,
    {
        r.push(staker[j]);
        j = j + 1;
    }
    proof {
        assert(r@ =~= balance_key_of(asset_key@, staker@));
    }
    r
}

/// Distinct `(asset, staker)` pairs get distinct balance keys, so the two
/// snapshot families cannot mix entries between pairs.
pub proof fn lemma_balance_key_injective(a1: Seq<u8>, s1: Seq<u8>, a2: Seq<u8>, s2: Seq<u8>)
    requires
        a1.len() < 65536,
        a2.len() < 65536,
        balance_key_of(a1, s1) == balance_key_of(a2, s2),
    ensures
        a1 == a2,
        s1 == s2,
{
    let k1 = balance_key_of(a1, s1);
    let k2 = balance_key_of(a2, s2);
    assert(k1[0] == ((a1.len() as int / 256) as u8) && k1[1] == ((a1.len() as int % 256) as u8));
    assert(k2[0] == ((a2.len() as int / 256) as u8) && k2[1] == ((a2.len() as int % 256) as u8));
    assert(a1.len() as int == (a1.len() as int / 256) * 256 + (a1.len() as int % 256));
    assert(a2.len() as int == (a2.len() as int / 256) * 256 + (a2.len() as int % 256));
    assert(a1.len() == a2.len());
    assert(s1.len() == s2.len());
    assert forall|i: int| 0 <= i < a1.len() implies a1[i] == a2[i] by {
        assert(k1[2 + i] == a1[i] && k2[2 + i] == a2[i]);
    }
    assert(a1 =~= a2);
    assert forall|i: int| 0 <= i < s1.len() implies s1[i] == s2[i] by {
        assert(k1[2 + a1.len() + i] == s1[i] && k2[2 + a2.len() + i] == s2[i]);
    }
    assert(s1 =~= s2);
}

} // verus!
