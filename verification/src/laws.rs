//! The store-wide laws: the pool-total invariant, the ordering of queue
//! listings, the pagination clamp, the idempotence of the staker registry,
//! and the preservation of pending withdrawal lists.

use vstd::prelude::*;
use crate::bytes::{lex_lt, sorted_strict, lemma_lex_irrefl, lemma_lex_asym};
use crate::state::{StakingStore, LockInfo, page_asc, page_desc, eff_limit, MAX_LIMIT,
    RewardInfoV, lemma_times_sorted, lock_queue_wf, lemma_cut_gt_char};

verus! {

/// The bonded amount a staker holds for an asset; zero without a record.
pub open spec fn bond_of(s: StakingStore, asset: Seq<u8>, staker: Seq<u8>) -> int {
    match s.spec_reward(staker, asset) {
        Some(r) => r.bond_amount as int,
        None => 0,
    }
}

/// The sum of the bonded amounts of the listed stakers for an asset.
pub open spec fn bond_sum(s: StakingStore, asset: Seq<u8>, stakers: Seq<Seq<u8>>) -> int
    decreases stakers.len(),
{
    if stakers.len() == 0 {
        0
    } else {
        bond_of(s, asset, stakers[0]) + bond_sum(s, asset, stakers.skip(1))
    }
}

/// The pool invariant for one asset: its recorded total equals the sum of
/// the bonded amounts of its stakers.
pub open spec fn pool_consistent(s: StakingStore, asset: Seq<u8>, stakers: Seq<Seq<u8>>) -> bool {
    match s.spec_pool(asset) {
        Some(p) => p.total_bond_amount as int == bond_sum(s, asset, stakers),
        None => false,
    }
}

pub open spec fn no_dup(stakers: Seq<Seq<u8>>) -> bool {
    forall|i: int, j: int| 0 <= i < j < stakers.len() ==> stakers[i] != stakers[j]
}

proof fn lemma_bond_sum_same(s: StakingStore, t: StakingStore, asset: Seq<u8>, stakers: Seq<
    Seq<u8>,
>)
    requires
        forall|st: Seq<u8>| stakers.contains(st) ==> bond_of(t, asset, st) == bond_of(s, asset, st),
    ensures
        bond_sum(t, asset, stakers) == bond_sum(s, asset, stakers),
    decreases stakers.len(),
{
    if stakers.len() > 0 {
        assert(stakers.contains(stakers[0]));
        assert forall|st: Seq<u8>| stakers.skip(1).contains(st) implies bond_of(t, asset, st)
            == bond_of(s, asset, st) by {
            let j = choose|j: int| 0 <= j < stakers.skip(1).len() && stakers.skip(1)[j] == st;
            assert(stakers[j + 1] == st);
            assert(stakers.contains(st));
        }
        lemma_bond_sum_same(s, t, asset, stakers.skip(1));
    }
}

/// Changing one staker's bonded amount by `delta`, and no other's, moves the
/// sum over any duplicate-free list containing that staker by exactly
/// `delta`.
pub proof fn lemma_bond_sum_update(
    s: StakingStore,
    t: StakingStore,
    asset: Seq<u8>,
    stakers: Seq<Seq<u8>>,
    who: Seq<u8>,
    delta: int,
)
    requires
        stakers.contains(who),
        no_dup(stakers),
        bond_of(t, asset, who) == bond_of(s, asset, who) + delta,
        forall|st: Seq<u8>|
            stakers.contains(st) && st != who ==> bond_of(t, asset, st) == bond_of(s, asset, st),
    ensures
        bond_sum(t, asset, stakers) == bond_sum(s, asset, stakers) + delta,
    decreases stakers.len(),
{
    let rest = stakers.skip(1);
    if stakers[0] == who {
        assert forall|st: Seq<u8>| rest.contains(st) implies bond_of(t, asset, st) == bond_of(
            s,
            asset,
            st,
        ) by {
            let j = choose|j: int| 0 <= j < rest.len() && rest[j] == st;
            assert(stakers[j + 1] == st);
            assert(st != who);
            assert(stakers.contains(st));
        }
        lemma_bond_sum_same(s, t, asset, rest);
    } else {
        let i = choose|i: int| 0 <= i < stakers.len() && stakers[i] == who;
        assert(i > 0);
        assert(rest[i - 1] == who);
        assert(rest.contains(who));
        assert(no_dup(rest)) by {
            assert forall|a: int, b: int| 0 <= a < b < rest.len() implies rest[a] != rest[b] by {
                assert(rest[a] == stakers[a + 1] && rest[b] == stakers[b + 1]);
            }
        }
        assert forall|st: Seq<u8>| rest.contains(st) && st != who implies bond_of(t, asset, st)
            == bond_of(s, asset, st) by {
            let j = choose|j: int| 0 <= j < rest.len() && rest[j] == st;
            assert(stakers[j + 1] == st);
            assert(stakers.contains(st));
        }
        lemma_bond_sum_update(s, t, asset, rest, who, delta);
        assert(stakers.contains(stakers[0]));
    }
}

/// The pool-total invariant is preserved by a bonding step: when one
/// staker's bonded amount and the pool's recorded total move together by
/// `delta`, a consistent pool stays consistent.
pub proof fn lemma_pool_invariant_preserved(
    s: StakingStore,
    t: StakingStore,
    asset: Seq<u8>,
    stakers: Seq<Seq<u8>>,
    who: Seq<u8>,
    delta: int,
)
    requires
        pool_consistent(s, asset, stakers),
        stakers.contains(who),
        no_dup(stakers),
        t.spec_pool(asset) is Some,
        (t.spec_pool(asset))->Some_0.total_bond_amount as int == (s.spec_pool(
            asset,
        ))->Some_0.total_bond_amount as int + delta,
        bond_of(t, asset, who) == bond_of(s, asset, who) + delta,
        forall|st: Seq<u8>|
            stakers.contains(st) && st != who ==> bond_of(t, asset, st) == bond_of(s, asset, st),
    ensures
        pool_consistent(t, asset, stakers),
{
    lemma_bond_sum_update(s, t, asset, stakers, who, delta);
}

/// Queue listings come out ordered: the entries of any well-formed store
/// ascend strictly in unlock time.
pub proof fn lemma_lock_entries_ordered(s: StakingStore, asset: Seq<u8>, user: Seq<u8>)
    requires
        s.wf(),
    ensures
        forall|i: int, j: int|
            0 <= i < j < s.lock_entries(asset, user).len() ==> (#[trigger] s.lock_entries(
                asset,
                user,
            )[i]).unlock_time < (#[trigger] s.lock_entries(asset, user)[j]).unlock_time,
{
    match s.locks.spec_get(asset) {
        Some(m) => {
            match m.spec_get(user) {
                Some(q) => {
                    assert(lock_queue_wf(q));
                    lemma_times_sorted(q);
                },
                None => {},
            }
        },
        None => {},
    }
}

/// An ascending page of strictly ascending entries is itself strictly
/// ascending.
pub proof fn lemma_page_asc_ordered(es: Seq<LockInfo>, sa: Option<u64>, lim: int)
    requires
        forall|i: int, j: int|
            0 <= i < j < es.len() ==> (#[trigger] es[i]).unlock_time < (
            #[trigger] es[j]).unlock_time,
        0 <= lim,
    ensures
        forall|i: int, j: int|
            0 <= i < j < page_asc(es, sa, lim).len() ==> (#[trigger] page_asc(es, sa, lim)[i]).unlock_time
                < (#[trigger] page_asc(es, sa, lim)[j]).unlock_time,
{
    match sa {
        Some(x) => lemma_cut_gt_char(es, x),
        None => {},
    }
}

/// With no cursor and a limit covering the whole queue, the descending
/// listing is the exact reverse of the ascending one.
pub proof fn lemma_desc_reverses_asc(es: Seq<LockInfo>, lim: int)
    requires
        lim >= es.len(),
    ensures
        page_desc(es, None, lim) == page_asc(es, None, lim).reverse(),
{
    assert(page_asc(es, None, lim) =~= es);
    assert(page_desc(es, None, lim) =~= es.reverse());
}

/// Any requested limit of thirty or more yields the page the maximum yields:
/// the limit is silently clamped.
pub proof fn lemma_limit_clamped(es: Seq<LockInfo>, sa: Option<u64>, lim: u32)
    requires
        lim >= MAX_LIMIT,
    ensures
        eff_limit(Some(lim)) == eff_limit(Some(MAX_LIMIT)),
        page_asc(es, sa, eff_limit(Some(lim))) == page_asc(es, sa, eff_limit(Some(MAX_LIMIT))),
        page_desc(es, sa, eff_limit(Some(lim))) == page_desc(es, sa, eff_limit(Some(MAX_LIMIT))),
{
}

proof fn lemma_sorted_unique(a: Seq<Seq<u8>>, b: Seq<Seq<u8>>)
    requires
        sorted_strict(a),
        sorted_strict(b),
        forall|k: Seq<u8>| a.contains(k) == b.contains(k),
    ensures
        a == b,
    decreases a.len(),
{
    if a.len() == 0 {
        if b.len() > 0 {
            assert(b.contains(b[0]));
            assert(false);
        }
        assert(a =~= b);
    } else {
        assert(a.contains(a[0]));
        assert(b.contains(b[0]));
        let i = choose|i: int| 0 <= i < a.len() && a[i] == b[0];
        let j = choose|j: int| 0 <= j < b.len() && b[j] == a[0];
        if a[0] != b[0] {
            assert(i > 0 || j > 0);
            if i > 0 {
                assert(lex_lt(a[0], a[i]));
            }
            if j > 0 {
                assert(lex_lt(b[0], b[j]));
            }
            lemma_lex_asym(a[0], b[0]);
            lemma_lex_irrefl(a[0]);
            assert(false);
        }
        assert(sorted_strict(a.skip(1))) by {
            assert forall|x: int, y: int| 0 <= x < y < a.skip(1).len() implies lex_lt(
                a.skip(1)[x],
                a.skip(1)[y],
            ) by {
                assert(a.skip(1)[x] == a[x + 1] && a.skip(1)[y] == a[y + 1]);
            }
        }
        assert(sorted_strict(b.skip(1))) by {
            assert forall|x: int, y: int| 0 <= x < y < b.skip(1).len() implies lex_lt(
                b.skip(1)[x],
                b.skip(1)[y],
            ) by {
                assert(b.skip(1)[x] == b[x + 1] && b.skip(1)[y] == b[y + 1]);
            }
        }
        assert forall|k: Seq<u8>| a.skip(1).contains(k) == b.skip(1).contains(k) by {
            if a.skip(1).contains(k) {
                let x = choose|x: int| 0 <= x < a.skip(1).len() && a.skip(1)[x] == k;
                assert(a[x + 1] == k);
                assert(lex_lt(a[0], a[x + 1]));
                lemma_lex_irrefl(a[0]);
                assert(k != a[0]);
                assert(a.contains(k));
                assert(b.contains(k));
                let y = choose|y: int| 0 <= y < b.len() && b[y] == k;
                assert(y > 0);
                assert(b.skip(1)[y - 1] == k);
                assert(b.skip(1).contains(k));
            }
            if b.skip(1).contains(k) {
                let x = choose|x: int| 0 <= x < b.skip(1).len() && b.skip(1)[x] == k;
                assert(b[x + 1] == k);
                assert(lex_lt(b[0], b[x + 1]));
                lemma_lex_irrefl(b[0]);
                assert(k != b[0]);
                assert(b.contains(k));
                assert(a.contains(k));
                let y = choose|y: int| 0 <= y < a.len() && a[y] == k;
                assert(y > 0);
                assert(a.skip(1)[y - 1] == k);
                assert(a.skip(1).contains(k));
            }
        }
        lemma_sorted_unique(a.skip(1), b.skip(1));
        assert forall|x: int| 0 <= x < a.len() implies a[x] == b[x] by {
            if x > 0 {
                assert(a.skip(1)[x - 1] == a[x]);
                assert(b.skip(1)[x - 1] == b[x]);
            }
        }
        assert(a =~= b);
    }
}

/// Registering a staker twice leaves the registry exactly as after the first
/// registration: membership listings never hold a staker more than once.
pub proof fn lemma_register_idempotent(
    s1: StakingStore,
    s2: StakingStore,
    asset: Seq<u8>,
    staker: Seq<u8>,
)
    requires
        s1.wf(),
        s2.wf(),
        s1.spec_stakers(asset).contains(staker),
        forall|st2: Seq<u8>|
            s2.spec_stakers(asset).contains(st2) == (s1.spec_stakers(asset).contains(st2) || st2
                == staker),
    ensures
        s2.spec_stakers(asset) == s1.spec_stakers(asset),
        no_dup(s1.spec_stakers(asset)),
{
    let l1 = s1.spec_stakers(asset);
    let l2 = s2.spec_stakers(asset);
    assert(sorted_strict(l1)) by {
        match s1.stakers.spec_get(asset) {
            Some(m) => {
                assert(m.wf());
            },
            None => {},
        }
    }
    assert(sorted_strict(l2)) by {
        match s2.stakers.spec_get(asset) {
            Some(m) => {
                assert(m.wf());
            },
            None => {},
        }
    }
    assert forall|k: Seq<u8>| l2.contains(k) == l1.contains(k) by {}
    lemma_sorted_unique(l2, l1);
    assert forall|i: int, j: int| 0 <= i < j < l1.len() implies l1[i] != l1[j] by {
        if l1[i] == l1[j] {
            lemma_lex_irrefl(l1[i]);
        }
    }
}

/// Every pending withdrawal entry survives storage verbatim: a stored reward
/// record holds exactly the given withdrawal list, so pending withdrawals of
/// different reward assets coexist without overwriting one another.
pub proof fn lemma_pending_withdrawals_coexist(
    t: StakingStore,
    staker: Seq<u8>,
    asset: Seq<u8>,
    info: RewardInfoV,
)
    requires
        t.spec_reward(staker, asset) == Some(info),
    ensures
        (t.spec_reward(staker, asset))->Some_0.pending_withdraw == info.pending_withdraw,
        forall|i: int, j: int|
            0 <= i < info.pending_withdraw.len() && 0 <= j < info.pending_withdraw.len() && i != j
                ==> (t.spec_reward(staker, asset))->Some_0.pending_withdraw[i]
                == info.pending_withdraw[i] && (t.spec_reward(
                staker,
                asset,
            ))->Some_0.pending_withdraw[j] == info.pending_withdraw[j],
{
}

} // verus!
