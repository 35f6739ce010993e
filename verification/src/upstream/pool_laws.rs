//! What holds of a pool as a whole.

use vstd::multiset::Multiset;
use vstd::prelude::*;

use crate::upstream::pool::{
    pool_event_fits, spared, with_fate, ConnectionStatus, Fate, PoolRules, PoolAction, PoolEvent,
};

verus! {

proof fn lemma_multiset_push<T>(s: Seq<T>, x: T)
    ensures
        s.push(x).to_multiset() == s.to_multiset().insert(x),
{
    broadcast use vstd::seq_lib::group_to_multiset_ensures;

}

/// The list falls apart into the connections of each fate.
proof fn lemma_fates_share_out<T>(list: Seq<T>, fates: Seq<Fate>)
    requires
        fates.len() == list.len(),
    ensures
        list.to_multiset() == with_fate(list, fates, Fate::Keep).to_multiset().add(
            with_fate(list, fates, Fate::Drop).to_multiset(),
        ).add(with_fate(list, fates, Fate::Invalid).to_multiset()),
        list.len() == with_fate(list, fates, Fate::Keep).len() + with_fate(
            list,
            fates,
            Fate::Drop,
        ).len() + with_fate(list, fates, Fate::Invalid).len(),
    decreases list.len(),
{
    broadcast use vstd::multiset::group_multiset_axioms;

    if list.len() == 0 {
        assert(list =~= Seq::<T>::empty());
        broadcast use vstd::seq_lib::group_to_multiset_ensures;

        assert(list.to_multiset() =~= Multiset::<T>::empty());
    } else {
        let l = list.drop_last();
        let f = fates.drop_last();
        lemma_fates_share_out(l, f);
        assert(list =~= l.push(list.last()));
        lemma_multiset_push(l, list.last());
        lemma_multiset_push(with_fate(l, f, Fate::Keep), list.last());
        lemma_multiset_push(with_fate(l, f, Fate::Drop), list.last());
        lemma_multiset_push(with_fate(l, f, Fate::Invalid), list.last());
        assert(list.to_multiset() =~= with_fate(list, fates, Fate::Keep).to_multiset().add(
            with_fate(list, fates, Fate::Drop).to_multiset(),
        ).add(with_fate(list, fates, Fate::Invalid).to_multiset()));
    }
}

/// Going through the list loses no connection and makes none up: each stays or is to be closed,
/// once.
pub proof fn law_upkeep_loses_nothing<T>(
    pool: PoolRules,
    list: Seq<T>,
    statuses: Seq<ConnectionStatus>,
    now: u64,
)
    requires
        statuses.len() == list.len(),
    ensures
        list.to_multiset() == pool.kept(list, statuses, now).to_multiset().add(
            pool.dropped(list, statuses, now).to_multiset(),
        ).add(pool.invalid(list, statuses, now).to_multiset()),
        list.len() == pool.kept(list, statuses, now).len() + pool.dropped(
            list,
            statuses,
            now,
        ).len() + pool.invalid(list, statuses, now).len(),
{
    broadcast use vstd::multiset::group_multiset_axioms;

    let fates = pool.fates(statuses, now);
    let keep = with_fate(list, fates, Fate::Keep);
    let idle = with_fate(list, fates, Fate::Drop);
    let n = spared(keep.len(), idle.len(), pool.min_size as nat);
    let stay = idle.skip(idle.len() - n);
    let gone = idle.take(idle.len() - n);
    lemma_fates_share_out(list, fates);
    assert(idle =~= gone + stay);
    vstd::seq_lib::lemma_multiset_commutative(gone, stay);
    stay.lemma_reverse_to_multiset();
    vstd::seq_lib::lemma_multiset_commutative(keep, stay.reverse());
    assert(list.to_multiset() =~= pool.kept(list, statuses, now).to_multiset().add(
        pool.dropped(list, statuses, now).to_multiset(),
    ).add(pool.invalid(list, statuses, now).to_multiset()));
}

/// Going through the list drops no idle connection that is needed to keep the smallest number.
pub proof fn law_upkeep_keeps_min_size<T>(
    pool: PoolRules,
    list: Seq<T>,
    statuses: Seq<ConnectionStatus>,
    now: u64,
)
    requires
        statuses.len() == list.len(),
    ensures
        pool.kept(list, statuses, now).len() >= pool.min_size || pool.dropped(
            list,
            statuses,
            now,
        ).len() == 0,
        pool.kept(list, statuses, now).len() <= list.len(),
{
    law_upkeep_loses_nothing(pool, list, statuses, now);
}

/// What has a fate is in the list at a place of that fate.
proof fn lemma_with_fate_at<T>(list: Seq<T>, fates: Seq<Fate>, fate: Fate, k: int)
    requires
        fates.len() == list.len(),
        0 <= k < with_fate(list, fates, fate).len(),
    ensures
        exists|i: int|
            0 <= i < list.len() && #[trigger] list[i] == with_fate(list, fates, fate)[k] && fates[i]
                == fate,
    decreases list.len(),
{
    let l = list.drop_last();
    let f = fates.drop_last();
    if fates.last() == fate && k == with_fate(l, f, fate).len() {
        assert(list[list.len() - 1] == with_fate(list, fates, fate)[k]);
    } else {
        lemma_with_fate_at(l, f, fate, k);
        let i = choose|i: int|
            0 <= i < l.len() && #[trigger] l[i] == with_fate(l, f, fate)[k] && f[i] == fate;
        assert(list[i] == with_fate(list, fates, fate)[k]);
    }
}

/// What stands at a place of a fate has that fate.
proof fn lemma_at_with_fate<T>(list: Seq<T>, fates: Seq<Fate>, fate: Fate, i: int)
    requires
        fates.len() == list.len(),
        0 <= i < list.len(),
        fates[i] == fate,
    ensures
        with_fate(list, fates, fate).contains(list[i]),
    decreases list.len(),
{
    let l = list.drop_last();
    let f = fates.drop_last();
    if i == list.len() - 1 {
        let s = with_fate(list, fates, fate);
        assert(s[s.len() - 1] == list[i]);
    } else {
        lemma_at_with_fate(l, f, fate, i);
        let k = choose|k: int|
            0 <= k < with_fate(l, f, fate).len() && with_fate(l, f, fate)[k] == l[i];
        assert(with_fate(list, fates, fate)[k] == list[i]);
    }
}

/// A connection that can be used stays while queries are on their way over it, however long it
/// was not used.
pub proof fn law_upkeep_keeps_busy<T>(
    pool: PoolRules,
    list: Seq<T>,
    statuses: Seq<ConnectionStatus>,
    now: u64,
    i: int,
)
    requires
        statuses.len() == list.len(),
        0 <= i < list.len(),
        statuses[i].available,
        statuses[i].using_count > 0,
    ensures
        pool.kept(list, statuses, now).contains(list[i]),
{
    let fates = pool.fates(statuses, now);
    lemma_at_with_fate(list, fates, Fate::Keep, i);
    let keep = with_fate(list, fates, Fate::Keep);
    let k = choose|k: int| 0 <= k < keep.len() && keep[k] == list[i];
    assert(pool.kept(list, statuses, now)[k] == list[i]);
}

/// Whatever stays in the list can be used.
pub proof fn law_upkeep_keeps_available_only<T>(
    pool: PoolRules,
    list: Seq<T>,
    statuses: Seq<ConnectionStatus>,
    now: u64,
    k: int,
)
    requires
        statuses.len() == list.len(),
        0 <= k < pool.kept(list, statuses, now).len(),
    ensures
        exists|i: int|
            0 <= i < list.len() && #[trigger] list[i] == pool.kept(list, statuses, now)[k]
                && statuses[i].available,
{
    let fates = pool.fates(statuses, now);
    let keep = with_fate(list, fates, Fate::Keep);
    let idle = with_fate(list, fates, Fate::Drop);
    if k < keep.len() {
        lemma_with_fate_at(list, fates, Fate::Keep, k);
    } else {
        lemma_with_fate_at(list, fates, Fate::Drop, idle.len() - 1 - (k - keep.len()));
    }
}

/// A change of the list.
pub enum Change<T> {
    /// New connections were created.
    Grow(Seq<T>),
    /// The list was gone through.
    Upkeep(Seq<ConnectionStatus>, u64),
}

/// The list after the changes, in turn, where it is `start` at first.
pub open spec fn changed<T>(pool: PoolRules, start: Seq<T>, changes: Seq<Change<T>>) -> Seq<T>
    decreases changes.len(),
{
    if changes.len() == 0 {
        start
    } else {
        let list = changed(pool, start, changes.drop_last());
        match changes.last() {
            Change::Grow(created) => pool.grown(list, created),
            Change::Upkeep(statuses, now) => pool.kept(list, statuses, now),
        }
    }
}

/// Each time that the list was gone through, the state of each of its connections was looked at.
pub open spec fn orderly<T>(pool: PoolRules, start: Seq<T>, changes: Seq<Change<T>>) -> bool
    decreases changes.len(),
{
    changes.len() == 0 || {
        &&& orderly(pool, start, changes.drop_last())
        &&& changes.last() matches Change::Upkeep(statuses, _) ==> statuses.len() == changed(
            pool,
            start,
            changes.drop_last(),
        ).len()
    }
}

/// A list that starts within the largest number is never longer, however many callers let it grow
/// at the same time and however often it is gone through.
pub proof fn law_size_is_limited<T>(pool: PoolRules, start: Seq<T>, changes: Seq<Change<T>>)
    requires
        start.len() <= pool.max_size,
        orderly(pool, start, changes),
    ensures
        changed(pool, start, changes).len() <= pool.max_size,
    decreases changes.len(),
{
    if changes.len() > 0 {
        law_size_is_limited(pool, start, changes.drop_last());
        let list = changed(pool, start, changes.drop_last());
        if let Change::Upkeep(statuses, now) = changes.last() {
            law_upkeep_loses_nothing(pool, list, statuses, now);
        }
    }
}

/// How many of the connections are available.
pub open spec fn available_count(statuses: Seq<ConnectionStatus>) -> nat
    decreases statuses.len(),
{
    if statuses.len() == 0 {
        0
    } else {
        available_count(statuses.drop_last()) + if statuses.last().available {
            1nat
        } else {
            0
        }
    }
}

/// The connections that are available are those to keep and those that are idle.
proof fn lemma_available_count<T>(
    pool: PoolRules,
    list: Seq<T>,
    statuses: Seq<ConnectionStatus>,
    now: u64,
)
    requires
        statuses.len() == list.len(),
    ensures
        available_count(statuses) == with_fate(list, pool.fates(statuses, now), Fate::Keep).len()
            + with_fate(list, pool.fates(statuses, now), Fate::Drop).len(),
    decreases list.len(),
{
    if list.len() > 0 {
        lemma_available_count(pool, list.drop_last(), statuses.drop_last(), now);
        assert(pool.fates(statuses, now).drop_last() =~= pool.fates(statuses.drop_last(), now));
    }
}

/// Where fewer connections are available than the smallest number, going through the list keeps
/// each of them, however long it was idle, and closes only what cannot be used. The pool is to grow
/// then, by as many as are missing; once they are created, the list has the smallest number.
pub proof fn law_upkeep_restores_min_size<T>(
    pool: PoolRules,
    list: Seq<T>,
    statuses: Seq<ConnectionStatus>,
    now: u64,
    created: Seq<T>,
)
    requires
        statuses.len() == list.len(),
        available_count(statuses) < pool.min_size <= pool.max_size,
        created.len() == pool.min_size - available_count(statuses),
    ensures
        pool.kept(list, statuses, now).len() == available_count(statuses),
        pool.kept(list, statuses, now).len() < pool.min_size,
        pool.dropped(list, statuses, now).len() == 0,
        pool.invalid(list, statuses, now).len() == list.len() - available_count(statuses),
        pool.expansion(available_count(statuses)) == created.len(),
        pool.grown(pool.kept(list, statuses, now), created).len() == pool.min_size,
        pool.leftover(pool.kept(list, statuses, now), created).len() == 0,
        forall|i: int|
            0 <= i < list.len() && (#[trigger] statuses[i]).available ==> pool.kept(
                list,
                statuses,
                now,
            ).contains(list[i]),
{
    lemma_available_count(pool, list, statuses, now);
    law_upkeep_loses_nothing(pool, list, statuses, now);
    let kept = pool.kept(list, statuses, now);
    assert forall|i: int|
        0 <= i < list.len() && (#[trigger] statuses[i]).available implies kept.contains(list[i]) by {
        lemma_available_is_kept(pool, list, statuses, now, i);
    }
}

/// An available connection stays where no idle one is dropped.
proof fn lemma_available_is_kept<T>(
    pool: PoolRules,
    list: Seq<T>,
    statuses: Seq<ConnectionStatus>,
    now: u64,
    i: int,
)
    requires
        statuses.len() == list.len(),
        0 <= i < list.len(),
        statuses[i].available,
        pool.dropped(list, statuses, now).len() == 0,
    ensures
        pool.kept(list, statuses, now).contains(list[i]),
{
    let fates = pool.fates(statuses, now);
    let keep = with_fate(list, fates, Fate::Keep);
    let idle = with_fate(list, fates, Fate::Drop);
    let kept = pool.kept(list, statuses, now);
    if fates[i] == Fate::Keep {
        lemma_at_with_fate(list, fates, Fate::Keep, i);
        let k = choose|k: int| 0 <= k < keep.len() && keep[k] == list[i];
        assert(kept[k] == list[i]);
    } else {
        lemma_at_with_fate(list, fates, Fate::Drop, i);
        let k = choose|k: int| 0 <= k < idle.len() && idle[k] == list[i];
        assert(kept[keep.len() + (idle.len() - 1 - k)] == list[i]);
    }
}

/// Growing keeps the list as it is and puts new connections behind it; each new one is in the
/// list or to be closed, and none is to be closed while there is room.
pub proof fn law_growth_loses_nothing<T>(pool: PoolRules, list: Seq<T>, created: Seq<T>)
    ensures
        pool.grown(list, created).take(list.len() as int) == list,
        pool.grown(list, created).skip(list.len() as int) + pool.leftover(list, created) == created,
        pool.leftover(list, created).len() > 0 ==> pool.grown(list, created).len()
            >= pool.max_size,
{
    assert(pool.grown(list, created).take(list.len() as int) =~= list);
    assert(pool.grown(list, created).skip(list.len() as int) + pool.leftover(list, created)
        =~= created);
}

/// Where there is room, at least one connection is to be created; where all are created and
/// nobody else changes the list, they all find room, and the list has the smallest number, or one
/// more than before where it had that already, within the largest.
pub proof fn law_expansion_fills<T>(pool: PoolRules, list: Seq<T>, created: Seq<T>)
    requires
        list.len() < pool.max_size,
        created.len() == pool.expansion(list.len()),
    ensures
        created.len() >= 1,
        pool.leftover(list, created).len() == 0,
        list.len() >= pool.min_size ==> pool.grown(list, created).len() == list.len() + 1,
        list.len() < pool.min_size <= pool.max_size ==> pool.grown(list, created).len()
            == pool.min_size,
        pool.max_size < pool.min_size ==> pool.grown(list, created).len() == pool.max_size,
{
}

/// The connection for a ticket is settled: two answers to the same question agree.
pub proof fn law_choice_is_settled(
    pool: PoolRules,
    statuses: Seq<ConnectionStatus>,
    ticket: nat,
    a: int,
    b: int,
)
    requires
        pool.chosen(statuses, ticket, a),
        pool.chosen(statuses, ticket, b),
    ensures
        a == b,
{
    let n = statuses.len() as int;
    let x = choose|x: int| #[trigger]
        pool.chosen_at(statuses, ticket, x) && a == (ticket + x) % n;
    let y = choose|y: int| #[trigger]
        pool.chosen_at(statuses, ticket, y) && b == (ticket + y) % n;
    assert((ticket + x) % n == a);
    assert((ticket + y) % n == b);
    if x < y {
        assert(!pool.eligible(statuses[(ticket + x) % n]));
    } else if y < x {
        assert(!pool.eligible(statuses[(ticket + y) % n]));
    }
}

/// Callers go round: while every connection takes another query, the ticket alone decides, and
/// each connection serves exactly one of any run of tickets that is as long as the list.
pub proof fn law_round_robin(
    pool: PoolRules,
    statuses: Seq<ConnectionStatus>,
    first: nat,
    i: int,
)
    requires
        forall|j: int| 0 <= j < statuses.len() ==> pool.eligible(#[trigger] statuses[j]),
        0 <= i < statuses.len(),
        first + statuses.len() <= usize::MAX + 1,
    ensures
        exists|t: nat|
            first <= t < first + statuses.len() && #[trigger] pool.chosen(statuses, t, i),
        forall|t: nat, u: nat|
            first <= t < first + statuses.len() && first <= u < first + statuses.len()
                && #[trigger] pool.chosen(statuses, t, i) && #[trigger] pool.chosen(statuses, u, i)
                ==> t == u,
{
    let n = statuses.len() as int;
    assert forall|t: nat, j: int| #[trigger] pool.chosen(
        statuses,
        t,
        j,
    ) implies j == t % n as nat by {
        vstd::arithmetic::div_mod::lemma_mod_bound(t as int, n);
        assert(pool.eligible(statuses[(t + 0int) % n]));
        assert(pool.chosen_at(statuses, t, 0));
        assert(pool.chosen(statuses, t, (t + 0int) % n));
        law_choice_is_settled(pool, statuses, t, j, (t + 0int) % n);
    }
    let s = first as int % n;
    vstd::arithmetic::div_mod::lemma_mod_bound(first as int, n);
    vstd::arithmetic::div_mod::lemma_fundamental_div_mod(first as int, n);
    let d = if i >= s {
        i - s
    } else {
        i - s + n
    };
    let t = (first + d) as nat;
    assert(t as int % n == i) by {
        let q = first as int / n;
        let k = if i >= s {
            q
        } else {
            q + 1
        };
        assert(t == n * k + i) by (nonlinear_arith)
            requires
                t == first + d,
                first == n * q + s,
                d == (if i >= s {
                    i - s
                } else {
                    i - s + n
                }),
                k == (if i >= s {
                    q
                } else {
                    q + 1
                }),
        ;
        assert(n * k == k * n) by (nonlinear_arith);
        vstd::arithmetic::div_mod::lemma_fundamental_div_mod_converse(t as int, n, k, i);
    }
    assert(pool.eligible(statuses[(t + 0int) % n]));
    assert(pool.chosen_at(statuses, t, 0));
    assert(pool.chosen(statuses, t, i));
    assert forall|t: nat, u: nat|
        first <= t < first + statuses.len() && first <= u < first + statuses.len()
            && #[trigger] pool.chosen(statuses, t, i) && #[trigger] pool.chosen(
            statuses,
            u,
            i,
        ) implies t == u by {
        lemma_same_place(t as int, u as int, n);
    }
}

proof fn lemma_same_place(t: int, u: int, n: int)
    requires
        0 < n,
        -n < t - u < n,
        t % n == u % n,
    ensures
        t == u,
{
    vstd::arithmetic::div_mod::lemma_fundamental_div_mod(t, n);
    vstd::arithmetic::div_mod::lemma_fundamental_div_mod(u, n);
    let a = t / n;
    let b = u / n;
    assert(a == b) by (nonlinear_arith)
        requires
            0 < n,
            -n < n * a - n * b < n,
    ;
}

/// A caller that lets the list grow either stops with the error of that, where there was no
/// connection at all, or lets others run or waits before it looks at the list again.
pub proof fn law_caller_pauses_after_expansion(
    pool: PoolRules,
    before: usize,
    urgent: bool,
    done: bool,
    after: usize,
)
    ensures
        ({
            let expand = PoolAction::Expand { before, urgent };
            let next = pool.next_action(expand, PoolEvent::Expanded(done));
            if done {
                pool_event_fits(next, PoolEvent::Length(after)) && pool.next_action(
                    next,
                    PoolEvent::Length(after),
                ) == (if after > before {
                    PoolAction::Yield
                } else {
                    PoolAction::Sleep
                })
            } else {
                next == (if urgent {
                    PoolAction::Fail
                } else {
                    PoolAction::Sleep
                })
            }
        }),
{
}

} // verus!
