//! What becomes of each connection of a pool, and of each record of an answer, by its place.

use vstd::prelude::*;

use crate::addr::IpAddr;
use crate::proto::RecordType;
use crate::upstream::bootstrap::{
    first_data_address, first_record_address, query_effect, Answer, STATE_CACHED,
    STATE_FAILED,
};
use crate::upstream::pool::{successes, with_fate, ConnectionStatus, Fate, PoolRules};

verus! {

/// How many of the first `n` marks are set.
pub open spec fn marked(marks: Seq<bool>, n: nat) -> nat
    decreases n,
{
    if n == 0 {
        0
    } else {
        marked(marks, (n - 1) as nat) + if marks[n - 1] {
            1nat
        } else {
            0
        }
    }
}

proof fn lemma_marked_agree(a: Seq<bool>, b: Seq<bool>, n: nat)
    requires
        forall|i: int| 0 <= i < n ==> a[i] == b[i],
    ensures
        marked(a, n) == marked(b, n),
    decreases n,
{
    if n > 0 {
        lemma_marked_agree(a, b, (n - 1) as nat);
    }
}

proof fn lemma_marked_grows(marks: Seq<bool>, m: nat, n: nat)
    requires
        m <= n,
    ensures
        marked(marks, m) <= marked(marks, n),
        marked(marks, n) <= n,
        m < n && marks[m as int] ==> marked(marks, m) < marked(marks, n),
    decreases n,
{
    if n > 0 {
        if m < n {
            lemma_marked_grows(marks, m, (n - 1) as nat);
        } else {
            lemma_marked_grows(marks, (m - 1) as nat, (n - 1) as nat);
        }
    }
}

/// What has a fate comes in the order of the list: at as many places in as there are such before
/// it.
proof fn lemma_fate_by_place<T>(list: Seq<T>, fates: Seq<Fate>, fate: Fate, marks: Seq<bool>)
    requires
        fates.len() == list.len() == marks.len(),
        forall|i: int| 0 <= i < list.len() ==> marks[i] == (#[trigger] fates[i] == fate),
    ensures
        with_fate(list, fates, fate).len() == marked(marks, list.len()),
        forall|i: int|
            0 <= i < list.len() && #[trigger] marks[i] ==> marked(marks, i as nat) < marked(
                marks,
                list.len(),
            ) && with_fate(list, fates, fate)[marked(marks, i as nat) as int] == list[i],
    decreases list.len(),
{
    if list.len() > 0 {
        let l = list.drop_last();
        let f = fates.drop_last();
        let m = marks.drop_last();
        assert forall|i: int| 0 <= i < l.len() implies m[i] == (#[trigger] f[i] == fate) by {
            assert(f[i] == fates[i]);
        }
        lemma_fate_by_place(l, f, fate, m);
        lemma_marked_agree(m, marks, l.len());
        assert forall|i: int| 0 <= i < list.len() && #[trigger] marks[i] implies marked(
            marks,
            i as nat,
        ) < marked(marks, list.len()) && with_fate(list, fates, fate)[marked(
            marks,
            i as nat,
        ) as int] == list[i] by {
            lemma_marked_grows(marks, i as nat, list.len());
            lemma_marked_agree(m, marks, i as nat);
            if i < l.len() {
                assert(m[i]);
                assert(l[i] == list[i]);
            } else {
                assert(fates[i] == fate);
            }
        }
    }
}

/// The places of the connections that stay by their own right: queries are on their way over them,
/// or they were used less than the longest idle time ago.
pub open spec fn in_use(pool: PoolRules, statuses: Seq<ConnectionStatus>, now: u64) -> Seq<bool> {
    Seq::new(
        statuses.len(),
        |i: int|
            statuses[i].available && (statuses[i].using_count > 0 || now < statuses[i].last_used
                + pool.max_idle),
    )
}

/// The places of the connections that can be used and have been idle for the longest time or more.
pub open spec fn idle(pool: PoolRules, statuses: Seq<ConnectionStatus>, now: u64) -> Seq<bool> {
    Seq::new(
        statuses.len(),
        |i: int|
            statuses[i].available && statuses[i].using_count == 0 && statuses[i].last_used
                + pool.max_idle <= now,
    )
}

/// The places of the connections that cannot be used.
pub open spec fn broken(statuses: Seq<ConnectionStatus>) -> Seq<bool> {
    Seq::new(statuses.len(), |i: int| !statuses[i].available)
}

/// A connection with queries on their way, or used less than the longest idle time ago, stays, in
/// the order of the list.
pub proof fn law_used_connection_stays<T>(
    pool: PoolRules,
    list: Seq<T>,
    statuses: Seq<ConnectionStatus>,
    now: u64,
    i: int,
)
    requires
        statuses.len() == list.len(),
        0 <= i < list.len(),
        statuses[i].available,
        statuses[i].using_count > 0 || now - statuses[i].last_used < pool.max_idle,
    ensures
        ({
            let place = marked(in_use(pool, statuses, now), i as nat);
            let kept = pool.kept(list, statuses, now);
            place < kept.len() && kept[place as int] == list[i]
        }),
{
    let marks = in_use(pool, statuses, now);
    assert(marks[i]);
    lemma_fate_by_place(list, pool.fates(statuses, now), Fate::Keep, marks);
}

/// A connection without a query on its way that was last used the longest idle time ago, or
/// longer, leaves the list and is to be closed, wherever those that stay by their own right are
/// as many as the pool keeps. The connections that leave are in the order of the list.
pub proof fn law_idle_connection_leaves<T>(
    pool: PoolRules,
    list: Seq<T>,
    statuses: Seq<ConnectionStatus>,
    now: u64,
    i: int,
)
    requires
        statuses.len() == list.len(),
        0 <= i < list.len(),
        statuses[i].available,
        statuses[i].using_count == 0,
        now - statuses[i].last_used >= pool.max_idle,
        marked(in_use(pool, statuses, now), statuses.len()) >= pool.min_size,
    ensures
        ({
            let place = marked(idle(pool, statuses, now), i as nat);
            let dropped = pool.dropped(list, statuses, now);
            place < dropped.len() && dropped[place as int] == list[i]
        }),
        pool.kept(list, statuses, now).len() == marked(
            in_use(pool, statuses, now),
            statuses.len(),
        ),
        pool.dropped(list, statuses, now).len() == marked(
            idle(pool, statuses, now),
            statuses.len(),
        ),
{
    let marks = idle(pool, statuses, now);
    let fates = pool.fates(statuses, now);
    assert(marks[i]);
    lemma_fate_by_place(list, fates, Fate::Drop, marks);
    lemma_fate_by_place(list, fates, Fate::Keep, in_use(pool, statuses, now));
}

/// Where fewer stay by their own right than the pool keeps, the last idle connections stay as far
/// as they are needed, behind the others and the very last first; those before them leave.
pub proof fn law_last_idle_connections_are_spared<T>(
    pool: PoolRules,
    list: Seq<T>,
    statuses: Seq<ConnectionStatus>,
    now: u64,
    i: int,
)
    requires
        statuses.len() == list.len(),
        0 <= i < list.len(),
        statuses[i].available,
        statuses[i].using_count == 0,
        now - statuses[i].last_used >= pool.max_idle,
        marked(in_use(pool, statuses, now), statuses.len()) < pool.min_size,
    ensures
        ({
            let used = marked(in_use(pool, statuses, now), statuses.len());
            let before = marked(idle(pool, statuses, now), i as nat);
            let behind = marked(idle(pool, statuses, now), statuses.len()) - before - 1;
            let kept = pool.kept(list, statuses, now);
            let dropped = pool.dropped(list, statuses, now);
            if used + behind < pool.min_size {
                used + behind < kept.len() && kept[used + behind] == list[i]
            } else {
                before < dropped.len() && dropped[before as int] == list[i]
            }
        }),
{
    let marks = idle(pool, statuses, now);
    let fates = pool.fates(statuses, now);
    assert(marks[i]);
    lemma_fate_by_place(list, fates, Fate::Drop, marks);
    lemma_fate_by_place(list, fates, Fate::Keep, in_use(pool, statuses, now));
}

/// A connection that cannot be used leaves the list and is to be closed, in the order of the list.
pub proof fn law_broken_connection_leaves<T>(
    pool: PoolRules,
    list: Seq<T>,
    statuses: Seq<ConnectionStatus>,
    now: u64,
    i: int,
)
    requires
        statuses.len() == list.len(),
        0 <= i < list.len(),
        !statuses[i].available,
    ensures
        ({
            let place = marked(broken(statuses), i as nat);
            let invalid = pool.invalid(list, statuses, now);
            place < invalid.len() && invalid[place as int] == list[i]
        }),
        pool.invalid(list, statuses, now).len() == marked(broken(statuses), statuses.len()),
{
    let marks = broken(statuses);
    assert(marks[i]);
    lemma_fate_by_place(list, pool.fates(statuses, now), Fate::Invalid, marks);
}

/// The places of the results that are `Ok`.
pub open spec fn is_ok<T, E>(results: Seq<Result<T, E>>) -> Seq<bool> {
    Seq::new(results.len(), |i: int| results[i] is Ok)
}

/// Each connection that could be created is gathered once, in the order in which they came.
pub proof fn law_created_connections_are_gathered<T, E>(results: Seq<Result<T, E>>)
    ensures
        successes(results).len() == marked(is_ok(results), results.len()),
        forall|i: int|
            0 <= i < results.len() && (#[trigger] results[i]) is Ok ==> marked(
                is_ok(results),
                i as nat,
            ) < successes(results).len() && successes(results)[marked(
                is_ok(results),
                i as nat,
            ) as int] == results[i]->Ok_0,
    decreases results.len(),
{
    if results.len() > 0 {
        let r = results.drop_last();
        let marks = is_ok(results);
        law_created_connections_are_gathered(r);
        lemma_marked_agree(is_ok(r), marks, r.len());
        assert forall|i: int|
            0 <= i < results.len() && (#[trigger] results[i]) is Ok implies marked(
            marks,
            i as nat,
        ) < successes(results).len() && successes(results)[marked(marks, i as nat) as int]
            == results[i]->Ok_0 by {
            assert(marks[i]);
            lemma_marked_grows(marks, i as nat, results.len());
            lemma_marked_agree(is_ok(r), marks, i as nat);
            if i < r.len() {
                assert(r[i] == results[i]);
                assert(is_ok(r)[i]);
                lemma_marked_grows(is_ok(r), i as nat, r.len());
            }
        }
    }
}

/// The connection that a caller takes is available, has room, and is the first such from the
/// ticket's place on, going round.
pub proof fn law_next_usable_connection_is_taken(
    pool: PoolRules,
    statuses: Seq<ConnectionStatus>,
    ticket: nat,
    r: int,
    j: int,
)
    requires
        pool.chosen(statuses, ticket, r),
        0 <= j < statuses.len(),
    ensures
        ({
            let start = ticket as int % statuses.len() as int;
            &&& 0 <= r < statuses.len()
            &&& statuses[r].available
            &&& statuses[r].using_count < pool.max_load
            &&& (if start <= r {
                start <= j < r
            } else {
                start <= j || j < r
            }) ==> !statuses[j].available || statuses[j].using_count >= pool.max_load
        }),
{
    let n = statuses.len() as int;
    let start = ticket as int % n;
    let offset = choose|offset: int| #[trigger]
        pool.chosen_at(statuses, ticket, offset) && r == (ticket + offset) % n;
    crate::upstream::pool::lemma_ring(ticket as int, offset, n);
    let o = if j >= start {
        j - start
    } else {
        j - start + n
    };
    crate::upstream::pool::lemma_ring(ticket as int, o, n);
    assert((ticket + o) % n == j);
    if o < offset {
        assert(!pool.eligible(statuses[(ticket + o) % n]));
    }
}

/// A caller takes a connection wherever one is available and has room.
pub proof fn law_usable_connection_is_found(
    pool: PoolRules,
    statuses: Seq<ConnectionStatus>,
    ticket: nat,
    j: int,
)
    requires
        0 <= j < statuses.len(),
        statuses[j].available,
        statuses[j].using_count < pool.max_load,
    ensures
        exists|r: int| #[trigger] pool.chosen(statuses, ticket, r),
{
    let n = statuses.len() as int;
    let start = ticket as int % n;
    vstd::arithmetic::div_mod::lemma_mod_bound(ticket as int, n);
    let o = if j >= start {
        j - start
    } else {
        j - start + n
    };
    crate::upstream::pool::lemma_ring(ticket as int, o, n);
    lemma_first_usable(pool, statuses, ticket, o);
    let offset = choose|offset: int| #[trigger] pool.chosen_at(statuses, ticket, offset);
    assert(pool.chosen(statuses, ticket, (ticket + offset) % n));
}

proof fn lemma_first_usable(
    pool: PoolRules,
    statuses: Seq<ConnectionStatus>,
    ticket: nat,
    o: int,
)
    requires
        0 <= o < statuses.len(),
        pool.eligible(statuses[(ticket + o) % statuses.len() as int]),
    ensures
        exists|offset: int| #[trigger] pool.chosen_at(statuses, ticket, offset),
    decreases o,
{
    if exists|p: int|
        0 <= p < o && pool.eligible(
            statuses[#[trigger] ((ticket + p) % statuses.len() as int)],
        ) {
        let p = choose|p: int|
            0 <= p < o && pool.eligible(
                statuses[#[trigger] ((ticket + p) % statuses.len() as int)],
            );
        lemma_first_usable(pool, statuses, ticket, p);
    } else {
        assert(pool.chosen_at(statuses, ticket, o));
    }
}

/// Where some record of an answer stands for an address, of either family, the query succeeds with
/// the address at the least such place, for as long as that record may live.
pub proof fn law_first_address_resolves(answers: Seq<Answer>, now: u64, i: int, ip: IpAddr)
    requires
        0 <= i < answers.len(),
        answers[i].ip_addr == Some(ip),
        forall|j: int| 0 <= j < i ==> (#[trigger] answers[j]).ip_addr is None,
        now + answers[i].ttl * 1000 <= u64::MAX,
    ensures
        query_effect(Some(answers), now).state == STATE_CACHED,
        query_effect(Some(answers), now).cache matches Some(data) && data.ip == ip
            && data.expires_at == now + answers[i].ttl * 1000,
{
    lemma_first_record(answers, i, ip);
}

proof fn lemma_first_record(answers: Seq<Answer>, i: int, ip: IpAddr)
    requires
        0 <= i < answers.len(),
        answers[i].ip_addr == Some(ip),
        forall|j: int| 0 <= j < i ==> (#[trigger] answers[j]).ip_addr is None,
    ensures
        first_record_address(answers) == Some((ip, answers[i].ttl)),
    decreases i,
{
    if i > 0 {
        let rest = answers.drop_first();
        assert(answers[0].ip_addr is None);
        assert forall|j: int| 0 <= j < i - 1 implies (#[trigger] rest[j]).ip_addr is None by {
            assert(rest[j] == answers[j + 1]);
        }
        lemma_first_record(rest, i - 1, ip);
    }
}

proof fn lemma_no_record(answers: Seq<Answer>)
    requires
        forall|j: int| 0 <= j < answers.len() ==> (#[trigger] answers[j]).ip_addr is None,
    ensures
        first_record_address(answers) is None,
    decreases answers.len(),
{
    if answers.len() > 0 {
        let rest = answers.drop_first();
        assert(answers[0].ip_addr is None);
        assert forall|j: int| 0 <= j < rest.len() implies (#[trigger] rest[j]).ip_addr is None by {
            assert(rest[j] == answers[j + 1]);
        }
        lemma_no_record(rest);
    }
}

/// Where no record stands for an address by itself, the query succeeds with the address in the
/// data of the first record for addresses, of either family, that has one.
pub proof fn law_first_data_address_resolves(answers: Seq<Answer>, now: u64, i: int, ip: IpAddr)
    requires
        0 <= i < answers.len(),
        forall|j: int| 0 <= j < answers.len() ==> (#[trigger] answers[j]).ip_addr is None,
        answers[i].rr_type == RecordType::A || answers[i].rr_type == RecordType::AAAA,
        answers[i].data_ip == Some(ip),
        forall|j: int|
            0 <= j < i ==> (#[trigger] answers[j]).data_ip is None || (answers[j].rr_type
                != RecordType::A && answers[j].rr_type != RecordType::AAAA),
        now + answers[i].ttl * 1000 <= u64::MAX,
    ensures
        query_effect(Some(answers), now).state == STATE_CACHED,
        query_effect(Some(answers), now).cache matches Some(data) && data.ip == ip
            && data.expires_at == now + answers[i].ttl * 1000,
{
    lemma_no_record(answers);
    lemma_first_data(answers, i, ip);
}

proof fn lemma_first_data(answers: Seq<Answer>, i: int, ip: IpAddr)
    requires
        0 <= i < answers.len(),
        answers[i].rr_type == RecordType::A || answers[i].rr_type == RecordType::AAAA,
        answers[i].data_ip == Some(ip),
        forall|j: int|
            0 <= j < i ==> (#[trigger] answers[j]).data_ip is None || (answers[j].rr_type
                != RecordType::A && answers[j].rr_type != RecordType::AAAA),
    ensures
        first_data_address(answers) == Some((ip, answers[i].ttl)),
    decreases i,
{
    if i > 0 {
        let rest = answers.drop_first();
        assert(answers[0].data_ip is None || (answers[0].rr_type != RecordType::A
            && answers[0].rr_type != RecordType::AAAA));
        assert forall|j: int| 0 <= j < i - 1 implies (#[trigger] rest[j]).data_ip is None || (
        rest[j].rr_type != RecordType::A && rest[j].rr_type != RecordType::AAAA) by {
            assert(rest[j] == answers[j + 1]);
        }
        lemma_first_data(rest, i - 1, ip);
    }
}

/// Where no record gives an address in either way, and where no answer came, the query has failed
/// and shares no address.
pub proof fn law_no_address_is_a_failure(answers: Seq<Answer>, now: u64)
    requires
        forall|j: int|
            0 <= j < answers.len() ==> (#[trigger] answers[j]).ip_addr is None && (
            answers[j].data_ip is None || (answers[j].rr_type != RecordType::A && answers[j].rr_type
                != RecordType::AAAA)),
    ensures
        query_effect(Some(answers), now).state == STATE_FAILED,
        query_effect(Some(answers), now).cache is None,
        query_effect(None, now).state == STATE_FAILED,
        query_effect(None, now).cache is None,
{
    lemma_no_record(answers);
    lemma_no_data(answers);
}

proof fn lemma_no_data(answers: Seq<Answer>)
    requires
        forall|j: int|
            0 <= j < answers.len() ==> (#[trigger] answers[j]).data_ip is None || (
            answers[j].rr_type != RecordType::A && answers[j].rr_type != RecordType::AAAA),
    ensures
        first_data_address(answers) is None,
    decreases answers.len(),
{
    if answers.len() > 0 {
        let rest = answers.drop_first();
        assert(answers[0].data_ip is None || (answers[0].rr_type != RecordType::A
            && answers[0].rr_type != RecordType::AAAA));
        assert forall|j: int| 0 <= j < rest.len() implies (#[trigger] rest[j]).data_ip is None || (
        rest[j].rr_type != RecordType::A && rest[j].rr_type != RecordType::AAAA) by {
            assert(rest[j] == answers[j + 1]);
        }
        lemma_no_data(rest);
    }
}

} // verus!
