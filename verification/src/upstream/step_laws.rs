//! The courses that callers take, step by step.

use std::sync::Arc;

use vstd::prelude::*;

use crate::addr::IpAddr;
use crate::proto::{EdnsOption, Message, Name};
use crate::upstream::bootstrap::{
    fits, invalid_text, Bootstrap, CacheData, GetAction, GetEvent, GetOutcome,
    Resolution,
};
use crate::upstream::pipeline::{
    numbers_from, observed, Connection, Maintenance, PipelinePool,
};
use crate::upstream::place_laws::{
    broken, in_use, law_broken_connection_leaves, law_next_usable_connection_is_taken,
    law_used_connection_stays, marked,
};
use crate::upstream::pool::{
    pool_event_fits, ConnectionStatus, PoolAction, PoolEvent, PoolRules,
};
use crate::upstream::pool_laws::law_upkeep_loses_nothing;

verus! {

/// A caller looks at its deadline first. One whose deadline has passed stops there, whether it sees
/// so at the start of a round or at the end of a wait. Otherwise it goes on: to the shared state,
/// or to another round.
pub proof fn law_deadline_is_kept(r: Resolution)
    ensures
        Resolution::start().action == GetAction::CheckDeadline,
        Resolution::start().failed_count == 0,
        r.next(GetEvent::Deadline { expired: true }).action == GetAction::Return(
            GetOutcome::TimedOut,
        ),
        r.next(GetEvent::Waited { expired: true }).action == GetAction::Return(
            GetOutcome::TimedOut,
        ),
        r.next(GetEvent::Deadline { expired: false }).action == GetAction::LoadState,
        r.next(GetEvent::Waited { expired: false }).action == GetAction::CheckDeadline,
{
}

/// What a caller does by the shared state. At zero nothing is known, and it tries to claim the
/// query; at one it waits for who has; at two it reads the address; at three it asks for another
/// try, but only four times.
pub proof fn law_state_is_acted_on(r: Resolution)
    ensures
        r.next(GetEvent::Loaded(0)) == (Resolution {
            failed_count: r.failed_count,
            action: GetAction::Exchange { from: 0, to: 1 },
        }),
        r.next(GetEvent::Loaded(1)) == (Resolution {
            failed_count: r.failed_count,
            action: GetAction::WaitQueryDone,
        }),
        r.next(GetEvent::Loaded(2)) == (Resolution {
            failed_count: r.failed_count,
            action: GetAction::ReadCache,
        }),
        r.failed_count < 4 ==> r.next(GetEvent::Loaded(3)) == (Resolution {
            failed_count: (r.failed_count + 1) as u32,
            action: GetAction::Exchange { from: 3, to: 0 },
        }),
        r.failed_count >= 4 ==> r.next(GetEvent::Loaded(3)) == (Resolution {
            failed_count: r.failed_count,
            action: GetAction::Return(GetOutcome::Exhausted(r.failed_count)),
        }),
{
}

/// A caller that lost the race for an exchange waits. One that claimed the query makes it; after
/// any other exchange it looks again.
pub proof fn law_exchange_is_followed_up(r: Resolution, from: u8, to: u8)
    requires
        r.action == (GetAction::Exchange { from, to }),
    ensures
        r.next(GetEvent::Exchanged(false)).action == GetAction::WaitQueryDone,
        from == 0 && to == 1 ==> r.next(GetEvent::Exchanged(true)).action == GetAction::RunQuery,
        from != 0 ==> r.next(GetEvent::Exchanged(true)).action == GetAction::CheckDeadline,
{
}

/// An address is served up to the millisecond at which it goes out of date. From then on, and where
/// there is none, the caller gives it up.
pub proof fn law_address_is_served_in_time(r: Resolution, data: Option<CacheData>, now: u64)
    ensures
        ({
            let next = r.next(GetEvent::Cache { data, now });
            &&& data is Some && data->0.expires_at > now ==> next.action == GetAction::Return(
                GetOutcome::Resolved(data->0.ip),
            )
            &&& data is None || data->0.expires_at <= now ==> next.action == (GetAction::Exchange {
                from: 2,
                to: 0,
            })
        }),
{
}

/// A caller whose own query found an address returns it; otherwise it looks again.
pub proof fn law_own_query_is_answered(r: Resolution, ip: IpAddr)
    ensures
        r.next(GetEvent::QueryFinished { found: Some(ip) }).action == GetAction::Return(
            GetOutcome::Resolved(ip),
        ),
        r.next(GetEvent::QueryFinished { found: None }).action == GetAction::CheckDeadline,
{
}

/// Only a failure that a caller asks to be tried again counts: no other event changes its count.
pub proof fn law_only_failures_count(r: Resolution, event: GetEvent)
    requires
        event != GetEvent::Loaded(3),
    ensures
        r.next(event).failed_count == r.failed_count,
{
}

/// Each thing that a caller does has its own kind of outcome, and a caller that has returned meets
/// none. A shared state is one of four.
pub proof fn law_outcomes_fit(action: GetAction, event: GetEvent)
    ensures
        fits(action, event) <==> {
            ||| action is CheckDeadline && event is Deadline
            ||| action is LoadState && (event matches GetEvent::Loaded(state) && state < 4)
            ||| action is ReadCache && event is Cache
            ||| action is Exchange && event is Exchanged
            ||| action is RunQuery && event is QueryFinished
            ||| action is WaitQueryDone && event is Waited
        },
        action is Return ==> !fits(action, event),
{
}

/// What a new resolver asks: one question, for the name, in the Internet class, for an IPv6 address
/// where version six was asked for and for an IPv4 address otherwise, with recursion. Nothing is
/// known to it at first.
pub proof fn law_new_resolver_asks_for_the_name<U>(
    b: Bootstrap<U>,
    name: Name,
    domain: Seq<char>,
    ip_version: Option<u8>,
)
    requires
        b.fresh(name, domain, ip_version),
    ensures
        b.state == 0,
        b.cache is None,
        b.domain@ == domain,
        b.message.message_type is Query,
        b.message.opcode is Query,
        b.message.recursion_desired,
        b.message.edns is None,
        b.message.questions@.len() == 1,
        b.message.questions@[0].name == name,
        b.message.questions@[0].qclass is IN,
        ip_version == Some(6u8) ==> b.message.questions@[0].qtype is AAAA,
        ip_version != Some(6u8) ==> b.message.questions@[0].qtype is A,
{
}

/// The text for a value that cannot be read: what it is, the value in quotes, a colon and why.
pub proof fn law_invalid_value_is_named(what: Seq<char>, value: Seq<char>, reason: Seq<char>)
    ensures
        invalid_text(what, value, reason) == what + seq![' ', '\''] + value + seq!['\'', ':', ' ']
            + reason,
{
    reveal_strlit(" '");
    reveal_strlit("': ");
    assert(" '"@ =~= seq![' ', '\'']);
    assert("': "@ =~= seq!['\'', ':', ' ']);
}

/// A message under another number is the same in every other part: its kind, its questions, one by
/// one, and its options, one by one.
pub proof fn law_copied_message_is_the_same(a: Message, b: Message, i: int)
    requires
        a.same_but_id(b),
    ensures
        a.message_type == b.message_type,
        a.opcode == b.opcode,
        a.recursion_desired == b.recursion_desired,
        a.questions@.len() == b.questions@.len(),
        0 <= i < a.questions@.len() ==> a.questions@[i] == b.questions@[i],
        a.edns is Some <==> b.edns is Some,
        a.edns is Some ==> a.edns->0.options@.len() == b.edns->0.options@.len(),
        a.edns is Some && 0 <= i < a.edns->0.options@.len() ==> match a.edns->0.options@[i] {
            EdnsOption::Subnet(subnet) => b.edns->0.options@[i] == EdnsOption::Subnet(subnet),
            EdnsOption::Other { code, data } => b.edns->0.options@[i] matches EdnsOption::Other {
                code: same_code,
                data: same_data,
            } && same_code == code && same_data@ == data@,
        },
{
}

/// New connections get numbers one after the other from the first on; after the largest comes zero.
pub proof fn law_numbers_follow_each_other(first: u16, count: nat, i: int)
    requires
        0 <= i < count,
    ensures
        numbers_from(first, count).len() == count,
        numbers_from(first, count)[0] == first,
        i + 1 < count ==> {
            let ids = numbers_from(first, count);
            if ids[i] == 0xFFFF {
                ids[i + 1] == 0
            } else {
                ids[i + 1] == ids[i] + 1
            }
        },
{
    let ids = numbers_from(first, count);
    assert(ids[0] == ((first + 0int) % 0x1_0000) as u16);
    if i + 1 < count {
        assert(ids[i] == ((first + i) % 0x1_0000) as u16);
        assert(ids[i + 1] == ((first + (i + 1)) % 0x1_0000) as u16);
    }
}

/// The course of a caller of a pool. With no connection at all it lets the list grow and fails if
/// that fails; otherwise it looks through the list and takes what it finds.
pub proof fn law_caller_looks_first(pool: PoolRules, n: usize, i: usize)
    ensures
        n == 0 ==> pool.next_action(PoolAction::Load, PoolEvent::Length(n)) == (PoolAction::Expand {
            before: 0,
            urgent: true,
        }),
        n > 0 ==> pool.next_action(PoolAction::Load, PoolEvent::Length(n)) == PoolAction::Scan,
        pool.next_action(PoolAction::Scan, PoolEvent::Scanned(Some(i))) == PoolAction::Take(i),
        pool.next_action(PoolAction::Scan, PoolEvent::Scanned(None)) == PoolAction::Recount,
{
}

/// A caller that found nothing lets the list grow where it is shorter than the largest number, and
/// lets others run otherwise. After a pause it begins anew.
pub proof fn law_caller_grows_the_list_in_need(pool: PoolRules, n: usize)
    ensures
        n < pool.max_size ==> pool.next_action(PoolAction::Recount, PoolEvent::Length(n))
            == PoolAction::CountBefore,
        n >= pool.max_size ==> pool.next_action(PoolAction::Recount, PoolEvent::Length(n))
            == PoolAction::Yield,
        pool.next_action(PoolAction::CountBefore, PoolEvent::Length(n)) == (PoolAction::Expand {
            before: n,
            urgent: false,
        }),
        pool.next_action(PoolAction::Yield, PoolEvent::Resumed) == PoolAction::Load,
        pool.next_action(PoolAction::Sleep, PoolEvent::Resumed) == PoolAction::Load,
{
}

/// Each thing that a caller of a pool does has its own kind of outcome, and one that has stopped
/// meets none.
pub proof fn law_pool_outcomes_fit(action: PoolAction, event: PoolEvent)
    ensures
        pool_event_fits(action, event) <==> match action {
            PoolAction::Load => event is Length,
            PoolAction::Scan => event is Scanned,
            PoolAction::Recount => event is Length,
            PoolAction::CountBefore => event is Length,
            PoolAction::Expand { .. } => event is Expanded,
            PoolAction::CountAfter { .. } => event is Length,
            PoolAction::Yield => event is Resumed,
            PoolAction::Sleep => event is Resumed,
            PoolAction::Take(_) => false,
            PoolAction::Fail => false,
        },
{
}

/// How many connections are to be created: as many as are missing to the smallest number, or one
/// where none is, but never more than there is room for.
pub proof fn law_expansion_by_numbers(pool: PoolRules, len: nat)
    requires
        len < pool.max_size,
    ensures
        1 <= pool.expansion(len) <= pool.max_size - len,
        len < pool.min_size ==> pool.expansion(len) <= pool.min_size - len,
        len >= pool.min_size ==> pool.expansion(len) == 1,
        len < pool.min_size <= pool.max_size ==> pool.expansion(len) == pool.min_size - len,
        pool.min_size > pool.max_size ==> pool.expansion(len) == pool.max_size - len,
{
}

/// What found room and what did not, by place: the first new connections fill the list up to the
/// largest number, the others are left over.
pub proof fn law_new_connections_by_place<T>(
    pool: PoolRules,
    list: Seq<T>,
    created: Seq<T>,
    i: int,
)
    requires
        0 <= i < created.len(),
    ensures
        list.len() + i < pool.max_size ==> list.len() + i < pool.grown(list, created).len()
            && pool.grown(list, created)[list.len() + i] == created[i],
        list.len() >= pool.max_size ==> pool.grown(list, created) == list && pool.leftover(
            list,
            created,
        ) == created,
        list.len() + i >= pool.max_size >= list.len() ==> {
            let k = list.len() + i - pool.max_size;
            k < pool.leftover(list, created).len() && pool.leftover(list, created)[k] == created[i]
        },
{
    if list.len() >= pool.max_size {
        assert(pool.grown(list, created) =~= list);
        assert(pool.leftover(list, created) =~= created);
    }
}

/// After a list was gone through, each connection that cannot be used is to be closed, and as many
/// in all as do not stay. The list is to grow if and only if it was replaced and what stays is less
/// than the smallest number.
pub proof fn law_upkeep_closes_what_leaves<C: Connection>(
    pool: PipelinePool<C>,
    m: Maintenance<C>,
    list: Seq<Arc<C>>,
    states: Seq<ConnectionStatus>,
    now: u64,
    replaced: bool,
    i: int,
)
    requires
        pool.maintained(m, list, states, now, replaced),
        0 <= i < list.len(),
    ensures
        ({
            let stays = pool.rules.kept(list, states, now).len();
            let gone = pool.rules.dropped(list, states, now);
            &&& stays + m.closing@.len() == list.len()
            &&& !states[i].available ==> {
                let place = gone.len() + marked(broken(states), i as nat);
                place < m.closing@.len() && m.closing@[place as int] == list[i]
            }
            &&& forall|k: int| 0 <= k < gone.len() ==> m.closing@[k] == gone[k]
            &&& m.grow <==> replaced && stays < pool.rules.min_size
        }),
{
    law_upkeep_loses_nothing(pool.rules, list, states, now);
    if !states[i].available {
        law_broken_connection_leaves(pool.rules, list, states, now, i);
    }
}

/// The connections that are planned find room in a list that was loaded: there is at least one, and
/// no more than the list can take. As many numbers were drawn for them, and they have those, one
/// after the other.
pub proof fn law_planned_connections_have_room<C>(
    pool: PipelinePool<C>,
    ids: Seq<u16>,
    list: Arc<Vec<Arc<C>>>,
    first: u16,
)
    requires
        pool.planned(ids, list, first),
    ensures
        pool.loaded(list),
        1 <= ids.len(),
        list@.len() + ids.len() <= pool.rules.max_size,
        list@.len() < pool.rules.min_size <= pool.rules.max_size ==> list@.len() + ids.len()
            == pool.rules.min_size,
        list@.len() >= pool.rules.min_size ==> ids.len() == 1,
        pool.drawn_id(first, (ids.len() % 0x1_0000) as u16),
        ids[0] == first,
        forall|i: int|
            0 <= i < ids.len() ==> #[trigger] ids[i] as int == (first + i) % 0x1_0000,
{
    law_expansion_by_numbers(pool.rules, list@.len());
    let count = pool.rules.expansion(list@.len()) as nat;
    law_numbers_follow_each_other(first, count, 0);
    assert forall|i: int| 0 <= i < ids.len() implies #[trigger] ids[i] as int == (first + i)
        % 0x1_0000 by {
        assert(ids[i] == ((first + i) % 0x1_0000) as u16);
    }
}

/// A caller finds the next connection of a list that was loaded, by a ticket that was drawn: it was
/// seen to be available and to have room, and none before it in the round was.
pub proof fn law_caller_finds_the_next<C: Connection>(
    pool: PipelinePool<C>,
    conn: Arc<C>,
    list: Arc<Vec<Arc<C>>>,
    states: Seq<ConnectionStatus>,
    ticket: usize,
    i: int,
    j: int,
)
    requires
        pool.finds(conn, list, states, ticket, i),
        0 <= j < list@.len(),
    ensures
        pool.loaded(list),
        pool.drawn(ticket),
        0 <= i < list@.len(),
        conn == list@[i],
        observed(conn, states[i]),
        states[i].available,
        states[i].using_count < pool.rules.max_load,
        observed(list@[j], states[j]),
        ({
            let start = ticket as int % list@.len() as int;
            (if start <= i {
                start <= j < i
            } else {
                start <= j || j < i
            }) ==> !states[j].available || states[j].using_count >= pool.rules.max_load
        }),
{
    law_next_usable_connection_is_taken(pool.rules, states, ticket as nat, i, j);
}

/// A caller finds nothing only in a list that was loaded and holds connections, each of which was
/// seen to be unavailable or to have no room.
pub proof fn law_nothing_is_found_only_in_need<C: Connection>(
    pool: PipelinePool<C>,
    list: Arc<Vec<Arc<C>>>,
    states: Seq<ConnectionStatus>,
    j: int,
)
    requires
        pool.finds_none(list, states),
        0 <= j < list@.len(),
    ensures
        pool.loaded(list),
        observed(list@[j], states[j]),
        !states[j].available || states[j].using_count >= pool.rules.max_load,
{
    assert(!pool.rules.eligible(states[j]));
}

/// What is offered in the place of a list that was loaded holds each connection that is in use, in
/// order, and together with what is to be closed as many as the list. Whether the list grows is
/// settled by what was offered and by whether it was taken.
pub proof fn law_upkeep_offers_what_stays<C: Connection>(
    pool: PipelinePool<C>,
    m: Maintenance<C>,
    now: u64,
    list: Arc<Vec<Arc<C>>>,
    states: Seq<ConnectionStatus>,
    new: Vec<Arc<C>>,
    previous: Arc<Vec<Arc<C>>>,
    replaced: bool,
    i: int,
)
    requires
        pool.leaves(m, now, list, states, new, previous, replaced),
        0 <= i < list@.len(),
    ensures
        pool.loaded(list),
        pool.offered(list, new, previous),
        pool.compared(list, previous, replaced),
        observed(list@[i], states[i]),
        new@.len() + m.closing@.len() == list@.len(),
        m.grow <==> replaced && new@.len() < pool.rules.min_size,
        states[i].available && (states[i].using_count > 0 || now < states[i].last_used
            + pool.rules.max_idle) ==> {
            let place = marked(in_use(pool.rules, states, now), i as nat);
            place < new@.len() && new@[place as int] == list@[i]
        },
{
    law_upkeep_closes_what_leaves(pool, m, list@, states, now, replaced, i);
    if states[i].available && (states[i].using_count > 0 || now < states[i].last_used
        + pool.rules.max_idle) {
        law_used_connection_stays(pool.rules, list@, states, now, i);
    }
}

/// There is no outcome of going through a list only where an available connection was seen to be
/// used after the given time.
pub proof fn law_time_does_not_run_backwards<C: Connection>(
    pool: PipelinePool<C>,
    now: u64,
    list: Arc<Vec<Arc<C>>>,
    states: Seq<ConnectionStatus>,
    i: int,
)
    requires
        pool.used_later(now, list, states, i),
    ensures
        pool.loaded(list),
        0 <= i < list@.len(),
        observed(list@[i], states[i]),
        states[i].available,
        now < states[i].last_used,
{
}

} // verus!
