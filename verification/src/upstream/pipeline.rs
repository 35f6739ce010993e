//! A pool whose list of connections is shared by its callers.
//!
//! Callers read and replace the list at any time, with no lock. What one of them finds in it is
//! therefore open; what it then does is settled by `PoolRules`, whatever it finds.

use std::sync::atomic::{AtomicU16, AtomicUsize, Ordering};
use std::sync::Arc;

use arc_swap::{ArcSwap, Guard};
use vstd::prelude::*;

use crate::error::DnsError;
use crate::upstream::pool::{
    pool_event_fits, share, successes, ConnectionStatus, PoolAction, PoolEvent, PoolRules,
};
use crate::upstream::pool_laws::law_growth_loses_nothing;

verus! {

/// What a pool asks of a connection.
pub trait Connection {
    /// Whether queries can go over it.
    fn available(&self) -> bool;

    /// How many queries are on their way.
    fn using_count(&self) -> u16;

    /// When it was last used, in milliseconds since the start of the program.
    fn last_used(&self) -> u64;
}

/// A list of connections that callers share: an `arc_swap::ArcSwap`.
#[verifier::external_body]
#[verifier::reject_recursive_types(C)]
pub struct SharedConnections<C> {
    list: ArcSwap<Vec<Arc<C>>>,
}

/// `ArcSwap::from_pointee` makes a shared list that starts with the given one. As it is shared,
/// nothing is stated of what it holds.
#[verifier::external_body]
fn shared_list<C>(list: Vec<Arc<C>>) -> SharedConnections<C> {
    SharedConnections { list: ArcSwap::from_pointee(list) }
}

/// `ArcSwap::load_full` gives the list as it is now. As others replace it at any time, nothing is
/// stated of it.
#[verifier::external_body]
fn load_list<C>(shared: &SharedConnections<C>) -> Arc<Vec<Arc<C>>> {
    shared.list.load_full()
}

/// `ArcSwap::compare_and_swap` puts `new` in the place of the list if that is still the very one
/// that was `seen`, and gives the list that was there. As others replace the list at any time,
/// nothing is stated of it.
#[verifier::external_body]
fn replace_list<C>(
    shared: &SharedConnections<C>,
    seen: &Arc<Vec<Arc<C>>>,
    new: Vec<Arc<C>>,
) -> Arc<Vec<Arc<C>>> {
    Guard::into_inner(shared.list.compare_and_swap(seen, Arc::new(new)))
}

/// `Arc::ptr_eq` tells whether two pointers point to the very same list, which then holds what it
/// holds.
#[verifier::external_body]
fn same_list<C>(a: &Arc<Vec<Arc<C>>>, b: &Arc<Vec<Arc<C>>>) -> (r: bool)
    ensures
        r ==> *a == *b,
{
    Arc::ptr_eq(a, b)
}

/// `ArcSwap::rcu` replaces the list by what the rules make of it and of the new connections, and
/// gives the list that was replaced. Where others replace the list in between, it starts over. As
/// they do so at any time, nothing is stated of the list that it gives.
#[verifier::external_body]
fn update_list<C>(
    shared: &SharedConnections<C>,
    rules: &PoolRules,
    created: &Vec<Arc<C>>,
) -> Arc<Vec<Arc<C>>> {
    shared.list.rcu(|list| updated(rules, list, created))
}

/// The list with new connections added as far as there is room. Where there is none, it is the
/// very same list.
fn updated<C>(rules: &PoolRules, list: &Arc<Vec<Arc<C>>>, created: &Vec<Arc<C>>) -> (r: Arc<
    Vec<Arc<C>>,
>)
    ensures
        r@ == rules.grown(list@, created@),
{
    if list.len() >= rules.max_size {
        assert(rules.grown(list@, created@) =~= list@);
        return share(list);
    }
    let growth = rules.insert_created(list, created);
    Arc::new(growth.connections)
}

/// `s` is what `conn` was seen to say of itself.
pub open spec fn observed<C: Connection>(conn: Arc<C>, s: ConnectionStatus) -> bool {
    &&& call_ensures(C::available, (&*conn,), s.available)
    &&& call_ensures(C::using_count, (&*conn,), s.using_count)
    &&& call_ensures(C::last_used, (&*conn,), s.last_used)
}

/// `states` are what the connections of `list` were seen to say of themselves, one by one.
pub open spec fn all_observed<C: Connection>(
    list: Seq<Arc<C>>,
    states: Seq<ConnectionStatus>,
) -> bool {
    &&& states.len() == list.len()
    &&& forall|i: int| 0 <= i < list.len() ==> observed(#[trigger] list[i], states[i])
}

fn statuses<C: Connection>(list: &Vec<Arc<C>>) -> (r: Vec<ConnectionStatus>)
    ensures
        all_observed(list@, r@),
{
    let mut found: Vec<ConnectionStatus> = Vec::new();
    for i in 0..list.len()
        invariant
            found@.len() == i,
            forall|j: int| 0 <= j < i ==> observed(#[trigger] list@[j], found@[j]),
    {
        let conn: &C = &list[i];
        let status = ConnectionStatus {
            available: conn.available(),
            using_count: conn.using_count(),
            last_used: conn.last_used(),
        };
        assert(observed(list@[i as int], status));
        found.push(status);
    }
    found
}

/// `count` numbers from `first` on, each one more than the one before; after the largest comes
/// zero.
pub open spec fn numbers_from(first: u16, count: nat) -> Seq<u16> {
    Seq::new(count, |i: int| ((first + i) % 0x1_0000) as u16)
}

/// The numbers of `count` new connections, of which the first gets `first`.
pub fn connection_ids(first: u16, count: usize) -> (r: Vec<u16>)
    ensures
        r@ == numbers_from(first, count as nat),
{
    let mut ids: Vec<u16> = Vec::new();
    let mut next: u16 = first;
    for i in 0..count
        invariant
            next == (first + i) % 0x1_0000,
            ids@ == numbers_from(first, i as nat),
    {
        ids.push(next);
        assert(ids@ =~= numbers_from(first, (i + 1) as nat));
        next = next.wrapping_add(1);
    }
    ids
}

/// A pool of connections.
#[verifier::reject_recursive_types(C)]
pub struct PipelinePool<C> {
    pub rules: PoolRules,
    /// The ticket of the next caller.
    pub index: AtomicUsize,
    /// The number of the next connection.
    pub next_id: AtomicU16,
    pub connections: SharedConnections<C>,
}

/// How far a caller that looks for a connection has come.
pub enum Progress<C> {
    /// It has found one.
    Found(Arc<C>),
    /// It has to do this next.
    Next(PoolAction),
}

/// What is left to do after a list was gone through.
pub struct Maintenance<C> {
    /// The connections to close: those that were idle, and after them those that cannot be used.
    pub closing: Vec<Arc<C>>,
    /// Whether the list is to grow now.
    pub grow: bool,
}

impl<C> PipelinePool<C> {
    /// The pool starts with the given connections: `ArcSwap::from_pointee` was given them, and both
    /// counters were made to start at zero.
    pub closed spec fn starts_with(self, connections: Vec<Arc<C>>) -> bool {
        &&& call_ensures(shared_list::<C>, (connections,), self.connections)
        &&& call_ensures(AtomicUsize::new, (0usize,), self.index)
        &&& call_ensures(AtomicU16::new, (0u16,), self.next_id)
    }

    /// A pool that goes by the given rules and starts with the given connections.
    pub fn with_connections(rules: PoolRules, connections: Vec<Arc<C>>) -> (r: PipelinePool<C>)
        ensures
            r.rules == rules,
            r.starts_with(connections),
    {
        PipelinePool {
            rules,
            index: AtomicUsize::new(0),
            next_id: AtomicU16::new(0),
            connections: shared_list(connections),
        }
    }

    /// A pool of at least `min_size` and at most `max_size` connections, without any at first.
    pub fn new(min_size: usize, max_size: usize, max_load: u16, idle_time: u128) -> (r:
        PipelinePool<C>)
        ensures
            r.rules == (PoolRules { max_size, min_size, max_load, max_idle: idle_time }),
            exists|none: Vec<Arc<C>>| none@.len() == 0 && #[trigger] r.starts_with(none),
    {
        Self::with_connections(
            PoolRules::new(min_size, max_size, max_load, idle_time),
            Vec::new(),
        )
    }

    /// `ticket` was drawn: `AtomicUsize::fetch_add`, told to add one to the pool's counter, gave it
    /// as the number before.
    pub closed spec fn drawn(self, ticket: usize) -> bool {
        call_ensures(AtomicUsize::fetch_add, (&self.index, 1usize, Ordering::Relaxed), ticket)
    }

    /// `first` was drawn: `AtomicU16::fetch_add`, told to add `added` to the pool's counter of
    /// connections, gave it as the number before.
    pub closed spec fn drawn_id(self, first: u16, added: u16) -> bool {
        call_ensures(AtomicU16::fetch_add, (&self.next_id, added, Ordering::Relaxed), first)
    }

    /// `count` numbers were drawn, from `first` on. The counter starts over after the largest
    /// number, so whole rounds need not be added.
    pub open spec fn drawn_ids(self, first: u16, count: nat) -> bool {
        self.drawn_id(first, (count % 0x1_0000) as u16)
    }

    /// `list` was loaded: `ArcSwap::load_full` gave it as the pool's list at some time.
    pub closed spec fn loaded(self, list: Arc<Vec<Arc<C>>>) -> bool {
        call_ensures(load_list::<C>, (&self.connections,), list)
    }

    /// Takes the next ticket.
    fn draw(&self) -> (r: usize)
        ensures
            self.drawn(r),
    {
        self.index.fetch_add(1, Ordering::Relaxed)
    }

    /// Takes as many numbers of connections as `added` says, and returns the first.
    fn draw_id(&self, added: u16) -> (r: u16)
        ensures
            self.drawn_id(r, added),
    {
        self.next_id.fetch_add(added, Ordering::Relaxed)
    }

    /// How many connections there are now. Others change the list at any time: it is the length of
    /// the list as it was loaded.
    pub fn len(&self) -> (r: usize)
        ensures
            exists|list: Arc<Vec<Arc<C>>>| #[trigger] self.loaded(list) && r == list@.len(),
    {
        let list = load_list(&self.connections);
        assert(self.loaded(list));
        list.len()
    }

    /// The name under which the pool is gone through from time to time.
    pub fn maintenance_task_name(&self) -> (r: String)
        ensures
            r@ == "upstream_pipeline_pool:maintenance"@,
    {
        "upstream_pipeline_pool:maintenance".to_owned()
    }

    /// `ids` are the numbers of the connections to create where `list` was loaded: as many as the
    /// rules say, one after the other from a number on that was drawn for all of them.
    pub open spec fn planned(self, ids: Seq<u16>, list: Arc<Vec<Arc<C>>>, first: u16) -> bool {
        &&& self.loaded(list)
        &&& list@.len() < self.rules.max_size
        &&& self.drawn_ids(first, self.rules.expansion(list@.len()) as nat)
        &&& ids == numbers_from(first, self.rules.expansion(list@.len()) as nat)
    }

    /// `ids` can be the numbers of the connections to create: for a list that was loaded and a
    /// number that was drawn.
    pub open spec fn can_plan(self, ids: Seq<u16>) -> bool {
        exists|list: Arc<Vec<Arc<C>>>, first: u16| #[trigger] self.planned(ids, list, first)
    }

    /// A list was loaded that may not grow.
    pub open spec fn seen_full(self) -> bool {
        exists|list: Arc<Vec<Arc<C>>>| #[trigger]
            self.loaded(list) && list@.len() >= self.rules.max_size
    }

    /// Settles which connections to create now, by their numbers, if there may be more.
    pub fn plan_expansion(&self) -> (r: Result<Vec<u16>, DnsError>)
        ensures
            match r {
                Ok(ids) => self.can_plan(ids@),
                Err(e) => self.seen_full() && (e matches DnsError::Protocol(text) && text@
                    == "Connection pool already at maximum size"@),
            },
            self.rules.max_size == 0 ==> r is Err,
    {
        let list = load_list(&self.connections);
        assert(self.loaded(list));
        match self.rules.expansion_count(list.len()) {
            Ok(count) => {
                let first: u16 = self.draw_id((count % 0x1_0000) as u16);
                let ids = connection_ids(first, count);
                assert(self.drawn_ids(first, count as nat));
                assert(self.planned(ids@, list, first));
                Ok(ids)
            },
            Err(e) => Err(e),
        }
    }

    /// `left` are the connections that found no room when `created` were added to the pool's list:
    /// `ArcSwap::rcu` replaced the list by what the rules make of it, and `previous` is the list
    /// that it replaced.
    pub closed spec fn added(
        self,
        created: Vec<Arc<C>>,
        previous: Arc<Vec<Arc<C>>>,
        left: Seq<Arc<C>>,
    ) -> bool {
        &&& call_ensures(update_list::<C>, (&self.connections, &self.rules, &created), previous)
        &&& left == self.rules.leftover(previous@, created@)
    }

    /// `left` can be the connections that found no room when `new` were added to the pool's list.
    pub open spec fn can_add(self, new: Seq<Arc<C>>, left: Seq<Arc<C>>) -> bool {
        exists|created: Vec<Arc<C>>, previous: Arc<Vec<Arc<C>>>|
            created@ == new && #[trigger] self.added(created, previous, left)
    }

    /// Adds the connections that could be created to the list, as far as there is room then, and
    /// returns those that are left over and to be closed.
    pub fn finish_expansion(&self, results: &Vec<Result<Arc<C>, DnsError>>) -> (r: Vec<Arc<C>>)
        ensures
            if successes(results@).len() == 0 {
                r@.len() == 0
            } else {
                self.can_add(successes(results@), r@)
            },
    {
        let created = self.rules.created(results);
        if created.len() == 0 {
            return Vec::new();
        }
        let list = update_list(&self.connections, &self.rules, &created);
        let growth = self.rules.insert_created(&list, &created);
        assert(self.added(created, list, growth.leftover@));
        growth.leftover
    }
}

impl<C: Connection> PipelinePool<C> {
    /// `conn` is what a caller that drew the given ticket finds in `list`, which was loaded, where
    /// the connections were seen in the given states.
    pub open spec fn finds(
        self,
        conn: Arc<C>,
        list: Arc<Vec<Arc<C>>>,
        states: Seq<ConnectionStatus>,
        ticket: usize,
        i: int,
    ) -> bool {
        &&& self.loaded(list)
        &&& all_observed(list@, states)
        &&& self.drawn(ticket)
        &&& 0 <= i < list@.len()
        &&& self.rules.chosen(states, ticket as nat, i)
        &&& conn == list@[i]
    }

    /// A caller can find `conn`: in a list that was loaded, its connections seen one by one, with a
    /// ticket that was drawn.
    pub open spec fn can_find(self, conn: Arc<C>) -> bool {
        exists|list: Arc<Vec<Arc<C>>>, states: Seq<ConnectionStatus>, ticket: usize, i: int|
            #[trigger] self.finds(conn, list, states, ticket, i)
    }

    /// In `list`, which was loaded and holds connections, none was seen that takes another query.
    pub open spec fn finds_none(
        self,
        list: Arc<Vec<Arc<C>>>,
        states: Seq<ConnectionStatus>,
    ) -> bool {
        &&& self.loaded(list)
        &&& list@.len() > 0
        &&& all_observed(list@, states)
        &&& forall|i: int| 0 <= i < states.len() ==> !self.rules.eligible(#[trigger] states[i])
    }

    /// A caller can find nothing: in a list that was loaded, its connections seen one by one.
    pub open spec fn can_find_none(self) -> bool {
        exists|list: Arc<Vec<Arc<C>>>, states: Seq<ConnectionStatus>| #[trigger]
            self.finds_none(list, states)
    }

    /// `next` is what a caller does that has counted the connections of a list that was loaded.
    pub open spec fn counted(self, action: PoolAction, next: PoolAction) -> bool {
        exists|list: Arc<Vec<Arc<C>>>| #[trigger]
            self.loaded(list) && next == self.rules.next_action(
                action,
                PoolEvent::Length(list@.len() as usize),
            )
    }

    /// Does what a caller has to do next, where that is to look at the list. Where it begins, it
    /// looks through the very list that it has loaded, unless that is empty.
    pub fn look(&self, action: PoolAction) -> (r: Progress<C>)
        requires
            pool_event_fits(action, PoolEvent::Length(0)),
        ensures
            match r {
                Progress::Found(conn) => action == PoolAction::Load && self.can_find(conn),
                Progress::Next(next) => if action == PoolAction::Load && next
                    == PoolAction::Recount {
                    self.can_find_none()
                } else {
                    self.counted(action, next) && next != PoolAction::Scan
                },
            },
    {
        let list = load_list(&self.connections);
        assert(self.loaded(list));
        let next = self.rules.step(action, PoolEvent::Length(list.len()));
        if next == PoolAction::Scan {
            let ticket: usize = self.draw();
            let states = statuses(&list);
            return match self.rules.select(&states, ticket) {
                Some(i) => {
                    let conn = share(&list[i]);
                    assert(self.finds(conn, list, states@, ticket, i as int));
                    Progress::Found(conn)
                },
                None => {
                    assert(self.finds_none(list, states@));
                    Progress::Next(self.rules.step(next, PoolEvent::Scanned(None)))
                },
            };
        }
        Progress::Next(next)
    }

    /// `m` is what is left to do after `list` was gone through at the given time, with its
    /// connections in the given states, where the list was or was not `replaced` then.
    pub open spec fn maintained(
        self,
        m: Maintenance<C>,
        list: Seq<Arc<C>>,
        states: Seq<ConnectionStatus>,
        now: u64,
        replaced: bool,
    ) -> bool {
        &&& states.len() == list.len()
        &&& m.closing@ == self.rules.dropped(list, states, now) + self.rules.invalid(
            list,
            states,
            now,
        )
        &&& m.grow == (replaced && self.rules.kept(list, states, now).len() < self.rules.min_size)
    }

    /// The list was offered for replacement: `ArcSwap::compare_and_swap` was given `new` to put in
    /// the place of `list`, and gave `previous` as the list that was there.
    pub closed spec fn offered(
        self,
        list: Arc<Vec<Arc<C>>>,
        new: Vec<Arc<C>>,
        previous: Arc<Vec<Arc<C>>>,
    ) -> bool {
        call_ensures(replace_list::<C>, (&self.connections, &list, new), previous)
    }

    /// `replaced` tells whether the list was replaced: `Arc::ptr_eq` gave it for the list that was
    /// loaded and the one that was there when a new one was offered.
    pub closed spec fn compared(
        self,
        list: Arc<Vec<Arc<C>>>,
        previous: Arc<Vec<Arc<C>>>,
        replaced: bool,
    ) -> bool {
        call_ensures(same_list::<C>, (&list, &previous), replaced)
    }

    /// `m` is what is left to do after `list`, which was loaded, was gone through at the given
    /// time with its connections seen in the given states, and what stays of it was offered in its
    /// place.
    pub open spec fn leaves(
        self,
        m: Maintenance<C>,
        now: u64,
        list: Arc<Vec<Arc<C>>>,
        states: Seq<ConnectionStatus>,
        new: Vec<Arc<C>>,
        previous: Arc<Vec<Arc<C>>>,
        replaced: bool,
    ) -> bool {
        &&& self.loaded(list)
        &&& all_observed(list@, states)
        &&& new@ == self.rules.kept(list@, states, now)
        &&& self.offered(list, new, previous)
        &&& self.compared(list, previous, replaced)
        &&& self.maintained(m, list@, states, now, replaced)
    }

    /// `m` can be left to do after a list that was loaded was gone through at the given time.
    pub open spec fn can_leave(self, m: Maintenance<C>, now: u64) -> bool {
        exists|
            list: Arc<Vec<Arc<C>>>,
            states: Seq<ConnectionStatus>,
            new: Vec<Arc<C>>,
            previous: Arc<Vec<Arc<C>>>,
            replaced: bool,
        | #[trigger]
            self.leaves(m, now, list, states, new, previous, replaced)
    }

    /// In `list`, which was loaded, the connection at place `i` was seen to be available and used
    /// after the given time.
    pub open spec fn used_later(
        self,
        now: u64,
        list: Arc<Vec<Arc<C>>>,
        states: Seq<ConnectionStatus>,
        i: int,
    ) -> bool {
        &&& self.loaded(list)
        &&& all_observed(list@, states)
        &&& 0 <= i < states.len()
        &&& states[i].available
        &&& states[i].last_used > now
    }

    /// A connection was seen that is available and was used after the given time.
    pub open spec fn seen_used_later(self, now: u64) -> bool {
        exists|list: Arc<Vec<Arc<C>>>, states: Seq<ConnectionStatus>, i: int| #[trigger]
            self.used_later(now, list, states, i)
    }

    /// Goes through the list at the given time. There is no outcome where a connection was used
    /// after that time.
    pub fn maintain(&self, now: u64) -> (r: Option<Maintenance<C>>)
        ensures
            match r {
                Some(m) => self.can_leave(m, now),
                None => self.seen_used_later(now),
            },
    {
        let list = load_list(&self.connections);
        assert(self.loaded(list));
        let states = statuses(&list);
        for i in 0..states.len()
            invariant
                self.loaded(list),
                all_observed(list@, states@),
                forall|j: int|
                    0 <= j < i && (#[trigger] states@[j]).available ==> states@[j].last_used <= now,
        {
            if states[i].available && states[i].last_used > now {
                assert(self.used_later(now, list, states@, i as int));
                return None;
            }
        }
        let upkeep = self.rules.maintain(&list, &states, now);
        let kept: usize = upkeep.kept.len();
        let mut closing: Vec<Arc<C>> = upkeep.dropped;
        let mut invalid: Vec<Arc<C>> = upkeep.invalid;
        closing.append(&mut invalid);
        let ghost new = upkeep.kept;
        let previous = replace_list(&self.connections, &list, upkeep.kept);
        assert(self.offered(list, new, previous));
        let replaced: bool = same_list(&list, &previous);
        assert(self.compared(list, previous, replaced));
        let m = Maintenance { closing, grow: self.rules.grows_after_upkeep(replaced, kept) };
        assert(self.maintained(m, list@, states@, now, replaced));
        assert(self.leaves(m, now, list, states@, new, previous, replaced));
        Some(m)
    }
}

/// A connection that a caller is given was seen to be available and to have room for another
/// query.
pub proof fn law_found_connection_is_usable<C: Connection>(pool: PipelinePool<C>, conn: Arc<C>)
    requires
        pool.can_find(conn),
    ensures
        exists|s: ConnectionStatus| #[trigger] observed(conn, s) && pool.rules.eligible(s),
{
    let (list, states, ticket, i) = choose|
        list: Arc<Vec<Arc<C>>>,
        states: Seq<ConnectionStatus>,
        ticket: usize,
        i: int,
    | #[trigger]
        pool.finds(conn, list, states, ticket, i);
    assert(observed(list@[i], states[i]));
}

/// Each new connection is listed or left over to be closed, once: for the list that was replaced,
/// what was put behind it and what is left over make up the new connections in order. None is left
/// over while there is room.
pub proof fn law_created_is_listed_or_left<C>(
    pool: PipelinePool<C>,
    new: Seq<Arc<C>>,
    left: Seq<Arc<C>>,
)
    requires
        pool.can_add(new, left),
    ensures
        exists|previous: Seq<Arc<C>>|
            (#[trigger] pool.rules.grown(previous, new)).take(previous.len() as int) == previous
                && pool.rules.grown(previous, new).skip(previous.len() as int) + left == new && (
            left.len() > 0 ==> pool.rules.grown(previous, new).len() >= pool.rules.max_size),
{
    let (created, previous) = choose|created: Vec<Arc<C>>, previous: Arc<Vec<Arc<C>>>|
        created@ == new && #[trigger] pool.added(created, previous, left);
    law_growth_loses_nothing(pool.rules, previous@, new);
    assert(pool.rules.grown(previous@, new).take(previous@.len() as int) == previous@);
}

} // verus!
