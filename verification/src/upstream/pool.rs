//! A pool of connections, each of which carries several queries at a time.
//!
//! The pool keeps a list of connections. Callers take the next connection that has room, in turn;
//! where there is none the list grows, up to its limit. From time to time the list is gone
//! through: what is broken or has been idle for long leaves it.

use std::sync::Arc;

use vstd::prelude::*;

use crate::error::DnsError;

verus! {

/// How long a caller that found no connection waits before it looks again, in milliseconds.
pub const POOL_RETRY_BACKOFF_MILLIS: u64 = 10;

/// A connection as it was found at one time.
#[derive(Clone, Copy, Debug, PartialEq, Eq, Structural)]
pub struct ConnectionStatus {
    /// Queries can go over it.
    pub available: bool,
    /// How many queries are on their way.
    pub using_count: u16,
    /// When it was last used, in milliseconds since the start of the program.
    pub last_used: u64,
}

/// The rules that a pool goes by.
#[derive(Clone, Copy, Debug, PartialEq, Eq, Structural)]
pub struct PoolRules {
    /// The largest number of connections.
    pub max_size: usize,
    /// The number of connections to keep.
    pub min_size: usize,
    /// The largest number of queries at a time over one connection.
    pub max_load: u16,
    /// How long a connection may be idle, in milliseconds.
    pub max_idle: u128,
}

/// What going through a list of connections gives.
pub struct Upkeep<C> {
    /// The list from now on.
    pub kept: Vec<Arc<C>>,
    /// What leaves it because it was idle, and is to be closed.
    pub dropped: Vec<Arc<C>>,
    /// What leaves it because it cannot be used, and is to be closed.
    pub invalid: Vec<Arc<C>>,
}

/// What adding new connections to a list gives.
pub struct Growth<C> {
    /// The list from now on.
    pub connections: Vec<Arc<C>>,
    /// What found no room, and is to be closed.
    pub leftover: Vec<Arc<C>>,
}

/// Another handle to the same connection: `Arc::clone`, which gives a pointer to the same value.
#[verifier::external_body]
pub(crate) fn share<C>(conn: &Arc<C>) -> (r: Arc<C>)
    ensures
        r == *conn,
{
    conn.clone()
}

/// What becomes of a connection when the list is gone through.
pub enum Fate {
    Keep,
    Drop,
    Invalid,
}

/// The items of `items` whose fate is `fate`, in order.
pub open spec fn with_fate<T>(items: Seq<T>, fates: Seq<Fate>, fate: Fate) -> Seq<T>
    decreases items.len(),
{
    if items.len() == 0 {
        Seq::empty()
    } else {
        let before = with_fate(items.drop_last(), fates.drop_last(), fate);
        if fates.last() == fate {
            before.push(items.last())
        } else {
            before
        }
    }
}

/// What the results that are `Ok` hold, in order.
pub open spec fn successes<T, E>(results: Seq<Result<T, E>>) -> Seq<T>
    decreases results.len(),
{
    if results.len() == 0 {
        Seq::empty()
    } else {
        match results.last() {
            Ok(value) => successes(results.drop_last()).push(value),
            Err(_) => successes(results.drop_last()),
        }
    }
}

/// How many of the dropped connections stay after all, so that enough are kept.
pub open spec fn spared(kept: nat, dropped: nat, min_size: nat) -> nat {
    if kept >= min_size {
        0
    } else if min_size - kept <= dropped {
        (min_size - kept) as nat
    } else {
        dropped
    }
}

impl PoolRules {
    /// The rules of a pool of at least `min_size` and at most `max_size` connections.
    pub fn new(min_size: usize, max_size: usize, max_load: u16, idle_time: u128) -> (r:
        PoolRules)
        ensures
            r == (PoolRules { max_size, min_size, max_load, max_idle: idle_time }),
    {
        PoolRules { max_size, min_size, max_load, max_idle: idle_time }
    }

    /// Whether a pool that was just made fills itself, before the first caller comes.
    pub fn prefills(&self) -> (r: bool)
        ensures
            r == (self.min_size > 0),
    {
        self.min_size > 0
    }

    /// What becomes of a connection at the given time: it is kept while queries are on their way
    /// over it or it was used not long ago.
    pub open spec fn fate(self, status: ConnectionStatus, now: u64) -> Fate {
        if !status.available {
            Fate::Invalid
        } else if now - status.last_used < self.max_idle || status.using_count > 0 {
            Fate::Keep
        } else {
            Fate::Drop
        }
    }

    /// What becomes of each connection.
    pub open spec fn fates(self, statuses: Seq<ConnectionStatus>, now: u64) -> Seq<Fate> {
        Seq::new(statuses.len(), |i: int| self.fate(statuses[i], now))
    }

    /// What stays in the list: the connections to keep, and after them the last of the idle ones,
    /// the very last first, as far as they are needed to keep the smallest number.
    pub open spec fn kept<T>(self, list: Seq<T>, statuses: Seq<ConnectionStatus>, now: u64) -> Seq<
        T,
    > {
        let keep = with_fate(list, self.fates(statuses, now), Fate::Keep);
        let idle = with_fate(list, self.fates(statuses, now), Fate::Drop);
        let n = spared(keep.len(), idle.len(), self.min_size as nat);
        keep + idle.skip(idle.len() - n).reverse()
    }

    /// What leaves the list because it was idle.
    pub open spec fn dropped<T>(
        self,
        list: Seq<T>,
        statuses: Seq<ConnectionStatus>,
        now: u64,
    ) -> Seq<T> {
        let keep = with_fate(list, self.fates(statuses, now), Fate::Keep);
        let idle = with_fate(list, self.fates(statuses, now), Fate::Drop);
        let n = spared(keep.len(), idle.len(), self.min_size as nat);
        idle.take(idle.len() - n)
    }

    /// What leaves the list because it cannot be used.
    pub open spec fn invalid<T>(
        self,
        list: Seq<T>,
        statuses: Seq<ConnectionStatus>,
        now: u64,
    ) -> Seq<T> {
        with_fate(list, self.fates(statuses, now), Fate::Invalid)
    }

    /// Goes through the list. What is broken leaves it, and what has been idle for too long; of
    /// the idle ones the last stay as far as they are needed to keep the smallest number.
    pub fn maintain<C>(
        &self,
        connections: &Vec<Arc<C>>,
        statuses: &Vec<ConnectionStatus>,
        now: u64,
    ) -> (r: Upkeep<C>)
        requires
            statuses.len() == connections.len(),
            forall|i: int|
                0 <= i < statuses.len() && (#[trigger] statuses@[i]).available
                    ==> statuses@[i].last_used <= now,
        ensures
            r.kept@ == self.kept(connections@, statuses@, now),
            r.dropped@ == self.dropped(connections@, statuses@, now),
            r.invalid@ == self.invalid(connections@, statuses@, now),
    {
        let mut kept: Vec<Arc<C>> = Vec::new();
        let mut dropped: Vec<Arc<C>> = Vec::new();
        let mut invalid: Vec<Arc<C>> = Vec::new();
        let ghost fates = self.fates(statuses@, now);
        for i in 0..connections.len()
            invariant
                fates == self.fates(statuses@, now),
                statuses.len() == connections.len(),
                forall|i: int|
                    0 <= i < statuses.len() && (#[trigger] statuses@[i]).available
                        ==> statuses@[i].last_used <= now,
                kept@ == with_fate(
                    connections@.take(i as int),
                    fates.take(i as int),
                    Fate::Keep,
                ),
                dropped@ == with_fate(
                    connections@.take(i as int),
                    fates.take(i as int),
                    Fate::Drop,
                ),
                invalid@ == with_fate(
                    connections@.take(i as int),
                    fates.take(i as int),
                    Fate::Invalid,
                ),
        {
            assert(connections@.take(i + 1).drop_last() =~= connections@.take(i as int));
            assert(fates.take(i + 1).drop_last() =~= fates.take(i as int));
            let status = statuses[i];
            let conn = share(&connections[i]);
            if status.available {
                let idle: u128 = (now - status.last_used) as u128;
                if idle < self.max_idle || status.using_count > 0 {
                    kept.push(conn);
                } else {
                    dropped.push(conn);
                }
            } else {
                invalid.push(conn);
            }
        }
        assert(connections@.take(connections@.len() as int) =~= connections@);
        assert(fates.take(connections@.len() as int) =~= fates);
        let ghost keep = kept@;
        let ghost idle = dropped@;
        assert(kept@ =~= keep + idle.skip(idle.len() as int).reverse());
        assert(dropped@ =~= idle.take(idle.len() as int));
        while kept.len() < self.min_size
            invariant_except_break
                kept.len() == keep.len() + (idle.len() - dropped.len()),
                dropped.len() <= idle.len(),
                dropped.len() < idle.len() ==> kept.len() <= self.min_size,
                kept@ == keep + idle.skip(dropped.len() as int).reverse(),
                dropped@ == idle.take(dropped.len() as int),
            ensures
                dropped.len() == idle.len() - spared(
                    keep.len(),
                    idle.len(),
                    self.min_size as nat,
                ),
                kept@ == keep + idle.skip(dropped.len() as int).reverse(),
                dropped@ == idle.take(dropped.len() as int),
            decreases dropped.len(),
        {
            let ghost n = dropped.len() as int;
            match dropped.pop() {
                Some(conn) => {
                    kept.push(conn);
                    assert(kept@ =~= keep + idle.skip(n - 1).reverse());
                    assert(dropped@ =~= idle.take(n - 1));
                },
                None => {
                    break ;
                },
            }
        }
        Upkeep { kept, dropped, invalid }
    }

    /// Whether the pool grows after the list was gone through: where the new list took the place
    /// of the old one, and is too short.
    pub fn grows_after_upkeep(&self, replaced: bool, kept: usize) -> (r: bool)
        ensures
            r == (replaced && kept < self.min_size),
    {
        replaced && kept < self.min_size
    }

    /// A connection takes another query.
    pub open spec fn eligible(self, status: ConnectionStatus) -> bool {
        status.available && status.using_count < self.max_load
    }

    /// The connection that a caller with the given ticket takes: going round from the ticket's
    /// place, the first that takes another query.
    pub open spec fn chosen(self, statuses: Seq<ConnectionStatus>, ticket: nat, r: int) -> bool {
        exists|offset: int| #[trigger]
            self.chosen_at(statuses, ticket, offset) && r == (ticket + offset)
                % statuses.len() as int
    }

    /// Going round from the ticket's place, the first connection that takes another query is
    /// `offset` steps on.
    pub open spec fn chosen_at(
        self,
        statuses: Seq<ConnectionStatus>,
        ticket: nat,
        offset: int,
    ) -> bool {
        &&& 0 <= offset < statuses.len()
        &&& self.eligible(statuses[(ticket + offset) % statuses.len() as int])
        &&& forall|o: int|
            0 <= o < offset ==> !self.eligible(
                statuses[#[trigger] ((ticket + o) % statuses.len() as int)],
            )
    }

    /// Finds the connection for a caller with the given ticket. There is one if and only if one
    /// of the connections takes another query.
    pub fn select(&self, statuses: &Vec<ConnectionStatus>, ticket: usize) -> (r: Option<usize>)
        ensures
            match r {
                Some(i) => i < statuses.len() && self.chosen(statuses@, ticket as nat, i as int),
                None => forall|i: int|
                    0 <= i < statuses.len() ==> !self.eligible(#[trigger] statuses@[i]),
            },
    {
        let len: usize = statuses.len();
        if len == 0 {
            return None;
        }
        let start: usize = ticket % len;
        for offset in 0..len
            invariant
                len == statuses.len(),
                start == ticket % len,
                len > 0,
                forall|o: int|
                    0 <= o < offset ==> !self.eligible(
                        statuses@[#[trigger] ((ticket + o) % len as int)],
                    ),
        {
            proof {
                lemma_ring(ticket as int, offset as int, len as int);
            }
            let idx: usize = if offset < len - start {
                start + offset
            } else {
                offset - (len - start)
            };
            let status = statuses[idx];
            if status.available && status.using_count < self.max_load {
                assert(self.chosen_at(statuses@, ticket as nat, offset as int));
                return Some(idx);
            }
        }
        assert forall|i: int| 0 <= i < statuses.len() implies !self.eligible(
            #[trigger] statuses@[i],
        ) by {
            let o: int = if i >= start {
                i - start
            } else {
                i - start + len
            };
            lemma_ring(ticket as int, o, len as int);
            assert((ticket + o) % len as int == i);
        }
        None
    }

    /// How many connections to create where there are `len`: up to the smallest number, or one
    /// more, and never beyond the largest.
    pub open spec fn expansion(self, len: nat) -> int {
        let target = if len >= self.min_size {
            1
        } else {
            self.min_size - len
        };
        if target <= self.max_size - len {
            target
        } else {
            self.max_size - len
        }
    }

    /// Settles how many connections to create where there are `len`, if there may be more.
    pub fn expansion_count(&self, len: usize) -> (r: Result<usize, DnsError>)
        ensures
            match r {
                Ok(n) => len < self.max_size && n == self.expansion(len as nat),
                Err(e) => {
                    &&& len >= self.max_size
                    &&& e matches DnsError::Protocol(text)
                    &&& text@ == "Connection pool already at maximum size"@
                },
            },
    {
        if len >= self.max_size {
            return Err(DnsError::Protocol("Connection pool already at maximum size".to_owned()));
        }
        let target: usize = if len >= self.min_size {
            1
        } else {
            self.min_size - len
        };
        let space: usize = self.max_size - len;
        if target <= space {
            Ok(target)
        } else {
            Ok(space)
        }
    }

    /// Gathers the connections that could be created, in the order in which they came.
    pub fn created<C>(&self, results: &Vec<Result<Arc<C>, DnsError>>) -> (r: Vec<Arc<C>>)
        ensures
            r@ == successes(results@),
    {
        let mut created: Vec<Arc<C>> = Vec::new();
        for i in 0..results.len()
            invariant
                created@ == successes(results@.take(i as int)),
        {
            assert(results@.take(i + 1).drop_last() =~= results@.take(i as int));
            if let Ok(conn) = &results[i] {
                created.push(share(conn));
            }
        }
        assert(results@.take(results@.len() as int) =~= results@);
        created
    }

    /// How many of `created` new connections find room where there are `len`.
    pub open spec fn room(self, len: nat, created: nat) -> nat {
        if len >= self.max_size {
            0
        } else if created <= self.max_size - len {
            created
        } else {
            (self.max_size - len) as nat
        }
    }

    /// The list with the new connections added, in order, as far as there is room.
    pub open spec fn grown<T>(self, list: Seq<T>, created: Seq<T>) -> Seq<T> {
        list + created.take(self.room(list.len(), created.len()) as int)
    }

    /// The new connections that find no room.
    pub open spec fn leftover<T>(self, list: Seq<T>, created: Seq<T>) -> Seq<T> {
        created.skip(self.room(list.len(), created.len()) as int)
    }

    /// Adds new connections to the list, in order, as far as there is room.
    pub fn insert_created<C>(&self, connections: &Vec<Arc<C>>, created: &Vec<Arc<C>>) -> (r:
        Growth<C>)
        ensures
            r.connections@ == self.grown(connections@, created@),
            r.leftover@ == self.leftover(connections@, created@),
    {
        let len: usize = connections.len();
        let added: usize = if len >= self.max_size {
            0
        } else if created.len() <= self.max_size - len {
            created.len()
        } else {
            self.max_size - len
        };
        assert(added == self.room(connections@.len(), created@.len()));
        let mut all: Vec<Arc<C>> = Vec::new();
        for i in 0..len
            invariant
                len == connections.len(),
                all@ == connections@.take(i as int),
        {
            all.push(share(&connections[i]));
            assert(all@ =~= connections@.take(i + 1));
        }
        assert(all@ =~= connections@ + created@.take(0));
        for i in 0..added
            invariant
                added <= created.len(),
                all@ == connections@ + created@.take(i as int),
        {
            all.push(share(&created[i]));
            assert(all@ =~= connections@ + created@.take(i + 1));
        }
        let mut leftover: Vec<Arc<C>> = Vec::new();
        for i in added..created.len()
            invariant
                added <= created.len(),
                leftover@ == created@.subrange(added as int, i as int),
        {
            leftover.push(share(&created[i]));
            assert(leftover@ =~= created@.subrange(added as int, i + 1));
        }
        Growth { connections: all, leftover }
    }
}

/// Going `o` steps round a ring of `n` places, from the place of `t`.
pub proof fn lemma_ring(t: int, o: int, n: int)
    requires
        0 <= t,
        0 <= o < n,
    ensures
        0 <= t % n < n,
        (t + o) % n == (if t % n + o < n {
            t % n + o
        } else {
            t % n + o - n
        }),
{
    let s = t % n;
    assert(0 <= s < n) by (nonlinear_arith)
        requires
            s == t % n,
            0 < n,
    ;
    assert((t + o) % n == (s + o) % n) by {
        vstd::arithmetic::div_mod::lemma_add_mod_noop(t, o, n);
        vstd::arithmetic::div_mod::lemma_small_mod(o as nat, n as nat);
    }
    if s + o < n {
        vstd::arithmetic::div_mod::lemma_small_mod((s + o) as nat, n as nat);
    } else {
        vstd::arithmetic::div_mod::lemma_mod_sub_multiples_vanish(s + o, n);
        vstd::arithmetic::div_mod::lemma_small_mod((s + o - n) as nat, n as nat);
    }
}

/// What a caller that looks for a connection does next.
#[derive(Clone, Copy, Debug, PartialEq, Eq, Structural)]
pub enum PoolAction {
    /// Load the list and see how long it is.
    Load,
    /// Take a ticket and look through the list with it.
    Scan,
    /// See how long the list is now, as it may have grown.
    Recount,
    /// See how long the list is before it grows.
    CountBefore,
    /// Let the list grow. Before, its length was `before`. Where `urgent`, there is no connection
    /// at all, and the caller fails if this fails.
    Expand { before: usize, urgent: bool },
    /// See how long the list is after it was to grow.
    CountAfter { before: usize },
    /// Let others run.
    Yield,
    /// Wait for a while.
    Sleep,
    /// Stop, with the connection at the given place of the list that was looked through.
    Take(usize),
    /// Stop, with the error that letting the list grow gave.
    Fail,
}

/// What came of an action.
#[derive(Clone, Copy, Debug, PartialEq, Eq, Structural)]
pub enum PoolEvent {
    /// `Load`, `Recount`, `CountBefore` and `CountAfter`: the length of the list.
    Length(usize),
    /// `Scan`: the place of the connection that was found, if one was.
    Scanned(Option<usize>),
    /// `Expand`: whether there was no error.
    Expanded(bool),
    /// `Yield` and `Sleep`: it is over.
    Resumed,
}

/// `event` can come of `action`.
pub open spec fn pool_event_fits(action: PoolAction, event: PoolEvent) -> bool {
    match event {
        PoolEvent::Length(_) => {
            ||| action == PoolAction::Load
            ||| action == PoolAction::Recount
            ||| action == PoolAction::CountBefore
            ||| action is CountAfter
        },
        PoolEvent::Scanned(_) => action == PoolAction::Scan,
        PoolEvent::Expanded(_) => action is Expand,
        PoolEvent::Resumed => action == PoolAction::Yield || action == PoolAction::Sleep,
    }
}

impl PoolRules {
    /// What a caller does after `event` has come of `action`.
    pub open spec fn next_action(self, action: PoolAction, event: PoolEvent) -> PoolAction {
        match (action, event) {
            (PoolAction::Load, PoolEvent::Length(n)) => if n == 0 {
                PoolAction::Expand { before: 0, urgent: true }
            } else {
                PoolAction::Scan
            },
            (PoolAction::Scan, PoolEvent::Scanned(Some(i))) => PoolAction::Take(i),
            (PoolAction::Scan, PoolEvent::Scanned(None)) => PoolAction::Recount,
            (PoolAction::Recount, PoolEvent::Length(n)) => if n < self.max_size {
                PoolAction::CountBefore
            } else {
                PoolAction::Yield
            },
            (PoolAction::CountBefore, PoolEvent::Length(n)) => PoolAction::Expand {
                before: n,
                urgent: false,
            },
            (PoolAction::Expand { before, .. }, PoolEvent::Expanded(true)) =>
                PoolAction::CountAfter { before },
            (PoolAction::Expand { urgent, .. }, PoolEvent::Expanded(false)) => if urgent {
                PoolAction::Fail
            } else {
                PoolAction::Sleep
            },
            (PoolAction::CountAfter { before }, PoolEvent::Length(n)) => if n > before {
                PoolAction::Yield
            } else {
                PoolAction::Sleep
            },
            _ => PoolAction::Load,
        }
    }

    /// Where a caller that looks for a connection begins.
    pub fn start(&self) -> (r: PoolAction)
        ensures
            r == PoolAction::Load,
    {
        PoolAction::Load
    }

    /// Takes in what came of a caller's action and settles on the next one.
    pub fn step(&self, action: PoolAction, event: PoolEvent) -> (r: PoolAction)
        requires
            pool_event_fits(action, event),
        ensures
            r == self.next_action(action, event),
    {
        match (action, event) {
            (PoolAction::Load, PoolEvent::Length(n)) => if n == 0 {
                PoolAction::Expand { before: 0, urgent: true }
            } else {
                PoolAction::Scan
            },
            (PoolAction::Scan, PoolEvent::Scanned(found)) => match found {
                Some(i) => PoolAction::Take(i),
                None => PoolAction::Recount,
            },
            (PoolAction::Recount, PoolEvent::Length(n)) => if n < self.max_size {
                PoolAction::CountBefore
            } else {
                PoolAction::Yield
            },
            (PoolAction::CountBefore, PoolEvent::Length(n)) => PoolAction::Expand {
                before: n,
                urgent: false,
            },
            (PoolAction::Expand { before, urgent }, PoolEvent::Expanded(done)) => if done {
                PoolAction::CountAfter { before }
            } else if urgent {
                PoolAction::Fail
            } else {
                PoolAction::Sleep
            },
            (PoolAction::CountAfter { before }, PoolEvent::Length(n)) => if n > before {
                PoolAction::Yield
            } else {
                PoolAction::Sleep
            },
            _ => PoolAction::Load,
        }
    }
}

} // verus!
