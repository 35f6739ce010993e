//! How the callers of one resolver share its state.
//!
//! The callers run side by side. Each takes its steps as `Resolution` prescribes them; what a step
//! reads, and what it leaves, is the state that all of them share. The laws here hold of any
//! number of callers and of any order of their steps.

use vstd::prelude::*;

use crate::addr::IpAddr;
use crate::upstream::bootstrap::{
    answer_address, fits, found_address, query_effect, Answer, CacheData, GetAction, GetEvent,
    GetOutcome, Resolution, STATE_CACHED, STATE_FAILED, STATE_NONE, STATE_QUERYING,
};

verus! {

/// One caller among others.
pub struct Caller {
    pub at: Resolution,
    /// The address that the caller's query has found and shared, where the state is not yet shared.
    pub written: Option<IpAddr>,
}

/// What the callers of a resolver share, and where each of them is.
pub struct World {
    pub state: u8,
    pub cache: Option<CacheData>,
    pub callers: Map<int, Caller>,
}

/// What can happen next. The number says to which caller it happens.
pub enum Step {
    /// A caller comes.
    Arrive(int),
    /// A caller does what it has to do next, anything but a query.
    Act(int, GetEvent),
    /// A caller's query shares the address that it has found.
    Write(int, CacheData),
    /// A caller's query shares the state.
    Publish(int, u8),
    /// A caller goes away, wherever it is: it has its answer, or it was cancelled.
    Leave(int),
}

impl World {
    /// Before the first caller.
    pub open spec fn initial() -> World {
        World { state: STATE_NONE, cache: None, callers: Map::empty() }
    }

    pub open spec fn present(self, c: int) -> bool {
        self.callers.dom().contains(c)
    }

    /// The caller has claimed the query, and its outcome is not published.
    pub open spec fn querying(self, c: int) -> bool {
        self.present(c) && self.callers[c].at.action == GetAction::RunQuery
    }

    /// `event` is what comes of the caller's action in this world, whatever the clock shows.
    pub open spec fn truthful(self, c: int, event: GetEvent) -> bool {
        let action = self.callers[c].at.action;
        &&& fits(action, event)
        &&& match event {
            GetEvent::Loaded(state) => state == self.state,
            GetEvent::Cache { data, now } => data == self.cache,
            GetEvent::Exchanged(done) => action matches GetAction::Exchange { from, to } && done
                == (self.state == from),
            GetEvent::QueryFinished { .. } => false,
            _ => true,
        }
    }

    /// The step can happen in this world.
    pub open spec fn enabled(self, step: Step) -> bool {
        match step {
            Step::Arrive(c) => !self.present(c),
            Step::Act(c, event) => self.present(c) && self.truthful(c, event),
            Step::Write(c, data) => self.querying(c) && self.callers[c].written is None,
            Step::Publish(c, state) => self.querying(c) && state == (
            if self.callers[c].written is Some {
                STATE_CACHED
            } else {
                STATE_FAILED
            }),
            Step::Leave(c) => self.present(c),
        }
    }

    /// The world after the step.
    pub open spec fn after(self, step: Step) -> World {
        match step {
            Step::Arrive(c) => World {
                callers: self.callers.insert(
                    c,
                    Caller { at: Resolution::start(), written: None },
                ),
                ..self
            },
            Step::Act(c, event) => World {
                state: match (self.callers[c].at.action, event) {
                    (GetAction::Exchange { from, to }, GetEvent::Exchanged(true)) => to,
                    _ => self.state,
                },
                callers: self.callers.insert(
                    c,
                    Caller { at: self.callers[c].at.next(event), written: None },
                ),
                ..self
            },
            Step::Write(c, data) => World {
                cache: Some(data),
                callers: self.callers.insert(
                    c,
                    Caller { at: self.callers[c].at, written: Some(data.ip) },
                ),
                ..self
            },
            Step::Publish(c, state) => World {
                state,
                callers: self.callers.insert(
                    c,
                    Caller {
                        at: self.callers[c].at.next(
                            GetEvent::QueryFinished { found: self.callers[c].written },
                        ),
                        written: None,
                    },
                ),
                ..self
            },
            Step::Leave(c) => World {
                state: if self.querying(c) {
                    STATE_FAILED
                } else {
                    self.state
                },
                callers: self.callers.remove(c),
                ..self
            },
        }
    }

    /// What holds at any time: at most one caller queries, and one does if and only if the shared
    /// state says so; where the state says that an address is cached, there is one.
    pub open spec fn sound(self) -> bool {
        &&& self.state <= STATE_FAILED
        &&& forall|c: int| #[trigger] self.present(c) ==> self.callers[c].at.well_formed()
        &&& forall|c: int, d: int| #[trigger]
            self.querying(c) && #[trigger] self.querying(d) ==> c == d
        &&& forall|c: int| #[trigger] self.querying(c) ==> self.state == STATE_QUERYING
        &&& self.state == STATE_QUERYING ==> exists|c: int| #[trigger] self.querying(c)
        &&& self.state == STATE_CACHED ==> self.cache is Some
        &&& forall|c: int| #[trigger]
            self.querying(c) && self.callers[c].written is Some ==> self.cache is Some
    }

    /// The world after the steps, in turn.
    pub open spec fn run(self, steps: Seq<Step>) -> World
        decreases steps.len(),
    {
        if steps.len() == 0 {
            self
        } else {
            self.run(steps.drop_last()).after(steps.last())
        }
    }

    /// Each of the steps can happen when its turn comes.
    pub open spec fn possible(self, steps: Seq<Step>) -> bool
        decreases steps.len(),
    {
        steps.len() == 0 || {
            &&& self.possible(steps.drop_last())
            &&& self.run(steps.drop_last()).enabled(steps.last())
        }
    }
}

/// A caller that does not query does not start to by a step of another kind than claiming.
proof fn lemma_act(w: World, c: int, event: GetEvent)
    requires
        w.sound(),
        w.enabled(Step::Act(c, event)),
    ensures
        w.after(Step::Act(c, event)).sound(),
{
    let n = w.after(Step::Act(c, event));
    let action = w.callers[c].at.action;
    assert(w.present(c));
    assert(!w.querying(c));
    assert(n.callers[c].at == w.callers[c].at.next(event));
    assert(n.callers[c].at.well_formed());
    assert forall|d: int| #[trigger] n.present(d) implies n.callers[d].at.well_formed() by {
        assert(w.present(d));
    }
    assert forall|d: int| d != c implies n.querying(d) == w.querying(d) by {
        assert(n.present(d) == w.present(d));
    }
    if n.querying(c) {
        assert(action == GetAction::Exchange { from: STATE_NONE, to: STATE_QUERYING });
        assert(w.state == STATE_NONE && n.state == STATE_QUERYING);
    } else if w.state == STATE_QUERYING {
        let d = choose|d: int| #[trigger] w.querying(d);
        assert(n.state == STATE_QUERYING);
        assert(n.querying(d));
    }
}

proof fn lemma_others(w: World, c: int, step: Step)
    requires
        w.sound(),
        w.enabled(step),
        step matches Step::Arrive(d) ==> d == c,
        step matches Step::Write(d, _) ==> d == c,
        step matches Step::Publish(d, _) ==> d == c,
        step matches Step::Leave(d) ==> d == c,
        step !is Act,
    ensures
        w.after(step).sound(),
{
    let n = w.after(step);
    assert forall|d: int| d != c implies n.querying(d) == w.querying(d) && n.present(d)
        == w.present(d) by {
    }
    assert forall|d: int| #[trigger] n.present(d) implies n.callers[d].at.well_formed() by {
        if d != c {
            assert(w.present(d));
        } else if step is Write || step is Publish {
            assert(w.present(c));
        }
    }
    if n.state == STATE_QUERYING {
        let d = choose|d: int| #[trigger] w.querying(d);
        assert(n.querying(d));
    }
}

/// Only one query is performed at a time, and the shared state tells whether one is: each step
/// that can happen keeps the invariant.
pub proof fn law_step_keeps_invariant(w: World, step: Step)
    requires
        w.sound(),
        w.enabled(step),
    ensures
        w.after(step).sound(),
{
    match step {
        Step::Arrive(c) => lemma_others(w, c, step),
        Step::Act(c, event) => lemma_act(w, c, event),
        Step::Write(c, _) => lemma_others(w, c, step),
        Step::Publish(c, _) => lemma_others(w, c, step),
        Step::Leave(c) => lemma_others(w, c, step),
    }
}

/// The invariant holds at any time, whatever the callers do.
pub proof fn law_invariant_always_holds(steps: Seq<Step>)
    requires
        World::initial().possible(steps),
    ensures
        World::initial().run(steps).sound(),
    decreases steps.len(),
{
    if steps.len() > 0 {
        law_invariant_always_holds(steps.drop_last());
        law_step_keeps_invariant(World::initial().run(steps.drop_last()), steps.last());
    }
}

/// While one caller queries, a caller that looks at the shared state, or tries to change it, waits
/// for the outcome and starts no query of its own.
pub proof fn law_others_wait(w: World, c: int, d: int, event: GetEvent)
    requires
        w.sound(),
        w.querying(d),
        w.enabled(Step::Act(c, event)),
        w.callers[c].at.action is LoadState || w.callers[c].at.action is Exchange,
    ensures
        w.after(Step::Act(c, event)).callers[c].at.action == GetAction::WaitQueryDone,
        w.after(Step::Act(c, event)).state == w.state,
        w.after(Step::Act(c, event)).querying(d),
{
    assert(w.state == STATE_QUERYING);
    assert(w.present(c));
    assert(c != d);
}

/// A caller that goes away in the midst of its query leaves the state of a failed query, and
/// nobody querying: the next caller can try again.
pub proof fn law_abandoned_query_is_released(w: World, c: int)
    requires
        w.sound(),
        w.querying(c),
    ensures
        w.enabled(Step::Leave(c)),
        w.after(Step::Leave(c)).state == STATE_FAILED,
        w.after(Step::Leave(c)).cache == w.cache,
        forall|d: int| !w.after(Step::Leave(c)).querying(d),
{
    assert forall|d: int| !w.after(Step::Leave(c)).querying(d) by {
        if w.after(Step::Leave(c)).querying(d) {
            assert(w.querying(d));
        }
    }
}

/// What a query leaves behind is shared by `Write`, where it found an address, and `Publish`.
pub open spec fn query_steps(c: int, answers: Option<Seq<Answer>>, now: u64) -> Seq<Step> {
    let effect = query_effect(answers, now);
    match effect.cache {
        Some(data) => seq![Step::Write(c, data), Step::Publish(c, effect.state)],
        None => seq![Step::Publish(c, effect.state)],
    }
}

/// A query that ends shares its outcome, whatever the answer: the steps can happen, and after
/// them the shared state and address are what the query leaves behind. The caller that made it
/// returns the address that it found, whatever its time to live, or looks again.
pub proof fn law_query_shares_its_effect(
    w: World,
    c: int,
    answers: Option<Seq<Answer>>,
    now: u64,
)
    requires
        w.sound(),
        w.querying(c),
        w.callers[c].written is None,
    ensures
        ({
            let effect = query_effect(answers, now);
            let n = w.run(query_steps(c, answers, now));
            &&& w.possible(query_steps(c, answers, now))
            &&& n.state == effect.state
            &&& n.cache == (if effect.cache is Some {
                effect.cache
            } else {
                w.cache
            })
            &&& n.callers[c].at.action == (match found_address(effect) {
                Some(ip) => GetAction::Return(GetOutcome::Resolved(ip)),
                None => GetAction::CheckDeadline,
            })
        }),
{
    let effect = query_effect(answers, now);
    let steps = query_steps(c, answers, now);
    reveal_with_fuel(World::run, 3);
    reveal_with_fuel(World::possible, 3);
    if let Some(data) = effect.cache {
        assert(steps.drop_last() =~= seq![Step::Write(c, data)]);
        assert(steps.drop_last().drop_last() =~= Seq::<Step>::empty());
        assert(steps.last() == Step::Publish(c, effect.state));
        assert(steps.drop_last().last() == Step::Write(c, data));
        assert(w.after(Step::Write(c, data)).querying(c));
    } else {
        assert(steps.drop_last() =~= Seq::<Step>::empty());
        assert(steps.last() == Step::Publish(c, effect.state));
    }
}

/// The address that a query found is the address that other and later callers get until its time
/// to live is over, with no query of their own; from then on they ask for a new one.
pub proof fn law_cached_address_is_served(
    answers: Seq<Answer>,
    now: u64,
    ip: IpAddr,
    ttl: u32,
    r: Resolution,
    later: u64,
)
    requires
        answer_address(answers) == Some((ip, ttl)),
        now + ttl * 1000 <= u64::MAX,
        r.action == GetAction::LoadState,
    ensures
        ({
            let effect = query_effect(Some(answers), now);
            let seen = r.next(GetEvent::Loaded(effect.state)).next(
                GetEvent::Cache { data: effect.cache, now: later },
            );
            seen.action == (if later < now + ttl * 1000 {
                GetAction::Return(GetOutcome::Resolved(ip))
            } else {
                GetAction::Exchange { from: STATE_CACHED, to: STATE_NONE }
            })
        }),
{
}

/// A query whose answer gives an address resolves the name for the caller that made it, even if
/// the address may not live at all.
pub proof fn law_successful_query_resolves(
    w: World,
    c: int,
    answers: Seq<Answer>,
    now: u64,
    ip: IpAddr,
    ttl: u32,
)
    requires
        w.sound(),
        w.querying(c),
        w.callers[c].written is None,
        answer_address(answers) == Some((ip, ttl)),
    ensures
        w.run(query_steps(c, Some(answers), now)).callers[c].at.action == GetAction::Return(
            GetOutcome::Resolved(ip),
        ),
{
    law_query_shares_its_effect(w, c, Some(answers), now);
}

/// No caller is given an address but one that is shared and not out of date, or one that its own
/// query has found.
pub proof fn law_resolved_address_is_fresh(w: World, step: Step, c: int, ip: IpAddr)
    requires
        w.sound(),
        w.enabled(step),
        w.after(step).present(c),
        w.after(step).callers[c].at.action == GetAction::Return(GetOutcome::Resolved(ip)),
        w.present(c) ==> w.callers[c].at.action != GetAction::Return(GetOutcome::Resolved(ip)),
    ensures
        match step {
            Step::Act(d, GetEvent::Cache { data, now }) => d == c && (w.cache matches Some(shared)
                && shared.ip == ip && now < shared.expires_at),
            Step::Publish(d, _) => d == c && w.querying(c) && w.callers[c].written == Some(ip),
            _ => false,
        },
{
}

/// The caller after the events, in turn.
pub open spec fn led_by(events: Seq<GetEvent>) -> Resolution
    decreases events.len(),
{
    if events.len() == 0 {
        Resolution::start()
    } else {
        led_by(events.drop_last()).next(events.last())
    }
}

/// Each of the events can come of what the caller does when its turn comes.
pub open spec fn course(events: Seq<GetEvent>) -> bool
    decreases events.len(),
{
    events.len() == 0 || {
        &&& course(events.drop_last())
        &&& fits(led_by(events.drop_last()).action, events.last())
    }
}

/// How often the caller has seen that the last query failed.
pub open spec fn failures_seen(events: Seq<GetEvent>) -> nat
    decreases events.len(),
{
    if events.len() == 0 {
        0
    } else {
        failures_seen(events.drop_last()) + if events.last() == GetEvent::Loaded(STATE_FAILED) {
            1nat
        } else {
            0
        }
    }
}

/// A caller does not try for ever: it gives up when it sees a failure for the fifth time, at once
/// and not before, and says that it made four attempts.
pub proof fn law_retries_are_bounded(events: Seq<GetEvent>)
    requires
        course(events),
    ensures
        led_by(events).well_formed(),
        failures_seen(events) <= 5,
        failures_seen(events) == 5 <==> led_by(events).action == GetAction::Return(
            GetOutcome::Exhausted(4),
        ),
        failures_seen(events) <= 4 ==> led_by(events).failed_count == failures_seen(events),
    decreases events.len(),
{
    if events.len() > 0 {
        law_retries_are_bounded(events.drop_last());
    }
}

} // verus!
