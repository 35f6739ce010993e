//! Resolution of the host name of an upstream server.
//!
//! One address is kept for a name until its time to live is over. Any number of callers may ask
//! for it at the same time; they share a state and go through it by atomic steps, so that one of
//! them at a time queries the name while the others wait for the outcome.

use vstd::prelude::*;

use crate::addr::IpAddr;
use crate::error::DnsError;
use crate::proto::{DNSClass, Message, MessageType, Name, Opcode, Question, RecordType};
use crate::text::{decimal, push_decimal};

verus! {

/// Nothing is known; a query is needed.
pub const STATE_NONE: u8 = 0;

/// A caller is querying the name.
pub const STATE_QUERYING: u8 = 1;

/// An address is cached.
pub const STATE_CACHED: u8 = 2;

/// The last query failed.
pub const STATE_FAILED: u8 = 3;

/// A resolved address.
#[derive(Clone, Copy, Debug, PartialEq, Eq)]
pub struct CacheData {
    pub ip: IpAddr,
    /// When the address goes out of date, in milliseconds since the start of the program.
    pub expires_at: u64,
}

/// What became of the upstream server that queries go to.
pub enum UpstreamSetup<U> {
    /// Its address cannot be read, for the given reason.
    BadAddress(String),
    /// It cannot be set up.
    Failed(DnsError),
    /// It is ready.
    Ready(U),
}

/// The resolver of one host name.
pub struct Bootstrap<U> {
    /// Where queries go to.
    pub upstream: U,
    /// The state that callers share, at the start.
    pub state: u8,
    /// The address that callers share, at the start.
    pub cache: Option<CacheData>,
    /// The query, but for its number.
    pub message: Message,
    /// The name that is resolved.
    pub domain: String,
}

/// The text of the error for `what` that cannot be read for the given reason.
pub open spec fn invalid_text(what: Seq<char>, value: Seq<char>, reason: Seq<char>) -> Seq<char> {
    what + " '"@ + value + "': "@ + reason
}

fn invalid_error(what: &str, value: &str, reason: &str) -> (r: String)
    ensures
        r@ == invalid_text(what@, value@, reason@),
{
    let mut text: String = what.to_owned();
    text.append(" '");
    text.append(value);
    text.append("': ");
    text.append(reason);
    text
}

/// The record type to ask for: `AAAA` where IPv6 is preferred, else `A`.
pub open spec fn query_type(ip_version: Option<u8>) -> RecordType {
    if ip_version == Some(6u8) {
        RecordType::AAAA
    } else {
        RecordType::A
    }
}

/// `message` is a recursive query with the given number that asks for one record type of `name`.
pub open spec fn is_query(message: Message, id: u16, name: Name, qtype: RecordType) -> bool {
    &&& message.id == id
    &&& message.message_type == MessageType::Query
    &&& message.opcode == Opcode::Query
    &&& message.recursion_desired
    &&& message.questions@ == seq![Question { name, qtype, qclass: DNSClass::IN }]
    &&& message.edns is None
}

fn build_query(id: u16, name: Name, qtype: RecordType) -> (r: Message)
    ensures
        is_query(r, id, name, qtype),
{
    let mut questions: Vec<Question> = Vec::new();
    questions.push(Question { name, qtype, qclass: DNSClass::IN });
    let message = Message {
        id,
        message_type: MessageType::Query,
        opcode: Opcode::Query,
        recursion_desired: true,
        questions,
        edns: None,
    };
    assert(message.questions@ =~= seq![Question { name, qtype, qclass: DNSClass::IN }]);
    message
}

impl<U> Bootstrap<U> {
    /// The resolver is as it was made: for `name`, with nothing known of its address.
    pub open spec fn fresh(self, name: Name, domain: Seq<char>, ip_version: Option<u8>) -> bool {
        &&& self.state == STATE_NONE
        &&& self.cache is None
        &&& is_query(self.message, 0, name, query_type(ip_version))
        &&& self.domain@ == domain
    }

    /// Makes the resolver of `domain`. `name` is what parsing `domain` gave, `setup` what setting
    /// up the server at `bootstrap_server` gave; where both failed, the name counts.
    pub fn new(
        name: Result<Name, String>,
        setup: UpstreamSetup<U>,
        bootstrap_server: &str,
        domain: &str,
        ip_version: Option<u8>,
    ) -> (r: Result<Bootstrap<U>, DnsError>)
        ensures
            match (name, setup) {
                (Err(reason), _) => {
                    &&& r matches Err(DnsError::Plugin(text))
                    &&& text@ == invalid_text("invalid bootstrap target domain"@, domain@, reason@)
                },
                (Ok(_), UpstreamSetup::BadAddress(reason)) => {
                    &&& r matches Err(DnsError::Plugin(text))
                    &&& text@ == invalid_text(
                        "invalid bootstrap upstream"@,
                        bootstrap_server@,
                        reason@,
                    )
                },
                (Ok(_), UpstreamSetup::Failed(e)) => r == Err::<Bootstrap<U>, DnsError>(e),
                (Ok(n), UpstreamSetup::Ready(u)) => {
                    &&& r matches Ok(b)
                    &&& b.upstream == u
                    &&& b.fresh(n, domain@, ip_version)
                },
            },
    {
        let parsed: Name = match name {
            Ok(parsed) => parsed,
            Err(reason) => return Err(
                DnsError::Plugin(
                    invalid_error("invalid bootstrap target domain", domain, reason.as_str()),
                ),
            ),
        };
        let qtype: RecordType = match ip_version {
            Some(6) => RecordType::AAAA,
            _ => RecordType::A,
        };
        let message = build_query(0, parsed, qtype);
        match setup {
            UpstreamSetup::BadAddress(reason) => Err(
                DnsError::Plugin(
                    invalid_error("invalid bootstrap upstream", bootstrap_server, reason.as_str()),
                ),
            ),
            UpstreamSetup::Failed(e) => Err(e),
            UpstreamSetup::Ready(upstream) => Ok(
                Bootstrap {
                    upstream,
                    state: STATE_NONE,
                    cache: None,
                    message,
                    domain: domain.to_owned(),
                },
            ),
        }
    }
}

/// How a caller's resolution ends.
#[derive(Clone, Copy, Debug, PartialEq, Eq)]
pub enum GetOutcome {
    /// With an address.
    Resolved(IpAddr),
    /// At the caller's deadline.
    TimedOut,
    /// In failure, after the given number of attempts.
    Exhausted(u32),
}

/// What a caller does next. Each step touches the shared state at most once.
#[derive(Clone, Copy, Debug, PartialEq, Eq)]
pub enum GetAction {
    /// See whether the deadline has passed.
    CheckDeadline,
    /// Load the shared state.
    LoadState,
    /// Read the shared address, and the time.
    ReadCache,
    /// Replace the shared state by `to` if it is `from`.
    Exchange { from: u8, to: u8 },
    /// Query the name and publish the outcome.
    RunQuery,
    /// Wait for the outcome of the query under way, until the deadline.
    WaitQueryDone,
    /// Stop.
    Return(GetOutcome),
}

/// What came of an action.
#[derive(Clone, Copy, Debug, PartialEq, Eq)]
pub enum GetEvent {
    /// `CheckDeadline`: whether the deadline has passed.
    Deadline { expired: bool },
    /// `LoadState`: the shared state.
    Loaded(u8),
    /// `ReadCache`: the shared address and the time in milliseconds.
    Cache { data: Option<CacheData>, now: u64 },
    /// `Exchange`: whether the shared state was replaced.
    Exchanged(bool),
    /// `RunQuery`: the outcome is published. Where the query found an address, it is this one.
    QueryFinished { found: Option<IpAddr> },
    /// `WaitQueryDone`: whether the wait ended by the deadline.
    Waited { expired: bool },
}

/// One caller on its way to an address.
#[derive(Clone, Copy, Debug, PartialEq, Eq)]
pub struct Resolution {
    /// How many failed queries this caller has asked to be tried again.
    pub failed_count: u32,
    pub action: GetAction,
}

/// How many failed queries a caller asks to be tried again before it gives up.
pub const MAX_FAILED: u32 = 4;

/// The exchanges that callers make: to give up an address that is out of date, to claim the
/// query, and to try again after a failure.
pub open spec fn lawful_exchange(from: u8, to: u8) -> bool {
    ||| from == STATE_CACHED && to == STATE_NONE
    ||| from == STATE_NONE && to == STATE_QUERYING
    ||| from == STATE_FAILED && to == STATE_NONE
}

/// `event` can come of `action`.
pub open spec fn fits(action: GetAction, event: GetEvent) -> bool {
    match (action, event) {
        (GetAction::CheckDeadline, GetEvent::Deadline { .. }) => true,
        (GetAction::LoadState, GetEvent::Loaded(state)) => state <= STATE_FAILED,
        (GetAction::ReadCache, GetEvent::Cache { .. }) => true,
        (GetAction::Exchange { .. }, GetEvent::Exchanged(_)) => true,
        (GetAction::RunQuery, GetEvent::QueryFinished { .. }) => true,
        (GetAction::WaitQueryDone, GetEvent::Waited { .. }) => true,
        _ => false,
    }
}

/// What a caller does after it has seen the shared state.
pub open spec fn after_load(state: u8, failed_count: u32) -> GetAction {
    if state == STATE_CACHED {
        GetAction::ReadCache
    } else if state == STATE_NONE {
        GetAction::Exchange { from: STATE_NONE, to: STATE_QUERYING }
    } else if state == STATE_QUERYING {
        GetAction::WaitQueryDone
    } else if failed_count >= MAX_FAILED {
        GetAction::Return(GetOutcome::Exhausted(failed_count))
    } else {
        GetAction::Exchange { from: STATE_FAILED, to: STATE_NONE }
    }
}

impl Resolution {
    /// A caller that has not done anything yet.
    pub open spec fn start() -> Resolution {
        Resolution { failed_count: 0, action: GetAction::CheckDeadline }
    }

    /// What holds of a caller at any time.
    pub open spec fn well_formed(self) -> bool {
        &&& self.failed_count <= MAX_FAILED
        &&& self.action matches GetAction::Exchange { from, to } ==> lawful_exchange(from, to)
        &&& self.action matches GetAction::Return(GetOutcome::Exhausted(n)) ==> n == MAX_FAILED
    }

    /// The caller after `event` has come of its action.
    pub open spec fn next(self, event: GetEvent) -> Resolution {
        match event {
            GetEvent::Deadline { expired } => Resolution {
                action: if expired {
                    GetAction::Return(GetOutcome::TimedOut)
                } else {
                    GetAction::LoadState
                },
                ..self
            },
            GetEvent::Loaded(state) => Resolution {
                failed_count: if state == STATE_FAILED && self.failed_count < MAX_FAILED {
                    (self.failed_count + 1) as u32
                } else {
                    self.failed_count
                },
                action: after_load(state, self.failed_count),
            },
            GetEvent::Cache { data, now } => Resolution {
                action: match data {
                    Some(d) => if now < d.expires_at {
                        GetAction::Return(GetOutcome::Resolved(d.ip))
                    } else {
                        GetAction::Exchange { from: STATE_CACHED, to: STATE_NONE }
                    },
                    None => GetAction::Exchange { from: STATE_CACHED, to: STATE_NONE },
                },
                ..self
            },
            GetEvent::Exchanged(done) => Resolution {
                action: if !done {
                    GetAction::WaitQueryDone
                } else if self.action == (GetAction::Exchange {
                    from: STATE_NONE,
                    to: STATE_QUERYING,
                }) {
                    GetAction::RunQuery
                } else {
                    GetAction::CheckDeadline
                },
                ..self
            },
            GetEvent::QueryFinished { found } => Resolution {
                action: match found {
                    Some(ip) => GetAction::Return(GetOutcome::Resolved(ip)),
                    None => GetAction::CheckDeadline,
                },
                ..self
            },
            GetEvent::Waited { expired } => Resolution {
                action: if expired {
                    GetAction::Return(GetOutcome::TimedOut)
                } else {
                    GetAction::CheckDeadline
                },
                ..self
            },
        }
    }

    /// Takes in what came of the caller's action and settles on the next one.
    pub fn step(&mut self, event: GetEvent)
        requires
            old(self).well_formed(),
            fits(old(self).action, event),
        ensures
            *final(self) == old(self).next(event),
            final(self).well_formed(),
    {
        match event {
            GetEvent::Deadline { expired } => {
                self.action = if expired {
                    GetAction::Return(GetOutcome::TimedOut)
                } else {
                    GetAction::LoadState
                };
            },
            GetEvent::Loaded(state) => {
                if state == STATE_CACHED {
                    self.action = GetAction::ReadCache;
                } else if state == STATE_NONE {
                    self.action = GetAction::Exchange { from: STATE_NONE, to: STATE_QUERYING };
                } else if state == STATE_QUERYING {
                    self.action = GetAction::WaitQueryDone;
                } else if self.failed_count > 3 {
                    self.action = GetAction::Return(GetOutcome::Exhausted(self.failed_count));
                } else {
                    self.failed_count = self.failed_count + 1;
                    self.action = GetAction::Exchange { from: STATE_FAILED, to: STATE_NONE };
                }
            },
            GetEvent::Cache { data, now } => {
                self.action = match data {
                    Some(d) if now < d.expires_at => GetAction::Return(GetOutcome::Resolved(d.ip)),
                    _ => GetAction::Exchange { from: STATE_CACHED, to: STATE_NONE },
                };
            },
            GetEvent::Exchanged(done) => {
                let claimed: bool = match self.action {
                    GetAction::Exchange { from, to } => from == STATE_NONE,
                    _ => false,
                };
                self.action = if !done {
                    GetAction::WaitQueryDone
                } else if claimed {
                    GetAction::RunQuery
                } else {
                    GetAction::CheckDeadline
                };
            },
            GetEvent::QueryFinished { found } => {
                self.action = match found {
                    Some(ip) => GetAction::Return(GetOutcome::Resolved(ip)),
                    None => GetAction::CheckDeadline,
                };
            },
            GetEvent::Waited { expired } => {
                self.action = if expired {
                    GetAction::Return(GetOutcome::TimedOut)
                } else {
                    GetAction::CheckDeadline
                };
            },
        }
    }
}

/// `id` was drawn by chance: `rand::random` gave it.
pub closed spec fn by_chance(id: u16) -> bool {
    call_ensures(random_id, (), id)
}

/// `rand::random` gives a number by chance, so nothing is stated of it.
#[verifier::external_body]
fn random_id() -> u16 {
    rand::random()
}

impl<U> Bootstrap<U> {
    /// Starts a caller on its way to an address, by its deadline. The caller is led on with
    /// [`Resolution::step`] until it returns.
    pub fn get_with_deadline(&self) -> (r: Resolution)
        ensures
            r == Resolution::start(),
            r.well_formed(),
    {
        Resolution { failed_count: 0, action: GetAction::CheckDeadline }
    }

    /// The error of a caller that gives up after the given number of attempts.
    pub fn exhausted_error(&self, attempts: u32) -> (r: DnsError)
        ensures
            r matches DnsError::Protocol(text) && text@ == "Bootstrap DNS resolution failed for '"@
                + self.domain@ + "' after "@ + decimal(attempts as nat) + " attempts"@,
    {
        let mut text: String = "Bootstrap DNS resolution failed for '".to_owned();
        text.append(self.domain.as_str());
        text.append("' after ");
        push_decimal(&mut text, attempts as u64);
        text.append(" attempts");
        DnsError::Protocol(text)
    }

    /// The query with the given number.
    pub fn query_message(&self, id: u16) -> (r: Message)
        ensures
            r.id == id,
            r.same_but_id(self.message),
    {
        self.message.with_id(id)
    }

    /// The query to send next, with a number that cannot be foreseen.
    pub fn next_query(&self) -> (r: Message)
        ensures
            by_chance(r.id),
            r.same_but_id(self.message),
    {
        self.query_message(random_id())
    }
}

/// A record of the answer to a query.
#[derive(Clone, Copy, Debug, PartialEq, Eq)]
pub struct Answer {
    pub rr_type: RecordType,
    /// Time to live, in seconds.
    pub ttl: u32,
    /// The address that the record stands for, if it stands for one.
    pub ip_addr: Option<IpAddr>,
    /// The address in the record's data, if there is one.
    pub data_ip: Option<IpAddr>,
}

/// The first address among `answers` that the records stand for, with its time to live.
pub open spec fn first_record_address(answers: Seq<Answer>) -> Option<(IpAddr, u32)>
    decreases answers.len(),
{
    if answers.len() == 0 {
        None
    } else {
        match answers[0].ip_addr {
            Some(ip) => Some((ip, answers[0].ttl)),
            None => first_record_address(answers.drop_first()),
        }
    }
}

/// The first address in the data of a record for addresses, with its time to live.
pub open spec fn first_data_address(answers: Seq<Answer>) -> Option<(IpAddr, u32)>
    decreases answers.len(),
{
    if answers.len() == 0 {
        None
    } else {
        match answers[0].data_ip {
            Some(ip) if answers[0].rr_type == RecordType::A || answers[0].rr_type
                == RecordType::AAAA => Some((ip, answers[0].ttl)),
            _ => first_data_address(answers.drop_first()),
        }
    }
}

/// The address that an answer gives, with its time to live.
pub open spec fn answer_address(answers: Seq<Answer>) -> Option<(IpAddr, u32)> {
    match first_record_address(answers) {
        Some(found) => Some(found),
        None => first_data_address(answers),
    }
}

/// What a query leaves behind.
#[derive(Clone, Copy, Debug, PartialEq, Eq)]
pub struct QueryEffect {
    /// The address to share, before the state.
    pub cache: Option<CacheData>,
    /// The state to share.
    pub state: u8,
}

impl QueryEffect {
    /// The address that the query found, if it found one. Whoever made the query gets it, however
    /// short it lives.
    pub fn found(&self) -> (r: Option<IpAddr>)
        ensures
            r == found_address(*self),
    {
        match self.cache {
            Some(data) => Some(data.ip),
            None => None,
        }
    }
}

/// The address that a query found which leaves `effect` behind.
pub open spec fn found_address(effect: QueryEffect) -> Option<IpAddr> {
    match effect.cache {
        Some(data) => Some(data.ip),
        None => None,
    }
}

/// What a query leaves behind, by the answer to it, if one came, and the time.
pub open spec fn query_effect(answers: Option<Seq<Answer>>, now: u64) -> QueryEffect {
    match answers {
        Some(list) => match answer_address(list) {
            Some((ip, ttl)) => QueryEffect {
                cache: Some(CacheData { ip, expires_at: (now + ttl * 1000) as u64 }),
                state: STATE_CACHED,
            },
            None => QueryEffect { cache: None, state: STATE_FAILED },
        },
        None => QueryEffect { cache: None, state: STATE_FAILED },
    }
}

fn pick_address(answers: &[Answer]) -> (r: Option<(IpAddr, u32)>)
    ensures
        r == answer_address(answers@),
{
    assert(answers@.skip(0) =~= answers@);
    for i in 0..answers.len()
        invariant
            first_record_address(answers@) == first_record_address(answers@.skip(i as int)),
    {
        assert(answers@.skip(i as int).drop_first() =~= answers@.skip(i + 1));
        if let Some(ip) = answers[i].ip_addr {
            return Some((ip, answers[i].ttl));
        }
    }
    for i in 0..answers.len()
        invariant
            first_record_address(answers@) is None,
            first_data_address(answers@) == first_data_address(answers@.skip(i as int)),
    {
        assert(answers@.skip(i as int).drop_first() =~= answers@.skip(i + 1));
        if answers[i].rr_type == RecordType::A || answers[i].rr_type == RecordType::AAAA {
            if let Some(ip) = answers[i].data_ip {
                return Some((ip, answers[i].ttl));
            }
        }
    }
    None
}

/// Settles what a query leaves behind: the first address of the answer, for as long as it may
/// live from now on, or a failure where no answer came or it gives no address.
pub fn finish_query(answers: Option<&[Answer]>, now: u64) -> (r: QueryEffect)
    requires
        answers matches Some(list) ==> (answer_address(list@) matches Some((_, ttl)) ==> now + ttl
            * 1000 <= u64::MAX),
    ensures
        r == query_effect(
            match answers {
                Some(list) => Some(list@),
                None => None,
            },
            now,
        ),
{
    if let Some(list) = answers {
        if let Some((ip, ttl)) = pick_address(list) {
            let lifetime: u64 = ttl as u64 * 1000;
            return QueryEffect {
                cache: Some(CacheData { ip, expires_at: now + lifetime }),
                state: STATE_CACHED,
            };
        }
    }
    QueryEffect { cache: None, state: STATE_FAILED }
}

/// Stands for a query under way. Dropping it while it is armed means that the query was given up.
#[derive(Clone, Copy, Debug, PartialEq, Eq, Structural)]
pub struct BootstrapQueryGuard {
    pub armed: bool,
}

impl BootstrapQueryGuard {
    /// A guard of a query that starts.
    pub fn new() -> (r: BootstrapQueryGuard)
        ensures
            r.armed,
    {
        BootstrapQueryGuard { armed: true }
    }

    /// Notes that the outcome of the query is published.
    pub fn disarm(&mut self)
        ensures
            !final(self).armed,
    {
        self.armed = false;
    }

    /// The state to share when the guard goes, if any: a query that was given up has failed.
    pub fn on_drop(&self) -> (r: Option<u8>)
        ensures
            r == (if self.armed {
                Some(STATE_FAILED)
            } else {
                None
            }),
    {
        if self.armed {
            Some(STATE_FAILED)
        } else {
            None
        }
    }
}

} // verus!
