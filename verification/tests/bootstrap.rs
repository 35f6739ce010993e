use oxidns::addr::IpAddr;
use oxidns::error::DnsError;
use oxidns::proto::{DNSClass, Edns, EdnsOption, MessageType, Name, Opcode, RecordType};
use oxidns::upstream::bootstrap::{
    finish_query, Answer, Bootstrap, BootstrapQueryGuard, CacheData, GetAction, GetEvent,
    GetOutcome, Resolution, UpstreamSetup, STATE_CACHED, STATE_FAILED, STATE_NONE, STATE_QUERYING,
};

fn parsed(domain: &str) -> Result<Name, String> {
    Ok(Name { fqdn: domain.to_string() })
}

fn bootstrap() -> Bootstrap<()> {
    Bootstrap::new(
        parsed("example.com."),
        UpstreamSetup::Ready(()),
        "1.1.1.1:53",
        "example.com.",
        None,
    )
    .expect("bootstrap should be created")
}

fn answer(rr_type: RecordType, ttl: u32, ip: Option<[u8; 4]>, data: Option<[u8; 4]>) -> Answer {
    Answer { rr_type, ttl, ip_addr: ip.map(IpAddr::V4), data_ip: data.map(IpAddr::V4) }
}

/// What callers share, and what an upstream would answer.
struct Shared {
    state: u8,
    cache: Option<CacheData>,
    now: u64,
    queries: usize,
    answers: Option<Vec<Answer>>,
}

impl Shared {
    fn new(answers: Option<Vec<Answer>>) -> Shared {
        Shared { state: STATE_NONE, cache: None, now: 1_000, queries: 0, answers }
    }

    /// Does what the caller has to do next.
    fn perform(&mut self, resolution: &mut Resolution) {
        let event = match resolution.action {
            GetAction::CheckDeadline => GetEvent::Deadline { expired: false },
            GetAction::LoadState => GetEvent::Loaded(self.state),
            GetAction::ReadCache => GetEvent::Cache { data: self.cache, now: self.now },
            GetAction::Exchange { from, to } => {
                let done = self.state == from;
                if done {
                    self.state = to;
                }
                GetEvent::Exchanged(done)
            }
            GetAction::RunQuery => {
                assert_eq!(self.state, STATE_QUERYING);
                let mut guard = BootstrapQueryGuard::new();
                self.queries += 1;
                let effect = finish_query(self.answers.as_deref(), self.now);
                if effect.cache.is_some() {
                    self.cache = effect.cache;
                }
                self.state = effect.state;
                guard.disarm();
                assert_eq!(guard.on_drop(), None);
                GetEvent::QueryFinished { found: effect.found() }
            }
            GetAction::WaitQueryDone => GetEvent::Waited { expired: true },
            GetAction::Return(_) => panic!("the caller has its answer"),
        };
        resolution.step(event);
    }

    fn resolve(&mut self) -> GetOutcome {
        let mut resolution = bootstrap().get_with_deadline();
        loop {
            if let GetAction::Return(outcome) = resolution.action {
                return outcome;
            }
            self.perform(&mut resolution);
        }
    }
}

#[test]
fn test_new_builds_ipv4_query_by_default() {
    let bootstrap = Bootstrap::new(
        parsed("example.com."),
        UpstreamSetup::Ready(()),
        "1.1.1.1:53",
        "example.com.",
        None,
    )
    .expect("bootstrap should be created");

    let query = bootstrap.message.questions.first().expect("question should be pre-built");

    assert_eq!(bootstrap.domain, "example.com.");
    assert_eq!(query.qtype, RecordType::A);
    assert_eq!(query.name.fqdn, "example.com.");
}

#[test]
fn test_new_builds_ipv6_query_when_requested() {
    let bootstrap = Bootstrap::new(
        parsed("example.com."),
        UpstreamSetup::Ready(()),
        "8.8.8.8:53",
        "example.com.",
        Some(6),
    )
    .expect("bootstrap should be created");

    let query = bootstrap.message.questions.first().expect("question should be pre-built");

    assert_eq!(query.qtype, RecordType::AAAA);
}

#[test]
fn test_new_rejects_invalid_target_domain() {
    let result = Bootstrap::new(
        Err("empty label".to_string()),
        UpstreamSetup::Ready(()),
        "1.1.1.1:53",
        "example..com.",
        None,
    );

    assert!(result.is_err());
    assert_eq!(
        result.err(),
        Some(DnsError::Plugin(
            "invalid bootstrap target domain 'example..com.': empty label".to_string()
        ))
    );
}

#[test]
fn test_new_rejects_invalid_bootstrap_server() {
    let result: Result<Bootstrap<()>, DnsError> = Bootstrap::new(
        parsed("example.com."),
        UpstreamSetup::BadAddress("invalid port".to_string()),
        "udp://127.0.0.1:notaport",
        "example.com.",
        None,
    );

    assert!(result.is_err());
    assert_eq!(
        result.err(),
        Some(DnsError::Plugin(
            "invalid bootstrap upstream 'udp://127.0.0.1:notaport': invalid port".to_string()
        ))
    );
}

#[test]
fn test_canceled_bootstrap_query_releases_querying_state() {
    let mut shared = Shared::new(None);
    let mut resolution = bootstrap().get_with_deadline();
    while resolution.action != GetAction::RunQuery {
        shared.perform(&mut resolution);
    }
    assert_eq!(shared.state, STATE_QUERYING);

    let guard = BootstrapQueryGuard::new();
    if let Some(state) = guard.on_drop() {
        shared.state = state;
    }

    assert_eq!(shared.state, STATE_FAILED);
}

#[test]
fn passes_on_the_error_of_an_upstream_that_cannot_be_set_up() {
    let error = DnsError::Runtime("no socket".to_string());
    let result: Result<Bootstrap<()>, DnsError> = Bootstrap::new(
        parsed("example.com."),
        UpstreamSetup::Failed(error.clone()),
        "1.1.1.1:53",
        "example.com.",
        Some(4),
    );
    assert_eq!(result.err(), Some(error));
}

#[test]
fn a_bad_name_counts_before_a_bad_server() {
    let result: Result<Bootstrap<()>, DnsError> = Bootstrap::new(
        Err("bad name".to_string()),
        UpstreamSetup::BadAddress("bad server".to_string()),
        "server",
        "name",
        None,
    );
    assert_eq!(
        result.err(),
        Some(DnsError::Plugin("invalid bootstrap target domain 'name': bad name".to_string()))
    );
}

#[test]
fn query_message_has_its_own_number() {
    let mut bootstrap = bootstrap();
    let query = bootstrap.query_message(0xBEEF);
    assert_eq!(query.id, 0xBEEF);
    assert_eq!(query.message_type, MessageType::Query);
    assert_eq!(query.opcode, Opcode::Query);
    assert!(query.recursion_desired);
    assert_eq!(query.questions.len(), 1);
    assert_eq!(query.questions[0].qclass, DNSClass::IN);
    assert_eq!(query.edns, None);

    let edns = Some(Edns { options: vec![EdnsOption::Other { code: 3, data: vec![1, 2, 3] }] });
    bootstrap.message.edns = edns.clone();
    assert_eq!(bootstrap.query_message(1).edns, edns);
}

#[test]
fn resolves_once_and_serves_from_the_cache() {
    let mut shared =
        Shared::new(Some(vec![answer(RecordType::A, 60, Some([192, 0, 2, 1]), None)]));
    let resolved = GetOutcome::Resolved(IpAddr::V4([192, 0, 2, 1]));
    assert_eq!(shared.resolve(), resolved);
    assert_eq!(shared.state, STATE_CACHED);
    assert_eq!(
        shared.cache,
        Some(CacheData { ip: IpAddr::V4([192, 0, 2, 1]), expires_at: 61_000 })
    );
    shared.now = 60_999;
    assert_eq!(shared.resolve(), resolved);
    assert_eq!(shared.queries, 1);

    shared.now = 61_000;
    shared.answers = Some(vec![answer(RecordType::A, 60, Some([192, 0, 2, 2]), None)]);
    assert_eq!(shared.resolve(), GetOutcome::Resolved(IpAddr::V4([192, 0, 2, 2])));
    assert_eq!(shared.queries, 2);
}

#[test]
fn gives_up_after_the_last_attempt() {
    let mut shared = Shared::new(None);
    assert_eq!(shared.resolve(), GetOutcome::Exhausted(4));
    assert_eq!(shared.queries, 5);
    assert_eq!(shared.state, STATE_FAILED);
    assert_eq!(
        bootstrap().exhausted_error(4),
        DnsError::Protocol(
            "Bootstrap DNS resolution failed for 'example.com.' after 4 attempts".to_string()
        )
    );
}

#[test]
fn others_wait_while_one_queries() {
    let mut shared =
        Shared::new(Some(vec![answer(RecordType::A, 60, Some([192, 0, 2, 1]), None)]));
    let mut first = bootstrap().get_with_deadline();
    let mut second = bootstrap().get_with_deadline();
    while second.action != (GetAction::Exchange { from: STATE_NONE, to: STATE_QUERYING }) {
        shared.perform(&mut second);
    }
    while first.action != GetAction::RunQuery {
        shared.perform(&mut first);
    }
    shared.perform(&mut second);
    assert_eq!(second.action, GetAction::WaitQueryDone);
    shared.perform(&mut first);
    second.step(GetEvent::Waited { expired: false });
    while !matches!(second.action, GetAction::Return(_)) {
        shared.perform(&mut second);
    }
    assert_eq!(
        second.action,
        GetAction::Return(GetOutcome::Resolved(IpAddr::V4([192, 0, 2, 1])))
    );
    assert_eq!(shared.queries, 1);
}

#[test]
fn stops_at_the_deadline() {
    let mut resolution = bootstrap().get_with_deadline();
    resolution.step(GetEvent::Deadline { expired: true });
    assert_eq!(resolution.action, GetAction::Return(GetOutcome::TimedOut));

    let mut resolution = bootstrap().get_with_deadline();
    resolution.step(GetEvent::Deadline { expired: false });
    resolution.step(GetEvent::Loaded(STATE_QUERYING));
    assert_eq!(resolution.action, GetAction::WaitQueryDone);
    resolution.step(GetEvent::Waited { expired: true });
    assert_eq!(resolution.action, GetAction::Return(GetOutcome::TimedOut));
}

#[test]
fn query_takes_the_first_address_of_the_answer() {
    let records = vec![
        answer(RecordType::Other(5), 1, None, Some([10, 0, 0, 1])),
        answer(RecordType::AAAA, 2, None, Some([10, 0, 0, 2])),
        answer(RecordType::A, 3, None, Some([10, 0, 0, 3])),
    ];
    let effect = finish_query(Some(&records), 100);
    assert_eq!(effect.state, STATE_CACHED);
    assert_eq!(
        effect.cache,
        Some(CacheData { ip: IpAddr::V4([10, 0, 0, 2]), expires_at: 2_100 })
    );

    let mut records = records;
    records.push(answer(RecordType::Other(5), 4, Some([10, 0, 0, 4]), None));
    let effect = finish_query(Some(&records), 100);
    assert_eq!(
        effect.cache,
        Some(CacheData { ip: IpAddr::V4([10, 0, 0, 4]), expires_at: 4_100 })
    );
}

#[test]
fn query_without_an_address_has_failed() {
    let records = vec![answer(RecordType::Other(16), 1, None, Some([10, 0, 0, 1]))];
    for answers in [None, Some(&records[..0]), Some(&records[..])] {
        let effect = finish_query(answers, 100);
        assert_eq!(effect.state, STATE_FAILED);
        assert_eq!(effect.cache, None);
    }
}

#[test]
fn queries_are_numbered_by_chance() {
    let bootstrap = bootstrap();
    let first = bootstrap.next_query();
    assert_eq!(first.questions, bootstrap.message.questions);
    assert!((0..64).any(|_| bootstrap.next_query().id != first.id));
}

#[test]
fn a_query_resolves_even_if_the_address_may_not_live() {
    let mut shared = Shared::new(Some(vec![answer(RecordType::A, 0, Some([192, 0, 2, 1]), None)]));
    assert_eq!(shared.resolve(), GetOutcome::Resolved(IpAddr::V4([192, 0, 2, 1])));
    assert_eq!(shared.queries, 1);
    // The next caller finds the address out of date and asks again.
    assert_eq!(shared.resolve(), GetOutcome::Resolved(IpAddr::V4([192, 0, 2, 1])));
    assert_eq!(shared.queries, 2);
}
