use std::cell::{Cell, RefCell};
use std::collections::VecDeque;
use std::sync::atomic::{AtomicU16, Ordering};
use std::sync::Arc;

use oxidns::error::DnsError;
use oxidns::upstream::pipeline::{connection_ids, Connection, PipelinePool, Progress};
use oxidns::upstream::pool::{
    ConnectionStatus, PoolAction, PoolEvent, PoolRules, POOL_RETRY_BACKOFF_MILLIS,
};

struct MockConnection {
    available: Cell<bool>,
    using_count: u16,
    last_used: u64,
    close_calls: Cell<usize>,
}

impl MockConnection {
    fn new(available: bool, using_count: u16, last_used: u64) -> Arc<MockConnection> {
        Arc::new(MockConnection {
            available: Cell::new(available),
            using_count,
            last_used,
            close_calls: Cell::new(0),
        })
    }

    fn close(&self) {
        self.close_calls.set(self.close_calls.get() + 1);
        self.available.set(false);
    }

    fn close_calls(&self) -> usize {
        self.close_calls.get()
    }
}

impl Connection for MockConnection {
    fn available(&self) -> bool {
        self.available.get()
    }

    fn using_count(&self) -> u16 {
        self.using_count
    }

    fn last_used(&self) -> u64 {
        self.last_used
    }
}

type Planned = Result<Arc<MockConnection>, DnsError>;

/// A pool whose connections are made as planned.
struct TestPool {
    pool: PipelinePool<MockConnection>,
    planned: RefCell<VecDeque<Planned>>,
    pauses: RefCell<Vec<PoolAction>>,
    /// The numbers of the connections that were made.
    built: RefCell<Vec<u16>>,
}

fn make_pool(
    min_size: usize,
    max_size: usize,
    max_load: u16,
    idle_secs: u64,
    planned: Vec<Planned>,
    connections: Vec<Arc<MockConnection>>,
) -> TestPool {
    let rules = PoolRules::new(min_size, max_size, max_load, idle_secs as u128 * 1000);
    let mut pool = PipelinePool::with_connections(rules, connections);
    pool.next_id = AtomicU16::new(1);
    TestPool {
        pool,
        planned: RefCell::new(planned.into()),
        pauses: RefCell::new(Vec::new()),
        built: RefCell::new(Vec::new()),
    }
}

impl TestPool {
    fn len(&self) -> usize {
        self.pool.len()
    }

    fn expand(&self) -> Result<(), DnsError> {
        let ids = self.pool.plan_expansion()?;
        self.built.borrow_mut().extend_from_slice(&ids);
        let results: Vec<Planned> = ids
            .iter()
            .map(|_| {
                self.planned
                    .borrow_mut()
                    .pop_front()
                    .unwrap_or_else(|| Err(DnsError::Runtime("no planned connection".to_string())))
            })
            .collect();
        for conn in self.pool.finish_expansion(&results) {
            conn.close();
        }
        Ok(())
    }

    fn get(&self) -> Result<Arc<MockConnection>, DnsError> {
        let rules = self.pool.rules;
        let mut action = rules.start();
        let mut error = None;
        for _ in 0..100 {
            action = match action {
                PoolAction::Expand { .. } => {
                    let done = self.expand();
                    let event = PoolEvent::Expanded(done.is_ok());
                    error = done.err();
                    rules.step(action, event)
                }
                PoolAction::Yield | PoolAction::Sleep => {
                    self.pauses.borrow_mut().push(action);
                    rules.step(action, PoolEvent::Resumed)
                }
                PoolAction::Fail => return Err(error.expect("an expansion has failed")),
                look => match self.pool.look(look) {
                    Progress::Found(conn) => return Ok(conn),
                    Progress::Next(next) => next,
                },
            };
        }
        panic!("the caller found no connection");
    }

    fn maintain(&self, now: u64) {
        let left = self.pool.maintain(now).expect("no connection was used in the future");
        for conn in &left.closing {
            conn.close();
        }
        if left.grow {
            let _ = self.expand();
        }
    }
}

#[test]
fn test_get_uses_round_robin_across_connections() {
    let first = MockConnection::new(true, 0, 0);
    let second = MockConnection::new(true, 0, 0);
    let pool = make_pool(0, 2, 4, 10, vec![], vec![first.clone(), second.clone()]);

    let selected_first = pool.get().expect("first get should succeed");
    let selected_second = pool.get().expect("second get should succeed");

    assert!(Arc::ptr_eq(&selected_first, &first));
    assert!(Arc::ptr_eq(&selected_second, &second));
}

#[test]
fn test_get_expands_when_pool_is_empty() {
    let created = MockConnection::new(true, 0, 0);
    let pool = make_pool(0, 1, 4, 10, vec![Ok(created.clone())], vec![]);

    let selected = pool.get().expect("get should expand an empty pool");

    assert!(Arc::ptr_eq(&selected, &created));
    assert_eq!(pool.len(), 1);
    assert_eq!(*pool.pauses.borrow(), vec![PoolAction::Yield]);
}

#[test]
fn test_get_skips_saturated_connections_and_uses_expanded_one() {
    let saturated_a = MockConnection::new(true, 2, 0);
    let saturated_b = MockConnection::new(true, 2, 0);
    let created = MockConnection::new(true, 0, 0);
    let pool =
        make_pool(0, 3, 2, 10, vec![Ok(created.clone())], vec![saturated_a, saturated_b]);

    let selected = pool.get().expect("get should expand when all connections are saturated");

    assert!(Arc::ptr_eq(&selected, &created));
    assert_eq!(pool.len(), 3);
}

#[test]
fn test_maintain_drops_idle_and_invalid_connections() {
    let idle = MockConnection::new(true, 0, 0);
    let invalid = MockConnection::new(false, 0, 0);
    let pool = make_pool(0, 4, 4, 0, vec![], vec![idle.clone(), invalid.clone()]);

    pool.maintain(0);

    assert_eq!(idle.close_calls(), 1);
    assert_eq!(invalid.close_calls(), 1);
    assert_eq!(pool.len(), 0);
}

#[test]
fn test_maintain_reuses_idle_connection_to_preserve_min_size() {
    let conn = MockConnection::new(true, 0, 0);
    let pool = make_pool(1, 1, 4, 0, vec![], vec![conn.clone()]);

    pool.maintain(0);

    assert_eq!(conn.close_calls(), 0);
    assert_eq!(pool.len(), 1);
}

#[test]
fn test_maintain_keeps_idle_connection_with_inflight_queries() {
    let conn = MockConnection::new(true, 1, 0);
    let pool = make_pool(0, 1, 4, 0, vec![], vec![conn.clone()]);

    pool.maintain(0);

    assert_eq!(conn.close_calls(), 0);
    assert_eq!(pool.len(), 1);
}

#[test]
fn maintain_goes_by_the_idle_time() {
    let recent = MockConnection::new(true, 0, 5_001);
    let idle = MockConnection::new(true, 0, 5_000);
    let pool = make_pool(0, 4, 4, 10, vec![], vec![idle.clone(), recent.clone()]);
    pool.maintain(15_000);
    assert_eq!(pool.len(), 1);
    assert!(Arc::ptr_eq(&pool.get().unwrap(), &recent));
    assert_eq!(idle.close_calls(), 1);
}

#[test]
fn an_idle_time_beyond_64_bits_is_never_over() {
    let rules = PoolRules::new(0, 4, 4, 1u128 << 64);
    let conn = MockConnection::new(true, 0, 0);
    let status = ConnectionStatus { available: true, using_count: 0, last_used: 0 };
    let upkeep = rules.maintain(&vec![conn.clone()], &vec![status], u64::MAX);
    assert_eq!(upkeep.kept.len(), 1);
    assert!(upkeep.dropped.is_empty());
}

#[test]
fn maintain_spares_the_last_idle_connections_first() {
    let conns: Vec<Arc<MockConnection>> =
        (0..4).map(|_| MockConnection::new(true, 0, 0)).collect();
    let busy = MockConnection::new(true, 1, 0);
    let mut list = conns.clone();
    list.push(busy.clone());
    let pool = make_pool(3, 8, 4, 0, vec![], list);
    pool.maintain(0);
    assert_eq!(pool.len(), 3);
    assert!(Arc::ptr_eq(&pool.get().unwrap(), &busy));
    assert!(Arc::ptr_eq(&pool.get().unwrap(), &conns[3]));
    assert!(Arc::ptr_eq(&pool.get().unwrap(), &conns[2]));
    assert_eq!(conns.iter().map(|c| c.close_calls()).collect::<Vec<_>>(), vec![1, 1, 0, 0]);
}

#[test]
fn maintain_lets_the_pool_grow_where_it_is_too_short() {
    let fresh = MockConnection::new(true, 0, 0);
    let pool =
        make_pool(1, 2, 4, 10, vec![Ok(fresh.clone())], vec![MockConnection::new(false, 0, 0)]);
    pool.maintain(0);
    assert_eq!(pool.len(), 1);
    assert!(Arc::ptr_eq(&pool.get().unwrap(), &fresh));
    assert!(!pool.pool.rules.grows_after_upkeep(false, 0));
    assert!(!pool.pool.rules.grows_after_upkeep(true, 1));
}

#[test]
fn get_fails_where_an_empty_pool_cannot_grow() {
    let pool = make_pool(0, 0, 4, 10, vec![], vec![]);
    assert_eq!(
        pool.get().err(),
        Some(DnsError::Protocol("Connection pool already at maximum size".to_string()))
    );
}

#[test]
fn get_waits_where_no_connection_could_be_created() {
    let created = MockConnection::new(true, 0, 0);
    let refused = Err(DnsError::Runtime("refused".to_string()));
    let pool = make_pool(0, 1, 4, 10, vec![refused, Ok(created.clone())], vec![]);
    assert!(Arc::ptr_eq(&pool.get().unwrap(), &created));
    assert_eq!(*pool.pauses.borrow(), vec![PoolAction::Sleep, PoolAction::Yield]);
    assert_eq!(POOL_RETRY_BACKOFF_MILLIS, 10);
}

#[test]
fn full_pool_lets_others_run() {
    let rules = PoolRules::new(0, 2, 1, 0);
    assert_eq!(rules.step(PoolAction::Scan, PoolEvent::Scanned(None)), PoolAction::Recount);
    assert_eq!(rules.step(PoolAction::Recount, PoolEvent::Length(2)), PoolAction::Yield);
    assert_eq!(rules.step(PoolAction::Recount, PoolEvent::Length(1)), PoolAction::CountBefore);
    let expand = rules.step(PoolAction::CountBefore, PoolEvent::Length(1));
    assert_eq!(expand, PoolAction::Expand { before: 1, urgent: false });
    assert_eq!(rules.step(expand, PoolEvent::Expanded(false)), PoolAction::Sleep);
    assert_eq!(rules.step(PoolAction::Sleep, PoolEvent::Resumed), PoolAction::Load);
}

#[test]
fn selection_goes_round_and_passes_over_what_is_full() {
    let rules = PoolRules::new(0, 4, 2, 0);
    let at = |available, using_count| ConnectionStatus { available, using_count, last_used: 0 };
    let free = vec![at(true, 0), at(true, 1), at(true, 0)];
    let taken: Vec<Option<usize>> = (4..7).map(|t| rules.select(&free, t)).collect();
    assert_eq!(taken, vec![Some(1), Some(2), Some(0)]);
    let mixed = vec![at(true, 2), at(false, 0), at(true, 1)];
    assert_eq!(rules.select(&mixed, 0), Some(2));
    assert_eq!(rules.select(&mixed, usize::MAX), Some(2));
    assert_eq!(rules.select(&mixed[..2].to_vec(), 0), None);
    assert_eq!(rules.select(&Vec::new(), 3), None);
}

#[test]
fn expansion_fills_up_to_the_smallest_number() {
    let rules = PoolRules::new(3, 5, 1, 0);
    let counts: Vec<usize> = (0..5).map(|n| rules.expansion_count(n).unwrap()).collect();
    assert_eq!(counts, vec![3, 2, 1, 1, 1]);
    assert!(rules.expansion_count(5).is_err());
    assert_eq!(PoolRules::new(9, 2, 1, 0).expansion_count(1), Ok(1));
    assert!(rules.prefills());
    assert!(!PoolRules::new(0, 1, 1, 0).prefills());
}

#[test]
fn created_connections_beyond_the_limit_are_left_over() {
    let rules = PoolRules::new(0, 3, 1, 0);
    let list = vec![Arc::new(1), Arc::new(2)];
    let created = vec![Arc::new(3), Arc::new(4)];
    let growth = rules.insert_created(&list, &created);
    assert_eq!(growth.connections, vec![Arc::new(1), Arc::new(2), Arc::new(3)]);
    assert_eq!(growth.leftover, vec![Arc::new(4)]);
    assert!(Arc::ptr_eq(&growth.connections[2], &created[0]));

    let full = PoolRules::new(0, 1, 1, 0).insert_created(&list, &created);
    assert_eq!(full.connections, list);
    assert_eq!(full.leftover, created);
}

#[test]
fn task_name_is_fixed() {
    let pool: PipelinePool<MockConnection> = PipelinePool::new(0, 3, 1, 0);
    assert_eq!(pool.maintenance_task_name(), "upstream_pipeline_pool:maintenance");
    assert_eq!(pool.rules, PoolRules::new(0, 3, 1, 0));
    assert_eq!(pool.len(), 0);
}

#[test]
fn maintain_refuses_a_connection_that_was_used_later() {
    let conns = vec![MockConnection::new(true, 0, 8)];
    let pool = make_pool(0, 3, 1, 0, vec![], conns);
    assert!(pool.pool.maintain(7).is_none());
    assert_eq!(pool.len(), 1);
    assert!(pool.pool.maintain(8).is_some());
    assert_eq!(pool.len(), 0);
}

#[test]
fn connections_beyond_the_limit_of_a_shared_list_are_left_over() {
    let conns: Vec<Arc<MockConnection>> = (0..3).map(|_| MockConnection::new(true, 0, 0)).collect();
    let pool = make_pool(0, 2, 1, 0, vec![], vec![conns[0].clone()]);
    let refused = Err(DnsError::Runtime("refused".to_string()));
    let results = vec![Ok(conns[1].clone()), refused, Ok(conns[2].clone())];
    let left = pool.pool.finish_expansion(&results);
    assert_eq!(left.len(), 1);
    assert!(Arc::ptr_eq(&left[0], &conns[2]));
    assert_eq!(pool.len(), 2);
    assert_eq!(pool.pool.finish_expansion(&results).len(), 2);
    assert_eq!(pool.len(), 2);
    assert!(pool.pool.finish_expansion(&Vec::new()).is_empty());
}

#[test]
fn connections_are_numbered_one_after_the_other() {
    let a = MockConnection::new(true, 0, 0);
    let b = MockConnection::new(true, 0, 0);
    let c = MockConnection::new(true, 0, 0);
    let planned = vec![Ok(a.clone()), Ok(b.clone()), Ok(c.clone())];
    let pool = make_pool(3, 2, 4, 10, planned, vec![]);
    assert_eq!(pool.expand(), Ok(()));
    assert_eq!(*pool.built.borrow(), vec![1, 2]);
    assert_eq!(pool.len(), 2);
    assert!(Arc::ptr_eq(&pool.get().unwrap(), &a));
    assert!(Arc::ptr_eq(&pool.get().unwrap(), &b));
    assert_eq!(pool.planned.borrow().len(), 1);
    assert_eq!([a.close_calls(), b.close_calls(), c.close_calls()], [0, 0, 0]);
    assert_eq!(pool.pool.next_id.load(Ordering::Relaxed), 3);
}

#[test]
fn the_first_connections_are_numbered_from_zero() {
    let pool: PipelinePool<MockConnection> = PipelinePool::new(3, 5, 1, 0);
    assert_eq!(pool.plan_expansion(), Ok(vec![0, 1, 2]));
    assert_eq!(pool.plan_expansion(), Ok(vec![3, 4, 5]));
    assert_eq!(connection_ids(u16::MAX, 3), vec![u16::MAX, 0, 1]);
    assert_eq!(connection_ids(5, 0), Vec::<u16>::new());
}

#[test]
fn the_list_that_was_loaded_is_looked_through() {
    let conn = MockConnection::new(true, 0, 0);
    let pool = make_pool(0, 2, 1, 0, vec![], vec![conn.clone()]);
    match pool.pool.look(PoolAction::Load) {
        Progress::Found(found) => assert!(Arc::ptr_eq(&found, &conn)),
        Progress::Next(_) => panic!("there is a connection"),
    }
    let full = make_pool(0, 2, 0, 0, vec![], vec![conn]);
    assert!(matches!(full.pool.look(PoolAction::Load), Progress::Next(PoolAction::Recount)));
    assert_eq!(full.pool.index.load(Ordering::Relaxed), 1);
    let empty = make_pool(0, 2, 1, 0, vec![], vec![]);
    assert!(matches!(
        empty.pool.look(PoolAction::Load),
        Progress::Next(PoolAction::Expand { before: 0, urgent: true })
    ));
    assert_eq!(empty.pool.index.load(Ordering::Relaxed), 0);
}

#[test]
fn maintain_restores_the_smallest_number() {
    let old = MockConnection::new(true, 0, 0);
    let broken = MockConnection::new(false, 0, 0);
    let fresh: Vec<Arc<MockConnection>> = (0..3).map(|_| MockConnection::new(true, 0, 0)).collect();
    let planned = fresh.iter().map(|c| Ok(c.clone())).collect();
    let pool = make_pool(3, 5, 4, 0, planned, vec![broken.clone(), old.clone()]);
    pool.maintain(1_000_000);
    assert_eq!(pool.len(), 3);
    assert_eq!(pool.built.borrow().len(), 2);
    assert_eq!(old.close_calls(), 0);
    assert_eq!(broken.close_calls(), 1);
    assert!(Arc::ptr_eq(&pool.get().unwrap(), &old));
    assert!(Arc::ptr_eq(&pool.get().unwrap(), &fresh[0]));
    assert!(Arc::ptr_eq(&pool.get().unwrap(), &fresh[1]));
}
