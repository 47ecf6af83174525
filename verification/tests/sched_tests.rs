use feedcore::domain::{Channel, Entry};
use feedcore::sched::{SchedEvent, SchedPhase, Scheduler, collect_batch};

#[test]
fn tick_when_idle_starts_one_fetch() {
    let mut s = Scheduler::new();
    let a = s.on_event(SchedEvent::Tick);
    assert!(a.start_fetch);
    assert!(!a.deliver);
    assert_eq!(s.phase, SchedPhase::Fetching);
    // a tick during the fetch is skipped, not queued
    let a2 = s.on_event(SchedEvent::Tick);
    assert!(!a2.start_fetch);
    assert!(!a2.deliver);
}

#[test]
fn force_burst_in_flight_triggers_exactly_one_extra_fetch() {
    let mut s = Scheduler::new();
    assert!(s.on_event(SchedEvent::Force).start_fetch);
    // burst of three more force requests while the fetch is in flight
    let mut started_during_burst = 0;
    for _ in 0..3 {
        if s.on_event(SchedEvent::Force).start_fetch {
            started_during_burst += 1;
        }
    }
    assert_eq!(started_during_burst, 0);
    // the in-flight fetch completes: exactly one follow-up fetch starts
    let done = s.on_event(SchedEvent::FetchDone { nonempty: true });
    assert!(done.start_fetch);
    assert!(done.deliver);
    // the follow-up completes with no further forces: nothing more starts
    let done2 = s.on_event(SchedEvent::FetchDone { nonempty: true });
    assert!(!done2.start_fetch);
    assert_eq!(s.phase, SchedPhase::Idle);
}

#[test]
fn empty_batch_is_never_delivered() {
    let mut s = Scheduler::new();
    assert!(s.on_event(SchedEvent::Tick).start_fetch);
    let done = s.on_event(SchedEvent::FetchDone { nonempty: false });
    assert!(!done.deliver);
    assert!(!done.start_fetch);
    assert_eq!(s.phase, SchedPhase::Idle);
}

#[test]
fn force_when_idle_fetches_immediately() {
    let mut s = Scheduler::new();
    let a = s.on_event(SchedEvent::Force);
    assert!(a.start_fetch);
    assert!(!s.pending_force);
}

fn channel(id: &str, n_entries: usize) -> Channel {
    let entries = (0..n_entries)
        .map(|k| Entry {
            id: format!("{}-{}", id, k),
            title: format!("t{}", k),
            link: format!("http://example.com/{}/{}", id, k),
            summary: None,
            published: 100 - k as i64,
        })
        .collect();
    Channel { id: id.to_string(), title: id.to_string(), url: id.to_string(), entries }
}

#[test]
fn collect_batch_keeps_only_successes_in_order() {
    let results = vec![
        Some(channel("one", 2)),
        None,
        Some(channel("two", 0)),
        None,
    ];
    let batch = collect_batch(&results);
    assert_eq!(batch.len(), 2);
    assert_eq!(batch[0].id, "one");
    assert_eq!(batch[0].entries.len(), 2);
    assert_eq!(batch[0].entries[0].id, "one-0");
    assert_eq!(batch[1].id, "two");
}

#[test]
fn collect_batch_of_all_failures_is_empty() {
    let results: Vec<Option<Channel>> = vec![None, None, None];
    assert!(collect_batch(&results).is_empty());
}
