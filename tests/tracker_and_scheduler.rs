use opnsense_reconciler::labels::{str_ends_with, str_starts_with};
use opnsense_reconciler::pairs::{find_key, set_pair, str_eq};
use opnsense_reconciler::scheduler::{SchedulerAction, SchedulerEvent, SchedulerState};
use opnsense_reconciler::tracker::{AppliedStateTracker, KeySet};

#[test]
fn tracker_starts_empty_and_records() {
    let mut t = AppliedStateTracker::new();
    assert!(!t.has_hostname("a.local"));
    t.record_hostname("a.local".to_string());
    t.record_hostname("a.local".to_string());
    assert!(t.has_hostname("a.local"));
    assert!(!t.has_description("a.local"));
    t.record_description("c:0".to_string());
    assert!(t.has_description("c:0"));
    assert!(!t.has_hostname("c:0"));
}

#[test]
fn tracker_seed_overwrites_state() {
    let mut t = AppliedStateTracker::new();
    t.record_hostname("old.local".to_string());
    t.seed(&vec!["a.local".to_string(), "b.local".to_string()], &vec!["x:1".to_string()]);
    assert!(!t.has_hostname("old.local"));
    assert!(t.has_hostname("a.local"));
    assert!(t.has_hostname("b.local"));
    assert!(t.has_description("x:1"));
    assert!(!t.has_description("x:2"));
}

#[test]
fn key_set_insert_is_idempotent() {
    let mut s = KeySet::new();
    s.insert("k".to_string());
    s.insert("k".to_string());
    assert!(s.contains("k"));
    assert!(!s.contains("j"));
    let from = KeySet::from_keys(&vec!["p".to_string(), "p".to_string()]);
    assert!(from.contains("p"));
}

#[test]
fn string_helpers() {
    assert!(str_eq("abc", "abc"));
    assert!(!str_eq("abc", "abd"));
    assert!(!str_eq("abc", "ab"));
    assert!(str_starts_with("port_forward.1.x", "port_forward."));
    assert!(!str_starts_with("port", "port_forward."));
    assert!(str_ends_with("svc.local", ".local"));
    assert!(!str_ends_with("svc.example.com", ".local"));
    assert!(!str_ends_with("local", ".local"));
    assert!(str_ends_with("é.local", ".local"));
}

#[test]
fn set_pair_replaces_existing_value() {
    let mut v = vec![("a".to_string(), "1".to_string())];
    set_pair(&mut v, "b".to_string(), "2".to_string());
    set_pair(&mut v, "a".to_string(), "3".to_string());
    assert_eq!(v.len(), 2);
    assert_eq!(find_key(&v, "a"), Some(0));
    assert_eq!(v[0].1, "3");
    assert_eq!(find_key(&v, "c"), None);
}

#[test]
fn scheduler_runs_one_cycle_at_a_time() {
    let mut s = SchedulerState::new();
    assert_eq!(s.step(SchedulerEvent::IntervalElapsed), SchedulerAction::StartCycle);
    assert_eq!(s.step(SchedulerEvent::IntervalElapsed), SchedulerAction::Wait);
    assert_eq!(s.step(SchedulerEvent::CycleCompleted), SchedulerAction::Sleep);
    assert_eq!(s.step(SchedulerEvent::IntervalElapsed), SchedulerAction::StartCycle);
}

#[test]
fn scheduler_shutdown_waits_for_cycle() {
    let mut s = SchedulerState::new();
    assert_eq!(s.step(SchedulerEvent::IntervalElapsed), SchedulerAction::StartCycle);
    assert_eq!(s.step(SchedulerEvent::ShutdownRequested), SchedulerAction::Wait);
    assert_eq!(s.step(SchedulerEvent::IntervalElapsed), SchedulerAction::Wait);
    assert_eq!(s.step(SchedulerEvent::CycleCompleted), SchedulerAction::Exit);
}

#[test]
fn scheduler_shutdown_while_sleeping_exits() {
    let mut s = SchedulerState::new();
    assert_eq!(s.step(SchedulerEvent::ShutdownRequested), SchedulerAction::Exit);
    assert_eq!(s.step(SchedulerEvent::IntervalElapsed), SchedulerAction::Exit);
}
