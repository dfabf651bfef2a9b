use fs_inspector::error::WatchError;
use fs_inspector::event::{ChangeKind, ModifyDetail, NativeKind, RawEvent, Signal};
use fs_inspector::watch::{dispatch, unwatch_dir, watch_dir, WatcherState};
use std::rc::Rc;

fn change(kind: NativeKind, paths: &[&str]) -> Result<RawEvent, String> {
    Ok(RawEvent { kind, paths: paths.iter().map(|p| p.to_string()).collect() })
}

fn start(state: &mut WatcherState<u32>, id: &str, root: &str, handle: u32) -> Result<(), WatchError> {
    watch_dir(state, root.to_string(), id.to_string(), Some(handle))
}

#[test]
fn a_new_registry_is_empty() {
    let state: WatcherState<u32> = WatcherState::new();
    assert!(!state.is_watching("a"));
    assert_eq!(state.watched_root("a"), None);
    assert!(state.active_ids().is_empty());
    let state: WatcherState<u32> = WatcherState::default();
    assert!(state.active_ids().is_empty());
}

#[test]
fn a_started_session_is_registered() {
    let mut state = WatcherState::new();
    assert_eq!(start(&mut state, "a", "/root/a", 1), Ok(()));
    assert!(state.is_watching("a"));
    assert_eq!(state.watched_root("a"), Some(&"/root/a".to_string()));
    assert_eq!(state.active_ids(), vec!["a".to_string()]);
    assert!(!state.is_watching("b"));
}

#[test]
fn stopping_twice_succeeds_twice() {
    let mut state = WatcherState::new();
    start(&mut state, "a", "/root/a", 1).unwrap();
    start(&mut state, "b", "/root/b", 2).unwrap();
    assert_eq!(unwatch_dir(&mut state, "a"), Ok(()));
    let after_once = (state.active_ids(), state.watched_root("b").cloned());
    assert_eq!(unwatch_dir(&mut state, "a"), Ok(()));
    let after_twice = (state.active_ids(), state.watched_root("b").cloned());
    assert_eq!(after_once, after_twice);
    assert_eq!(after_twice.0, vec!["b".to_string()]);
    assert!(!state.is_watching("a"));
}

#[test]
fn stopping_an_unknown_session_is_no_error() {
    let mut state: WatcherState<u32> = WatcherState::new();
    assert_eq!(unwatch_dir(&mut state, "never-started"), Ok(()));
    assert!(state.active_ids().is_empty());
}

#[test]
fn a_second_start_replaces_the_first() {
    let mut state = WatcherState::new();
    start(&mut state, "x", "/root/a", 1).unwrap();
    start(&mut state, "other", "/root/o", 2).unwrap();
    start(&mut state, "x", "/root/b", 3).unwrap();
    let ids = state.active_ids();
    assert_eq!(ids.iter().filter(|id| id.as_str() == "x").count(), 1);
    assert_eq!(ids.len(), 2);
    assert_eq!(state.watched_root("x"), Some(&"/root/b".to_string()));
    assert_eq!(state.watched_root("other"), Some(&"/root/o".to_string()));
    assert_eq!(dispatch(&state, "x", "/root/a", change(NativeKind::Create, &["/root/a/f"])), None);
    let sent = dispatch(&state, "x", "/root/b", change(NativeKind::Create, &["/root/b/f"]));
    assert!(sent.is_some());
}

#[test]
fn a_replaced_handle_is_released_at_once() {
    let first = Rc::new(());
    let second = Rc::new(());
    let mut state = WatcherState::new();
    watch_dir(&mut state, "/a".to_string(), "x".to_string(), Some(first.clone())).unwrap();
    assert_eq!(Rc::strong_count(&first), 2);
    watch_dir(&mut state, "/b".to_string(), "x".to_string(), Some(second.clone())).unwrap();
    assert_eq!(Rc::strong_count(&first), 1);
    assert_eq!(Rc::strong_count(&second), 2);
    unwatch_dir(&mut state, "x").unwrap();
    assert_eq!(Rc::strong_count(&second), 1);
}

#[test]
fn a_failed_start_reports_an_invalid_path() {
    let mut state: WatcherState<u32> = WatcherState::new();
    let failed = watch_dir(&mut state, "/gone".to_string(), "x".to_string(), None);
    assert_eq!(failed, Err(WatchError::InvalidPath));
    assert!(!state.is_watching("x"));
}

#[test]
fn a_failed_restart_leaves_no_session() {
    let mut state = WatcherState::new();
    start(&mut state, "x", "/root/a", 1).unwrap();
    start(&mut state, "y", "/root/y", 2).unwrap();
    let failed = watch_dir(&mut state, "/gone".to_string(), "x".to_string(), None);
    assert_eq!(failed, Err(WatchError::InvalidPath));
    assert!(!state.is_watching("x"));
    assert!(state.is_watching("y"));
}

#[test]
fn an_event_of_a_registered_session_is_delivered() {
    let mut state = WatcherState::new();
    start(&mut state, "p1", "/root", 1).unwrap();
    let sent = dispatch(&state, "p1", "/root", change(NativeKind::Modify(ModifyDetail::Name), &["/root/a", "/root/b"]))
        .unwrap();
    assert_eq!(sent.channel, "fs-change:p1");
    match sent.signal {
        Signal::Change(notification) => {
            assert_eq!(notification.session_id, "p1");
            assert_eq!(notification.kind, ChangeKind::Renamed);
            assert_eq!(notification.paths, vec!["/root/a".to_string(), "/root/b".to_string()]);
        }
        Signal::RuntimeError { .. } => panic!("a change was expected"),
    }
}

#[test]
fn nothing_is_delivered_after_a_stop() {
    let mut state = WatcherState::new();
    start(&mut state, "p1", "/root", 1).unwrap();
    unwatch_dir(&mut state, "p1").unwrap();
    assert_eq!(dispatch(&state, "p1", "/root", change(NativeKind::Modify(ModifyDetail::Data), &["/root/a"])), None);
    assert_eq!(dispatch(&state, "p1", "/root", Err("late".to_string())), None);
}

#[test]
fn nothing_is_delivered_for_an_unknown_session() {
    let state: WatcherState<u32> = WatcherState::new();
    assert_eq!(dispatch(&state, "p1", "/root", change(NativeKind::Modify(ModifyDetail::Data), &["/root/a"])), None);
}

#[test]
fn a_failure_of_the_watch_is_reported_and_the_session_stays() {
    let mut state = WatcherState::new();
    start(&mut state, "p1", "/root", 1).unwrap();
    let sent = dispatch(&state, "p1", "/root", Err("queue overflow".to_string())).unwrap();
    assert_eq!(sent.channel, "fs-error:p1");
    assert_eq!(
        sent.signal,
        Signal::RuntimeError { session_id: "p1".to_string(), message: "queue overflow".to_string() }
    );
    assert!(state.is_watching("p1"));
    assert!(dispatch(&state, "p1", "/root", change(NativeKind::Create, &["/root/n"])).is_some());
}

#[test]
fn sessions_are_told_apart_by_identifier() {
    let mut state = WatcherState::new();
    start(&mut state, "a", "/root", 1).unwrap();
    start(&mut state, "b", "/root", 2).unwrap();
    unwatch_dir(&mut state, "a").unwrap();
    assert_eq!(dispatch(&state, "a", "/root", change(NativeKind::Create, &["/root/n"])), None);
    let sent = dispatch(&state, "b", "/root", change(NativeKind::Create, &["/root/n"])).unwrap();
    assert_eq!(sent.channel, "fs-change:b");
}

#[test]
fn a_stop_releases_only_the_handle_of_its_session() {
    let kept = Rc::new(());
    let dropped = Rc::new(());
    let mut state = WatcherState::new();
    watch_dir(&mut state, "/k".to_string(), "keep".to_string(), Some(kept.clone())).unwrap();
    watch_dir(&mut state, "/d".to_string(), "drop".to_string(), Some(dropped.clone())).unwrap();
    unwatch_dir(&mut state, "drop").unwrap();
    assert_eq!(Rc::strong_count(&dropped), 1);
    assert_eq!(Rc::strong_count(&kept), 2);
    unwatch_dir(&mut state, "drop").unwrap();
    assert_eq!(Rc::strong_count(&kept), 2);
}

#[test]
fn a_failed_restart_releases_the_old_handle() {
    let old = Rc::new(());
    let mut state = WatcherState::new();
    watch_dir(&mut state, "/a".to_string(), "x".to_string(), Some(old.clone())).unwrap();
    let failed = watch_dir(&mut state, "/gone".to_string(), "x".to_string(), None);
    assert_eq!(failed, Err(WatchError::InvalidPath));
    assert_eq!(Rc::strong_count(&old), 1);
}
