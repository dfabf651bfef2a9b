use fs_inspector::event::{
    change_channel, classify, error_channel, normalize, ChangeKind, ChangeNotification, Delivery,
    ModifyDetail, NativeKind, RawEvent, Signal,
};
use fs_inspector::native::incoming_from;
use notify::event::{
    AccessKind, CreateKind, DataChange, MetadataKind, ModifyKind, RemoveKind, RenameMode,
};
use notify::{Event, EventKind};
use std::path::PathBuf;

#[test]
fn native_kinds_map_to_change_kinds() {
    assert_eq!(classify(NativeKind::Create), ChangeKind::Created);
    assert_eq!(classify(NativeKind::Modify(ModifyDetail::Any)), ChangeKind::Modified);
    assert_eq!(classify(NativeKind::Modify(ModifyDetail::Data)), ChangeKind::Modified);
    assert_eq!(classify(NativeKind::Modify(ModifyDetail::Metadata)), ChangeKind::Modified);
    assert_eq!(classify(NativeKind::Modify(ModifyDetail::Other)), ChangeKind::Modified);
    assert_eq!(classify(NativeKind::Modify(ModifyDetail::Name)), ChangeKind::Renamed);
    assert_eq!(classify(NativeKind::Remove), ChangeKind::Removed);
    assert_eq!(classify(NativeKind::Any), ChangeKind::Other);
    assert_eq!(classify(NativeKind::Access), ChangeKind::Other);
    assert_eq!(classify(NativeKind::Other), ChangeKind::Other);
}

#[test]
fn change_kinds_have_their_labels() {
    assert_eq!(ChangeKind::Created.label(), "created");
    assert_eq!(ChangeKind::Modified.label(), "modified");
    assert_eq!(ChangeKind::Removed.label(), "removed");
    assert_eq!(ChangeKind::Renamed.label(), "renamed");
    assert_eq!(ChangeKind::Other.label(), "other");
}

#[test]
fn channels_are_named_from_the_session() {
    assert_eq!(change_channel("p1"), "fs-change:p1");
    assert_eq!(error_channel("p1"), "fs-error:p1");
    assert_eq!(change_channel(""), "fs-change:");
    assert_eq!(change_channel("a:b"), "fs-change:a:b");
}

#[test]
fn an_event_becomes_one_notification_with_all_its_paths() {
    let event = RawEvent {
        kind: NativeKind::Modify(ModifyDetail::Name),
        paths: vec!["/r/old".to_string(), "/r/new".to_string()],
    };
    let delivery = normalize("s", Ok(event));
    assert_eq!(
        delivery,
        Delivery {
            channel: "fs-change:s".to_string(),
            signal: Signal::Change(ChangeNotification {
                session_id: "s".to_string(),
                kind: ChangeKind::Renamed,
                paths: vec!["/r/old".to_string(), "/r/new".to_string()],
            }),
        }
    );
}

#[test]
fn a_failure_becomes_an_error_signal() {
    let delivery = normalize("s", Err("lost".to_string()));
    assert_eq!(
        delivery,
        Delivery {
            channel: "fs-error:s".to_string(),
            signal: Signal::RuntimeError { session_id: "s".to_string(), message: "lost".to_string() },
        }
    );
}

fn taken(kind: EventKind, paths: &[&str]) -> RawEvent {
    let mut event = Event::new(kind);
    for path in paths {
        event = event.add_path(PathBuf::from(path));
    }
    incoming_from(&Ok(event)).unwrap()
}

#[test]
fn notify_events_are_taken_in_by_kind() {
    assert_eq!(taken(EventKind::Any, &[]).kind, NativeKind::Any);
    assert_eq!(taken(EventKind::Access(AccessKind::Read), &[]).kind, NativeKind::Access);
    assert_eq!(taken(EventKind::Create(CreateKind::File), &[]).kind, NativeKind::Create);
    assert_eq!(taken(EventKind::Create(CreateKind::Folder), &[]).kind, NativeKind::Create);
    assert_eq!(
        taken(EventKind::Modify(ModifyKind::Any), &[]).kind,
        NativeKind::Modify(ModifyDetail::Any)
    );
    assert_eq!(
        taken(EventKind::Modify(ModifyKind::Data(DataChange::Content)), &[]).kind,
        NativeKind::Modify(ModifyDetail::Data)
    );
    assert_eq!(
        taken(EventKind::Modify(ModifyKind::Metadata(MetadataKind::Permissions)), &[]).kind,
        NativeKind::Modify(ModifyDetail::Metadata)
    );
    assert_eq!(
        taken(EventKind::Modify(ModifyKind::Name(RenameMode::Both)), &[]).kind,
        NativeKind::Modify(ModifyDetail::Name)
    );
    assert_eq!(
        taken(EventKind::Modify(ModifyKind::Name(RenameMode::From)), &[]).kind,
        NativeKind::Modify(ModifyDetail::Name)
    );
    assert_eq!(
        taken(EventKind::Modify(ModifyKind::Other), &[]).kind,
        NativeKind::Modify(ModifyDetail::Other)
    );
    assert_eq!(taken(EventKind::Remove(RemoveKind::File), &[]).kind, NativeKind::Remove);
    assert_eq!(taken(EventKind::Other, &[]).kind, NativeKind::Other);
}

#[test]
fn notify_events_keep_their_paths_in_order() {
    let event = taken(EventKind::Modify(ModifyKind::Name(RenameMode::Both)), &["/r/old", "/r/new"]);
    assert_eq!(event.paths, vec!["/r/old".to_string(), "/r/new".to_string()]);
    assert!(taken(EventKind::Create(CreateKind::File), &[]).paths.is_empty());
    assert_eq!(taken(EventKind::Create(CreateKind::File), &["/r/é"]).paths, vec!["/r/é".to_string()]);
}

#[test]
fn notify_failures_are_taken_in_as_text() {
    let failure = incoming_from(&Err(notify::Error::generic("boom"))).unwrap_err();
    assert!(failure.contains("boom"));
    let failure = incoming_from(&Err(notify::Error::path_not_found())).unwrap_err();
    assert!(!failure.is_empty());
}

#[test]
fn a_notify_event_reaches_the_sink_shape() {
    let event = Event::new(EventKind::Remove(RemoveKind::Folder)).add_path(PathBuf::from("/r/d"));
    let delivery = normalize("w", incoming_from(&Ok(event)));
    assert_eq!(delivery.channel, "fs-change:w");
    assert_eq!(
        delivery.signal,
        Signal::Change(ChangeNotification {
            session_id: "w".to_string(),
            kind: ChangeKind::Removed,
            paths: vec!["/r/d".to_string()],
        })
    );
}
