//! Change notifications: what a watch reports, in the shape the event sink
//! takes.

use crate::text::joined;
use vstd::prelude::*;

verus! {

/// What the watch facility says was modified.
#[derive(Debug, Clone, Copy, PartialEq, Eq)]
pub enum ModifyDetail {
    Any,
    Data,
    Metadata,
    /// The name: a rename or a move.
    Name,
    Other,
}

/// What the watch facility says happened, by its own categories.
#[derive(Debug, Clone, Copy, PartialEq, Eq)]
pub enum NativeKind {
    Any,
    Access,
    Create,
    Modify(ModifyDetail),
    Remove,
    Other,
}

/// What happened, as the sink is told.
#[derive(Debug, Clone, Copy, PartialEq, Eq)]
pub enum ChangeKind {
    Created,
    Modified,
    Removed,
    Renamed,
    Other,
}

/// One event as the watch facility delivered it: its kind and every path it
/// involves, a rename's two among them.
#[derive(Debug, Clone, PartialEq, Eq)]
pub struct RawEvent {
    pub kind: NativeKind,
    pub paths: Vec<String>,
}

/// The notification that stands for one event of a session.
#[derive(Debug, Clone, PartialEq, Eq)]
pub struct ChangeNotification {
    pub session_id: String,
    pub kind: ChangeKind,
    pub paths: Vec<String>,
}

/// What goes to the sink.
#[derive(Debug, Clone, PartialEq, Eq)]
pub enum Signal {
    Change(ChangeNotification),
    /// The watch itself reported a failure. The session goes on.
    RuntimeError { session_id: String, message: String },
}

/// A signal and the channel it is sent on.
#[derive(Debug, Clone, PartialEq, Eq)]
pub struct Delivery {
    pub channel: String,
    pub signal: Signal,
}

/// The texts of a list of paths, in order.
pub open spec fn path_texts(paths: Seq<String>) -> Seq<Seq<char>> {
    Seq::new(paths.len(), |i: int| paths[i]@)
}

/// A change of name is a rename, any other modification a modification;
/// what is neither a creation, a modification nor a removal is `Other`.
pub open spec fn classified(kind: NativeKind) -> ChangeKind {
    match kind {
        NativeKind::Create => ChangeKind::Created,
        NativeKind::Modify(ModifyDetail::Name) => ChangeKind::Renamed,
        NativeKind::Modify(_) => ChangeKind::Modified,
        NativeKind::Remove => ChangeKind::Removed,
        NativeKind::Any | NativeKind::Access | NativeKind::Other => ChangeKind::Other,
    }
}

/// Maps the watch facility's category to the sink's.
pub fn classify(kind: NativeKind) -> (change: ChangeKind)
    ensures
        change == classified(kind),
{
    match kind {
        NativeKind::Create => ChangeKind::Created,
        NativeKind::Modify(detail) => match detail {
            ModifyDetail::Name => ChangeKind::Renamed,
            _ => ChangeKind::Modified,
        },
        NativeKind::Remove => ChangeKind::Removed,
        NativeKind::Any => ChangeKind::Other,
        NativeKind::Access => ChangeKind::Other,
        NativeKind::Other => ChangeKind::Other,
    }
}

impl ChangeKind {
    pub open spec fn label_text(self) -> Seq<char> {
        match self {
            ChangeKind::Created => "created"@,
            ChangeKind::Modified => "modified"@,
            ChangeKind::Removed => "removed"@,
            ChangeKind::Renamed => "renamed"@,
            ChangeKind::Other => "other"@,
        }
    }

    /// The kind as the sink's payload spells it.
    pub fn label(&self) -> (text: &'static str)
        ensures
            text@ == self.label_text(),
    {
        match self {
            ChangeKind::Created => "created",
            ChangeKind::Modified => "modified",
            ChangeKind::Removed => "removed",
            ChangeKind::Renamed => "renamed",
            ChangeKind::Other => "other",
        }
    }
}

pub open spec fn change_channel_text(id: Seq<char>) -> Seq<char> {
    "fs-change:"@ + id
}

pub open spec fn error_channel_text(id: Seq<char>) -> Seq<char> {
    "fs-error:"@ + id
}

/// The channel on which the changes of session `id` are sent.
pub fn change_channel(id: &str) -> (channel: String)
    ensures
        channel@ == change_channel_text(id@),
{
    joined("fs-change:", id)
}

/// The channel on which the failures of the watch of session `id` are sent.
pub fn error_channel(id: &str) -> (channel: String)
    ensures
        channel@ == error_channel_text(id@),
{
    joined("fs-error:", id)
}

/// What the sink receives for `incoming`, an event or a failure of the watch
/// of session `id`.
pub open spec fn delivers(delivery: Delivery, id: Seq<char>, incoming: Result<RawEvent, String>) -> bool {
    match incoming {
        Ok(event) => {
            &&& delivery.channel@ == change_channel_text(id)
            &&& delivery.signal matches Signal::Change(notification)
            &&& notification.session_id@ == id
            &&& notification.kind == classified(event.kind)
            &&& notification.paths == event.paths
        },
        Err(failure) => {
            &&& delivery.channel@ == error_channel_text(id)
            &&& delivery.signal matches Signal::RuntimeError { session_id, message }
            &&& session_id@ == id
            &&& message == failure
        },
    }
}

/// Shapes what the watch of session `id` delivered for the sink: each event
/// becomes one notification that keeps all its paths, each failure one error
/// signal.
pub fn normalize(id: &str, incoming: Result<RawEvent, String>) -> (delivery: Delivery)
    ensures
        delivers(delivery, id@, incoming),
{
    match incoming {
        Ok(event) => Delivery {
            channel: change_channel(id),
            signal: Signal::Change(
                ChangeNotification {
                    session_id: id.to_owned(),
                    kind: classify(event.kind),
                    paths: event.paths,
                },
            ),
        },
        Err(failure) => Delivery {
            channel: error_channel(id),
            signal: Signal::RuntimeError { session_id: id.to_owned(), message: failure },
        },
    }
}

} // verus!
