//! Events of the `notify` crate, taken in as plain values.

use crate::event::{path_texts, ModifyDetail, NativeKind, RawEvent};
use notify::event::ModifyKind;
use notify::EventKind;
use vstd::prelude::*;

verus! {

#[verifier::external_type_specification]
#[verifier::external_body]
pub struct ExNotifyEvent(notify::Event);

#[verifier::external_type_specification]
#[verifier::external_body]
pub struct ExNotifyError(notify::Error);

/// The kind that a `notify::Event` carries in its field `kind`, variant for
/// variant.
pub uninterp spec fn event_kind(event: notify::Event) -> NativeKind;

/// The paths that a `notify::Event` carries in its field `paths`, in their
/// order, each as the text that `Path::to_string_lossy` gives.
pub uninterp spec fn event_paths(event: notify::Event) -> Seq<Seq<char>>;

/// Reads the field `kind` of a `notify::Event` and writes it down variant by
/// variant: `notify::EventKind`, and under `Modify` its
/// `notify::event::ModifyKind`. The result depends on the event alone and is
/// what [`event_kind`] names; which kind that is is not claimed.
#[verifier::external_body]
fn native_kind(event: &notify::Event) -> (kind: NativeKind)
    ensures
        kind == event_kind(*event),
{
    match event.kind {
        EventKind::Any => NativeKind::Any,
        EventKind::Access(_) => NativeKind::Access,
        EventKind::Create(_) => NativeKind::Create,
        EventKind::Modify(ModifyKind::Any) => NativeKind::Modify(ModifyDetail::Any),
        EventKind::Modify(ModifyKind::Data(_)) => NativeKind::Modify(ModifyDetail::Data),
        EventKind::Modify(ModifyKind::Metadata(_)) => NativeKind::Modify(ModifyDetail::Metadata),
        EventKind::Modify(ModifyKind::Name(_)) => NativeKind::Modify(ModifyDetail::Name),
        EventKind::Modify(ModifyKind::Other) => NativeKind::Modify(ModifyDetail::Other),
        EventKind::Remove(_) => NativeKind::Remove,
        EventKind::Other => NativeKind::Other,
    }
}

/// Reads the field `paths` of a `notify::Event`, each path as text by
/// `Path::to_string_lossy`. The result depends on the event alone and is
/// what [`event_paths`] names; which paths those are is not claimed.
#[verifier::external_body]
fn native_paths(event: &notify::Event) -> (paths: Vec<String>)
    ensures
        path_texts(paths@) == event_paths(*event),
{
    event.paths.iter().map(|path| path.to_string_lossy().into_owned()).collect()
}

/// The text that `notify::Error` displays. Nothing is claimed of the result:
/// for an I/O failure the text comes from the operating system.
#[verifier::external_body]
fn native_failure(error: &notify::Error) -> (text: String) {
    error.to_string()
}

/// Takes in what a `notify` watcher handed to its event handler: an event
/// as its kind and all its paths in their order, a failure as its text.
pub fn incoming_from(outcome: &Result<notify::Event, notify::Error>) -> (incoming: Result<
    RawEvent,
    String,
>)
    ensures
        match outcome {
            Ok(event) => {
                &&& incoming matches Ok(raw)
                &&& raw.kind == event_kind(*event)
                &&& path_texts(raw.paths@) == event_paths(*event)
            },
            Err(_) => incoming is Err,
        },
{
    match outcome {
        Ok(event) => Ok(RawEvent { kind: native_kind(event), paths: native_paths(event) }),
        Err(error) => Err(native_failure(error)),
    }
}

} // verus!
