//! File-system inspection for a project browser: bounded-depth directory
//! snapshots and a registry of live watch sessions.
//!
//! The library decides; its caller performs the reads. Everything that touches
//! the disk or the operating system's watch facility is handed in as plain
//! values, and every decision taken on those values is proved against a
//! mathematical model.
//!
//! * [`filter`] says which entries are shown, [`order`] in which order.
//! * [`observe`] holds what was read; [`explore`] decides what to read next;
//!   [`snapshot`] turns what was read into the tree of [`entry`] nodes;
//!   [`direct`] states what that tree is for a file system at rest.
//! * [`reader`] guards the reading of a file as text.
//! * [`watch`] keeps the watch sessions; [`event`] shapes what they report,
//!   and [`native`] takes the reports in from the `notify` crate.
//! * [`config`] and [`error`] hold the project records and the failures.

pub mod config;
pub mod direct;
pub mod entry;
pub mod error;
pub mod event;
pub mod explore;
pub mod filter;
pub mod native;
pub mod observe;
pub mod order;
pub mod reader;
pub mod snapshot;
pub mod text;
pub mod watch;
