//! The snapshot of a file system at rest, said directly: a recursion into the
//! directories themselves, with no records in between. An exploration that
//! wrote down what the disk holds and left nothing unread gives this very
//! snapshot.

use crate::entry::EntryModel;
use crate::error::ScanError;
use crate::explore::{closed, expands, fully_read, supplied, ExplorerModel};
use crate::observe::{find, Probe, RawModel, RecordModel};
use crate::order::arranged;
use crate::snapshot::{
    children_of, entry_of, gathered, level_fails, level_of, listed, snapshot_of,
};
use vstd::prelude::*;

verus! {

/// A file system at rest: for each path, what reading the directory there
/// gives, its entries or nothing if it cannot be read.
pub struct Disk {
    pub listing: spec_fn(Seq<char>) -> Option<Seq<RawModel>>,
}

impl Disk {
    pub open spec fn read(self, path: Seq<char>) -> Option<Seq<RawModel>> {
        (self.listing)(path)
    }
}

pub open spec fn direct_children(disk: Disk, raw: RawModel, level: nat, max_depth: nat) -> Option<
    Seq<EntryModel>,
>
    decreases max_depth - level, 0nat, 0nat,
{
    if raw.probe is Directory && level < max_depth {
        match disk.read(raw.path) {
            Some(below) => direct_level(disk, below, level + 1, max_depth),
            None => None,
        }
    } else {
        None
    }
}

pub open spec fn direct_entry(disk: Disk, raw: RawModel, level: nat, max_depth: nat) -> EntryModel
    decreases max_depth - level, 0nat, 1nat,
{
    EntryModel {
        name: raw.name,
        path: raw.path,
        is_dir: raw.probe is Directory,
        is_file: raw.probe is File,
        children: direct_children(disk, raw, level, max_depth),
        size: match raw.probe {
            Probe::File(bytes) => Some(bytes),
            _ => None,
        },
    }
}

pub open spec fn direct_gathered(
    disk: Disk,
    raws: Seq<RawModel>,
    level: nat,
    max_depth: nat,
) -> Seq<EntryModel>
    decreases max_depth - level, 1nat, raws.len(),
{
    if raws.len() == 0 {
        Seq::empty()
    } else {
        let front = direct_gathered(disk, raws.drop_last(), level, max_depth);
        if listed(raws.last()) {
            front.push(direct_entry(disk, raws.last(), level, max_depth))
        } else {
            front
        }
    }
}

/// The entries of one directory: none if the lookup on a visible entry
/// failed, else the visible entries that are still there, each directory
/// above the depth limit with the entries of its own, all in order.
pub open spec fn direct_level(disk: Disk, raws: Seq<RawModel>, level: nat, max_depth: nat) -> Option<
    Seq<EntryModel>,
>
    decreases max_depth - level, 2nat, 0nat,
{
    if level_fails(raws) {
        None
    } else {
        Some(arranged(direct_gathered(disk, raws, level, max_depth)))
    }
}

/// The snapshot of the directory at `path` on `disk`.
pub open spec fn direct_snapshot(root: Probe, path: Seq<char>, disk: Disk, max_depth: nat) -> Result<
    Seq<EntryModel>,
    ScanError,
> {
    match root {
        Probe::Missing => Err(ScanError::NotFound),
        Probe::File(_) | Probe::Other => Err(ScanError::NotADirectory),
        Probe::Failed => Err(ScanError::MetadataError),
        Probe::Directory => match disk.read(path) {
            Some(raws) => match direct_level(disk, raws, 0, max_depth) {
                Some(list) => Ok(list),
                None => Err(ScanError::MetadataError),
            },
            None => Err(ScanError::MetadataError),
        },
    }
}

/// Each record holds what the disk gives for its directory.
pub open spec fn faithful(records: Seq<RecordModel>, disk: Disk) -> bool {
    forall|r: int|
        0 <= r < records.len() ==> (#[trigger] records[r]).entries == disk.read(records[r].path)
}

/// A record that is found is one of the records, for the directory and level
/// that were asked for.
pub proof fn lemma_found_is_held(records: Seq<RecordModel>, path: Seq<char>, level: nat) -> (at:
    int)
    requires
        find(records, path, level) is Some,
    ensures
        0 <= at < records.len(),
        find(records, path, level) == Some(records[at]),
        records[at].path == path,
        records[at].level == level,
    decreases records.len(),
{
    if records[0].path == path && records[0].level == level {
        0
    } else {
        let rest = lemma_found_is_held(records.drop_first(), path, level);
        assert(records.drop_first()[rest] == records[rest + 1]);
        rest + 1
    }
}

proof fn lemma_children_direct(
    records: Seq<RecordModel>,
    disk: Disk,
    r: int,
    i: int,
    max_depth: nat,
)
    requires
        faithful(records, disk),
        closed(records, max_depth),
        0 <= r < records.len(),
        records[r].level <= max_depth,
        records[r].entries matches Some(raws) && !level_fails(raws) && 0 <= i < raws.len()
            && listed(raws[i]),
    ensures
        children_of(records, records[r].entries->0[i], records[r].level, max_depth)
            == direct_children(disk, records[r].entries->0[i], records[r].level, max_depth),
    decreases max_depth - records[r].level, 0nat, 0nat,
{
    let level = records[r].level;
    let raw = records[r].entries->0[i];
    if raw.probe is Directory && level < max_depth {
        assert(expands(records[r], i, max_depth));
        let at = lemma_found_is_held(records, raw.path, level + 1);
        match records[at].entries {
            Some(below) => {
                lemma_level_direct(records, disk, at, max_depth);
            },
            None => {},
        }
    }
}

proof fn lemma_gathered_direct(
    records: Seq<RecordModel>,
    disk: Disk,
    r: int,
    upto: int,
    max_depth: nat,
)
    requires
        faithful(records, disk),
        closed(records, max_depth),
        0 <= r < records.len(),
        records[r].level <= max_depth,
        records[r].entries matches Some(raws) && !level_fails(raws) && 0 <= upto <= raws.len(),
    ensures
        gathered(records, records[r].entries->0.take(upto), records[r].level, max_depth)
            == direct_gathered(
            disk,
            records[r].entries->0.take(upto),
            records[r].level,
            max_depth,
        ),
    decreases max_depth - records[r].level, 1nat, upto,
{
    let raws = records[r].entries->0;
    let level = records[r].level;
    let part = raws.take(upto);
    if upto > 0 {
        assert(part.drop_last() =~= raws.take(upto - 1));
        assert(part.last() == raws[upto - 1]);
        lemma_gathered_direct(records, disk, r, upto - 1, max_depth);
        if listed(raws[upto - 1]) {
            lemma_children_direct(records, disk, r, upto - 1, max_depth);
            assert(entry_of(records, part.last(), level, max_depth) == direct_entry(
                disk,
                part.last(),
                level,
                max_depth,
            ));
        }
        assert(gathered(records, part, level, max_depth) == direct_gathered(
            disk,
            part,
            level,
            max_depth,
        ));
    } else {
        assert(part.len() == 0);
    }
}

proof fn lemma_level_direct(records: Seq<RecordModel>, disk: Disk, r: int, max_depth: nat)
    requires
        faithful(records, disk),
        closed(records, max_depth),
        0 <= r < records.len(),
        records[r].level <= max_depth,
        records[r].entries is Some,
    ensures
        level_of(records, records[r].entries->0, records[r].level, max_depth) == direct_level(
            disk,
            records[r].entries->0,
            records[r].level,
            max_depth,
        ),
    decreases max_depth - records[r].level, 2nat, 0nat,
{
    let raws = records[r].entries->0;
    if !level_fails(raws) {
        lemma_gathered_direct(records, disk, r, raws.len() as int, max_depth);
        assert(raws.take(raws.len() as int) =~= raws);
    }
}

/// From records that hold what the disk holds, with none missing, the
/// snapshot is the direct snapshot of the disk.
pub proof fn lemma_snapshot_is_direct(
    root: Probe,
    path: Seq<char>,
    records: Seq<RecordModel>,
    disk: Disk,
    max_depth: nat,
)
    requires
        faithful(records, disk),
        closed(records, max_depth),
        root is Directory ==> find(records, path, 0) is Some,
    ensures
        snapshot_of(root, path, records, max_depth) == direct_snapshot(
            root,
            path,
            disk,
            max_depth,
        ),
{
    if root is Directory {
        let at = lemma_found_is_held(records, path, 0);
        if records[at].entries is Some {
            lemma_level_direct(records, disk, at, max_depth);
        }
    }
}

/// Supplying what the disk holds keeps the records faithful.
pub proof fn lemma_supplied_faithful(
    state: ExplorerModel,
    disk: Disk,
    entries: Option<Seq<RawModel>>,
)
    requires
        faithful(state.records, disk),
        state.pending.len() > 0 ==> entries == disk.read(state.pending.last().path),
    ensures
        faithful(supplied(state, entries).records, disk),
{
    if state.pending.len() > 0 {
        let after = supplied(state, entries).records;
        assert forall|r: int| 0 <= r < after.len() implies (#[trigger] after[r]).entries
            == disk.read(after[r].path) by {
            if r < state.records.len() {
                assert(after[r] == state.records[r]);
            }
        }
    }
}

/// An exploration that wrote down what the disk holds, once nothing is left
/// to read, ends in the direct snapshot of the disk.
pub proof fn lemma_exploration_is_direct(state: ExplorerModel, disk: Disk)
    requires
        faithful(state.records, disk),
        fully_read(state),
    ensures
        snapshot_of(state.probe, state.root, state.records, state.max_depth) == direct_snapshot(
            state.probe,
            state.root,
            disk,
            state.max_depth,
        ),
{
    lemma_snapshot_is_direct(state.probe, state.root, state.records, disk, state.max_depth);
}

} // verus!
