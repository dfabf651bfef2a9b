//! What was read from the file system, as plain values. The caller performs
//! the reads and writes their outcomes down in these types; the library never
//! looks at the disk itself.

use vstd::prelude::*;

verus! {

/// The outcome of a metadata lookup on one path.
#[derive(Debug, Clone, Copy, PartialEq, Eq)]
pub enum Probe {
    /// Nothing is there. For a directory entry: it vanished after it was
    /// listed.
    Missing,
    Directory,
    /// A regular file of this many bytes.
    File(u64),
    /// Neither a directory nor a regular file.
    Other,
    /// The lookup itself failed.
    Failed,
}

/// One entry of a directory as it was read, before any filtering.
#[derive(Debug, PartialEq, Eq)]
pub struct RawEntry {
    /// Base name.
    pub name: String,
    /// Absolute path.
    pub path: String,
    pub probe: Probe,
}

pub struct RawModel {
    pub name: Seq<char>,
    pub path: Seq<char>,
    pub probe: Probe,
}

impl View for RawEntry {
    type V = RawModel;

    open spec fn view(&self) -> RawModel {
        RawModel { name: self.name@, path: self.path@, probe: self.probe }
    }
}

pub open spec fn raw_models(list: Seq<RawEntry>) -> Seq<RawModel> {
    Seq::new(list.len(), |i: int| list[i]@)
}

/// The outcome of reading one directory. `level` counts the directories
/// between the root and this one: the root's own listing has level 0.
#[derive(Debug, PartialEq, Eq)]
pub struct DirRecord {
    pub path: String,
    pub level: u32,
    /// The entries in the order in which they were read; `None` when the
    /// directory could not be read to the end.
    pub entries: Option<Vec<RawEntry>>,
}

pub struct RecordModel {
    pub path: Seq<char>,
    pub level: nat,
    pub entries: Option<Seq<RawModel>>,
}

impl View for DirRecord {
    type V = RecordModel;

    open spec fn view(&self) -> RecordModel {
        RecordModel {
            path: self.path@,
            level: self.level as nat,
            entries: match self.entries {
                Some(list) => Some(raw_models(list@)),
                None => None,
            },
        }
    }
}

pub open spec fn record_models(list: Seq<DirRecord>) -> Seq<RecordModel> {
    Seq::new(list.len(), |i: int| list[i]@)
}

/// Everything that was read for one snapshot: the lookup on the root, and one
/// record for each directory that was read.
#[derive(Debug, PartialEq, Eq)]
pub struct Observed {
    pub root: Probe,
    pub records: Vec<DirRecord>,
}

/// The first record of the directory at `path` read at `level`, if there is
/// one.
pub open spec fn find(records: Seq<RecordModel>, path: Seq<char>, level: nat) -> Option<
    RecordModel,
>
    decreases records.len(),
{
    if records.len() == 0 {
        None
    } else if records[0].path == path && records[0].level == level {
        Some(records[0])
    } else {
        find(records.drop_first(), path, level)
    }
}

/// Looks a directory up among the records.
pub fn locate(records: &Vec<DirRecord>, path: &String, level: u32) -> (at: Option<usize>)
    ensures
        match at {
            Some(i) => i < records.len() && find(record_models(records@), path@, level as nat)
                == Some(records[i as int]@),
            None => find(record_models(records@), path@, level as nat) is None,
        },
{
    let ghost all = record_models(records@);
    let mut i: usize = 0;
    proof {
        assert(all.skip(0) =~= all);
    }
    while i < records.len()
        invariant
            i <= records.len(),
            all == record_models(records@),
            find(all, path@, level as nat) == find(all.skip(i as int), path@, level as nat),
        decreases records.len() - i,
    {
        proof {
            assert(all.skip(i as int)[0] == records[i as int]@);
            assert(all.skip(i as int).drop_first() =~= all.skip(i + 1));
        }
        if records[i].level == level && records[i].path == *path {
            return Some(i);
        }
        i += 1;
    }
    None
}

} // verus!
