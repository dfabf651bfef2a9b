//! Deciding what to read for a snapshot. Reading a directory is the caller's
//! work; which directory is read next, and when enough has been read, is
//! decided here. The caller asks for the next request, reads that directory,
//! supplies what it found, and goes on until no request is left.

use crate::entry::{models, DirEntry, EntryModel};
use crate::error::ScanError;
use crate::filter::is_visible;
use crate::observe::{
    find, raw_models, record_models, DirRecord, Observed, Probe, RawEntry, RawModel, RecordModel,
};
use crate::order::ordered;
use crate::snapshot::{
    all_sound, blocks, depth_or_default, level_fails, list_dir, listed, snapshot_of, DEFAULT_DEPTH,
};
use vstd::prelude::*;

verus! {

/// A directory that is to be read, and the level its entries will have.
#[derive(Debug, PartialEq, Eq)]
pub struct Request {
    pub path: String,
    pub level: u32,
}

pub struct RequestModel {
    pub path: Seq<char>,
    pub level: nat,
}

impl View for Request {
    type V = RequestModel;

    open spec fn view(&self) -> RequestModel {
        RequestModel { path: self.path@, level: self.level as nat }
    }
}

pub open spec fn request_models(list: Seq<Request>) -> Seq<RequestModel> {
    Seq::new(list.len(), |i: int| list[i]@)
}

/// The state of an exploration: what is still to be read, on top of what was
/// read so far.
pub struct Explorer {
    root: String,
    max_depth: u32,
    pending: Vec<Request>,
    seen: Observed,
}

pub struct ExplorerModel {
    pub root: Seq<char>,
    pub probe: Probe,
    pub max_depth: nat,
    /// The open requests; the last one is served next.
    pub pending: Seq<RequestModel>,
    pub records: Seq<RecordModel>,
}

pub open spec fn entries_model(entries: Option<Vec<RawEntry>>) -> Option<Seq<RawModel>> {
    match entries {
        Some(list) => Some(raw_models(list@)),
        None => None,
    }
}

/// The directories among the listed entries of `raws`, each as a request at
/// `level`, in reading order.
pub open spec fn subdirectories(raws: Seq<RawModel>, level: nat) -> Seq<RequestModel>
    decreases raws.len(),
{
    if raws.len() == 0 {
        Seq::empty()
    } else {
        let front = subdirectories(raws.drop_last(), level);
        if listed(raws.last()) && raws.last().probe is Directory {
            front.push(RequestModel { path: raws.last().path, level })
        } else {
            front
        }
    }
}

/// What a directory read at `level` asks to be read in turn: its visible
/// directories, unless its listing failed or the depth limit is reached.
pub open spec fn follow_ups(entries: Option<Seq<RawModel>>, level: nat, max_depth: nat) -> Seq<
    RequestModel,
> {
    match entries {
        Some(raws) => if level < max_depth && !level_fails(raws) {
            subdirectories(raws, level + 1)
        } else {
            Seq::empty()
        },
        None => Seq::empty(),
    }
}

/// The state after the outcome of the request served next was supplied: the
/// request is closed, its outcome recorded and its follow-ups opened. With no
/// request open nothing changes.
pub open spec fn supplied(state: ExplorerModel, entries: Option<Seq<RawModel>>) -> ExplorerModel {
    if state.pending.len() == 0 {
        state
    } else {
        let served = state.pending.last();
        ExplorerModel {
            pending: state.pending.drop_last() + follow_ups(
                entries,
                served.level,
                state.max_depth,
            ),
            records: state.records.push(
                RecordModel { path: served.path, level: served.level, entries },
            ),
            ..state
        }
    }
}

/// The directory at `path` and `level` was read or is about to be.
pub open spec fn answered(state: ExplorerModel, path: Seq<char>, level: nat) -> bool {
    find(state.records, path, level) is Some || state.pending.contains(
        RequestModel { path, level },
    )
}

/// The snapshot expands entry `i` of this record.
pub open spec fn expands(record: RecordModel, i: int, max_depth: nat) -> bool {
    &&& record.level < max_depth
    &&& record.entries matches Some(raws)
    &&& !level_fails(raws)
    &&& 0 <= i < raws.len()
    &&& listed(raws[i])
    &&& raws[i].probe is Directory
}

/// Every directory that the snapshot expands was read or is about to be: the
/// root, if it is a directory, and each directory that a record lists above
/// the depth limit.
pub open spec fn covered(state: ExplorerModel) -> bool {
    &&& state.probe is Directory ==> answered(state, state.root, 0)
    &&& forall|r: int, i: int|
        0 <= r < state.records.len() && #[trigger] expands(state.records[r], i, state.max_depth)
            ==> answered(
            state,
            state.records[r].entries->0[i].path,
            state.records[r].level + 1,
        )
}

/// No directory is read, or asked for, below the depth limit.
pub open spec fn within_limit(state: ExplorerModel) -> bool {
    &&& forall|i: int|
        0 <= i < state.pending.len() ==> (#[trigger] state.pending[i]).level <= state.max_depth
    &&& forall|r: int|
        0 <= r < state.records.len() ==> (#[trigger] state.records[r]).level <= state.max_depth
}

/// What holds of an exploration at every step.
pub open spec fn consistent(state: ExplorerModel) -> bool {
    covered(state) && within_limit(state)
}

/// Every directory that a record lists above the depth limit has a record.
pub open spec fn closed(records: Seq<RecordModel>, max_depth: nat) -> bool {
    forall|r: int, i: int|
        0 <= r < records.len() && #[trigger] expands(records[r], i, max_depth) ==> find(
            records,
            records[r].entries->0[i].path,
            records[r].level + 1,
        ) is Some
}

/// Every directory that the snapshot expands has a record: the root, if it
/// is a directory, and from there on downwards.
pub open spec fn fully_read(state: ExplorerModel) -> bool {
    &&& state.probe is Directory ==> find(state.records, state.root, 0) is Some
    &&& closed(state.records, state.max_depth)
}

/// Once no request is open, nothing that the snapshot needs is unread.
pub proof fn lemma_nothing_left_unread(state: ExplorerModel)
    requires
        covered(state),
        state.pending.len() == 0,
    ensures
        fully_read(state),
{
}

/// A later record never replaces an earlier one of the same directory.
pub proof fn lemma_find_push(
    records: Seq<RecordModel>,
    added: RecordModel,
    path: Seq<char>,
    level: nat,
)
    ensures
        find(records.push(added), path, level) == if find(records, path, level) is Some {
            find(records, path, level)
        } else if added.path == path && added.level == level {
            Some(added)
        } else {
            None
        },
    decreases records.len(),
{
    if records.len() > 0 {
        assert(records.push(added).drop_first() =~= records.drop_first().push(added));
        lemma_find_push(records.drop_first(), added, path, level);
    } else {
        assert(records.push(added).drop_first() =~= records);
    }
}

proof fn lemma_subdirectories_hold(raws: Seq<RawModel>, level: nat, i: int)
    requires
        0 <= i < raws.len(),
        listed(raws[i]),
        raws[i].probe is Directory,
    ensures
        subdirectories(raws, level).contains(RequestModel { path: raws[i].path, level }),
    decreases raws.len(),
{
    let front = subdirectories(raws.drop_last(), level);
    let wanted = RequestModel { path: raws[i].path, level };
    if i == raws.len() - 1 {
        assert(front.push(wanted).last() == wanted);
    } else {
        assert(raws.drop_last()[i] == raws[i]);
        lemma_subdirectories_hold(raws.drop_last(), level, i);
        let at = choose|at: int| 0 <= at < front.len() && front[at] == wanted;
        if listed(raws.last()) && raws.last().probe is Directory {
            assert(subdirectories(raws, level)[at] == wanted);
        }
    }
}

proof fn lemma_answered_stays(
    state: ExplorerModel,
    entries: Option<Seq<RawModel>>,
    path: Seq<char>,
    level: nat,
)
    requires
        state.pending.len() > 0,
        answered(state, path, level),
    ensures
        answered(supplied(state, entries), path, level),
{
    let served = state.pending.last();
    let after = supplied(state, entries);
    let added = RecordModel { path: served.path, level: served.level, entries };
    lemma_find_push(state.records, added, path, level);
    if find(state.records, path, level) is None {
        let wanted = RequestModel { path, level };
        let at = choose|at: int| 0 <= at < state.pending.len() && state.pending[at] == wanted;
        if at < state.pending.len() - 1 {
            assert(after.pending[at] == wanted);
        }
    }
}

proof fn lemma_subdirectories_level(raws: Seq<RawModel>, level: nat)
    ensures
        forall|i: int|
            0 <= i < subdirectories(raws, level).len() ==> (#[trigger] subdirectories(
                raws,
                level,
            )[i]).level == level,
    decreases raws.len(),
{
    if raws.len() > 0 {
        let front = subdirectories(raws.drop_last(), level);
        let all = subdirectories(raws, level);
        lemma_subdirectories_level(raws.drop_last(), level);
        assert forall|i: int| 0 <= i < all.len() implies (#[trigger] all[i]).level == level by {
            if i < front.len() {
                assert(all[i] == front[i]);
            }
        }
    }
}

proof fn lemma_supplied_within_limit(state: ExplorerModel, entries: Option<Seq<RawModel>>)
    requires
        within_limit(state),
    ensures
        within_limit(supplied(state, entries)),
{
    if state.pending.len() > 0 {
        let after = supplied(state, entries);
        let served = state.pending.last();
        let more = follow_ups(entries, served.level, state.max_depth);
        if more.len() > 0 {
            lemma_subdirectories_level(entries->0, served.level + 1);
        }
        assert forall|i: int| 0 <= i < after.pending.len() implies (#[trigger] after.pending[i]).level
            <= after.max_depth by {
            if i < state.pending.len() - 1 {
                assert(after.pending[i] == state.pending[i]);
            } else {
                assert(after.pending[i] == more[i - (state.pending.len() - 1)]);
            }
        }
        assert forall|r: int| 0 <= r < after.records.len() implies (#[trigger] after.records[r]).level
            <= after.max_depth by {
            if r < state.records.len() {
                assert(after.records[r] == state.records[r]);
            }
        }
    }
}

proof fn lemma_supplied_covered(state: ExplorerModel, entries: Option<Seq<RawModel>>)
    requires
        covered(state),
    ensures
        covered(supplied(state, entries)),
{
    if state.pending.len() > 0 {
        let after = supplied(state, entries);
        let served = state.pending.last();
        if state.probe is Directory {
            lemma_answered_stays(state, entries, state.root, 0);
        }
        assert forall|r: int, i: int|
            0 <= r < after.records.len() && #[trigger] expands(
                after.records[r],
                i,
                after.max_depth,
            ) implies answered(
            after,
            after.records[r].entries->0[i].path,
            after.records[r].level + 1,
        ) by {
            if r < state.records.len() {
                assert(after.records[r] == state.records[r]);
                assert(expands(state.records[r], i, state.max_depth));
                lemma_answered_stays(
                    state,
                    entries,
                    state.records[r].entries->0[i].path,
                    state.records[r].level + 1,
                );
            } else {
                let raws = entries->0;
                let more = follow_ups(entries, served.level, state.max_depth);
                lemma_subdirectories_hold(raws, served.level + 1, i);
                let wanted = RequestModel { path: raws[i].path, level: served.level + 1 };
                let at = choose|at: int| 0 <= at < more.len() && more[at] == wanted;
                assert(after.pending[state.pending.len() - 1 + at] == wanted);
            }
        }
    }
}

/// The directories to read below a listing, or none if the listing fails.
fn follow(raws: &Vec<RawEntry>, level: u32) -> (found: Vec<Request>)
    ensures
        request_models(found@) == if level_fails(raw_models(raws@)) {
            Seq::<RequestModel>::empty()
        } else {
            subdirectories(raw_models(raws@), level as nat)
        },
{
    let ghost given = raw_models(raws@);
    let mut found: Vec<Request> = Vec::new();
    let mut i: usize = 0;
    proof {
        assert(request_models(found@) =~= Seq::<RequestModel>::empty());
    }
    while i < raws.len()
        invariant
            i <= raws.len(),
            given == raw_models(raws@),
            forall|j: int| 0 <= j < i ==> !blocks(#[trigger] given[j]),
            request_models(found@) == subdirectories(given.take(i as int), level as nat),
        decreases raws.len() - i,
    {
        let raw = &raws[i];
        proof {
            assert(given.take(i + 1).drop_last() =~= given.take(i as int));
            assert(given.take(i + 1).last() == given[i as int]);
            assert(given[i as int] == raw@);
        }
        if is_visible(raw.name.as_str()) {
            match raw.probe {
                Probe::Failed => {
                    assert(blocks(given[i as int]));
                    let nothing: Vec<Request> = Vec::new();
                    proof {
                        assert(request_models(nothing@) =~= Seq::<RequestModel>::empty());
                    }
                    return nothing;
                },
                Probe::Directory => {
                    let request = Request { path: raw.path.clone(), level };
                    proof {
                        assert(request_models(found@.push(request)) =~= request_models(
                            found@,
                        ).push(request@));
                    }
                    found.push(request);
                },
                _ => {},
            }
        }
        i += 1;
    }
    proof {
        assert(given.take(raws.len() as int) =~= given);
    }
    found
}

impl View for Explorer {
    type V = ExplorerModel;

    closed spec fn view(&self) -> ExplorerModel {
        ExplorerModel {
            root: self.root@,
            probe: self.seen.root,
            max_depth: self.max_depth as nat,
            pending: request_models(self.pending@),
            records: record_models(self.seen.records@),
        }
    }
}

impl Explorer {
    #[verifier::type_invariant]
    spec fn sound(self) -> bool {
        consistent(self@)
    }

    /// An exploration with nothing to read and nothing read: of a root that is
    /// not there, with no request open and no record held.
    fn idle() -> (idle: Explorer)
        ensures
            idle@ == (ExplorerModel {
                root: Seq::empty(),
                probe: Probe::Missing,
                max_depth: 0,
                pending: Seq::empty(),
                records: Seq::empty(),
            }),
    {
        let pending: Vec<Request> = Vec::new();
        let records: Vec<DirRecord> = Vec::new();
        proof {
            assert(request_models(pending@) =~= Seq::<RequestModel>::empty());
            assert(record_models(records@) =~= Seq::<RecordModel>::empty());
        }
        Explorer {
            root: String::new(),
            max_depth: 0,
            pending,
            seen: Observed { root: Probe::Missing, records },
        }
    }

    /// Starts the exploration of the directory at `path`, whose metadata
    /// lookup gave `root`. Only a directory is read at all. Without a depth
    /// limit, the default applies.
    pub fn begin(path: String, depth: Option<u32>, root: Probe) -> (started: Explorer)
        ensures
            started@ == (ExplorerModel {
                root: path@,
                probe: root,
                max_depth: depth_or_default(depth),
                pending: if root is Directory {
                    seq![RequestModel { path: path@, level: 0 }]
                } else {
                    Seq::empty()
                },
                records: Seq::empty(),
            }),
            consistent(started@),
    {
        let max_depth = match depth {
            Some(limit) => limit,
            None => DEFAULT_DEPTH,
        };
        let mut pending: Vec<Request> = Vec::new();
        match root {
            Probe::Directory => {
                pending.push(Request { path: path.clone(), level: 0 });
            },
            _ => {},
        }
        let records: Vec<DirRecord> = Vec::new();
        proof {
            assert(record_models(records@) =~= Seq::<RecordModel>::empty());
            if root is Directory {
                let first = RequestModel { path: path@, level: 0 };
                assert(request_models(pending@) =~= seq![first]);
                assert(request_models(pending@)[0] == first);
            } else {
                assert(request_models(pending@) =~= Seq::<RequestModel>::empty());
            }
        }
        Explorer { root: path, max_depth, pending, seen: Observed { root, records } }
    }

    /// The directory to read next, or nothing when all was read.
    pub fn next_request(&self) -> (next: Option<&Request>)
        ensures
            match next {
                Some(request) => self@.pending.len() > 0 && request@ == self@.pending.last(),
                None => self@.pending.len() == 0 && fully_read(self@),
            },
            consistent(self@),
    {
        proof {
            use_type_invariant(self);
        }
        if self.pending.len() == 0 {
            None
        } else {
            Some(&self.pending[self.pending.len() - 1])
        }
    }

    /// Takes in what reading the directory of [`Self::next_request`] gave:
    /// its entries in reading order, or `None` if it could not be read.
    pub fn supply(&mut self, entries: Option<Vec<RawEntry>>)
        ensures
            final(self)@ == supplied(old(self)@, entries_model(entries)),
            consistent(final(self)@),
    {
        proof {
            use_type_invariant(&*self);
            lemma_supplied_covered(self@, entries_model(entries));
            lemma_supplied_within_limit(self@, entries_model(entries));
        }
        let ghost before = self@;
        let mut taken = Explorer::idle();
        std::mem::swap(self, &mut taken);
        let Explorer { root, max_depth, pending, seen } = taken;
        let Observed { root: probe, records } = seen;
        let mut pending = pending;
        let mut records = records;
        match pending.pop() {
            None => {},
            Some(served) => {
                let mut found: Vec<Request> = match &entries {
                    Some(raws) => if served.level < max_depth {
                        follow(raws, served.level + 1)
                    } else {
                        Vec::new()
                    },
                    None => Vec::new(),
                };
                proof {
                    assert(served@ == before.pending.last());
                    assert(request_models(found@) =~= follow_ups(
                        entries_model(entries),
                        served.level as nat,
                        before.max_depth,
                    ));
                    assert(request_models(pending@ + found@) =~= before.pending.drop_last()
                        + request_models(found@));
                }
                pending.append(&mut found);
                let record = DirRecord { path: served.path, level: served.level, entries };
                proof {
                    assert(record_models(records@.push(record)) =~= before.records.push(record@));
                }
                records.push(record);
            },
        }
        *self = Explorer { root, max_depth, pending, seen: Observed { root: probe, records } };
    }

    /// What was read so far.
    pub fn observed(&self) -> (seen: &Observed)
        ensures
            seen.root == self@.probe,
            record_models(seen.records@) == self@.records,
    {
        &self.seen
    }

    /// Takes the snapshot from what was read. Once no request is left, every
    /// directory that the snapshot expands has been read.
    pub fn finish(&self) -> (taken: Result<Vec<DirEntry>, ScanError>)
        ensures
            match taken {
                Ok(list) => snapshot_of(self@.probe, self@.root, self@.records, self@.max_depth)
                    == Ok::<Seq<EntryModel>, ScanError>(models(list@)),
                Err(error) => snapshot_of(self@.probe, self@.root, self@.records, self@.max_depth)
                    == Err::<Seq<EntryModel>, ScanError>(error),
            },
            taken matches Ok(list) ==> ordered(models(list@)) && all_sound(
                models(list@),
                self@.max_depth,
            ),
    {
        list_dir(self.root.clone(), Some(self.max_depth), &self.seen)
    }
}

} // verus!
