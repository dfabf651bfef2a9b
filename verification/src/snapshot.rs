//! The directory snapshot: an ordered tree of the visible entries under a
//! root, expanded down to a depth limit, computed from what was read.

use crate::entry::{lemma_children_model, models, DirEntry, EntryModel};
use crate::error::ScanError;
use crate::filter::{is_visible, visible};
use crate::observe::{
    find, locate, raw_models, record_models, DirRecord, Observed, Probe, RawEntry, RawModel,
    RecordModel,
};
use crate::order::{
    arranged, key_of, keys_distinct, lemma_arranged_is_stable_sort, lemma_arranged_same_entries,
    lemma_order_ignores_listing, lowercase, ordered, same_members, sort_entries, stable_sort_of,
};
use vstd::prelude::*;

verus! {

/// The depth limit of a caller who names none: the root's entries, and the
/// entries of the directories among them.
pub const DEFAULT_DEPTH: u32 = 1;

pub open spec fn depth_or_default(depth: Option<u32>) -> nat {
    match depth {
        Some(limit) => limit as nat,
        None => DEFAULT_DEPTH as nat,
    }
}

/// A visible entry whose metadata lookup failed makes the listing of its
/// directory fail as a whole.
pub open spec fn blocks(raw: RawModel) -> bool {
    visible(raw.name) && raw.probe is Failed
}

/// A visible entry that was still there when it was looked up is listed.
pub open spec fn listed(raw: RawModel) -> bool {
    visible(raw.name) && !(raw.probe is Missing) && !(raw.probe is Failed)
}

pub open spec fn level_fails(raws: Seq<RawModel>) -> bool {
    exists|i: int| 0 <= i < raws.len() && blocks(#[trigger] raws[i])
}

/// The entries below a listed entry at `level`: present for a directory above
/// the depth limit whose own listing was read and did not fail.
pub open spec fn children_of(
    records: Seq<RecordModel>,
    raw: RawModel,
    level: nat,
    max_depth: nat,
) -> Option<Seq<EntryModel>>
    decreases max_depth - level, 0nat, 0nat,
{
    if raw.probe is Directory && level < max_depth {
        match find(records, raw.path, level + 1) {
            Some(record) => match record.entries {
                Some(below) => level_of(records, below, level + 1, max_depth),
                None => None,
            },
            None => None,
        }
    } else {
        None
    }
}

/// The snapshot node of a listed entry at `level`.
pub open spec fn entry_of(
    records: Seq<RecordModel>,
    raw: RawModel,
    level: nat,
    max_depth: nat,
) -> EntryModel
    decreases max_depth - level, 0nat, 1nat,
{
    EntryModel {
        name: raw.name,
        path: raw.path,
        is_dir: raw.probe is Directory,
        is_file: raw.probe is File,
        children: children_of(records, raw, level, max_depth),
        size: match raw.probe {
            Probe::File(bytes) => Some(bytes),
            _ => None,
        },
    }
}

/// The snapshot nodes of the listed entries among `raws`, in reading order.
pub open spec fn gathered(
    records: Seq<RecordModel>,
    raws: Seq<RawModel>,
    level: nat,
    max_depth: nat,
) -> Seq<EntryModel>
    decreases max_depth - level, 1nat, raws.len(),
{
    if raws.len() == 0 {
        Seq::empty()
    } else {
        let front = gathered(records, raws.drop_last(), level, max_depth);
        if listed(raws.last()) {
            front.push(entry_of(records, raws.last(), level, max_depth))
        } else {
            front
        }
    }
}

/// The snapshot of one directory read at `level`: nothing when the listing
/// fails, else its listed entries in their order.
pub open spec fn level_of(
    records: Seq<RecordModel>,
    raws: Seq<RawModel>,
    level: nat,
    max_depth: nat,
) -> Option<Seq<EntryModel>>
    decreases max_depth - level, 2nat, 0nat,
{
    if level_fails(raws) {
        None
    } else {
        Some(arranged(gathered(records, raws, level, max_depth)))
    }
}

/// The snapshot of the directory at `path`, or why there is none. Only a
/// failure on the root itself fails the snapshot; below the root a directory
/// that cannot be listed is shown without entries.
pub open spec fn snapshot_of(
    root: Probe,
    path: Seq<char>,
    records: Seq<RecordModel>,
    max_depth: nat,
) -> Result<Seq<EntryModel>, ScanError> {
    match root {
        Probe::Missing => Err(ScanError::NotFound),
        Probe::File(_) | Probe::Other => Err(ScanError::NotADirectory),
        Probe::Failed => Err(ScanError::MetadataError),
        Probe::Directory => match find(records, path, 0) {
            Some(record) => match record.entries {
                Some(raws) => match level_of(records, raws, 0, max_depth) {
                    Some(list) => Ok(list),
                    None => Err(ScanError::MetadataError),
                },
                None => Err(ScanError::MetadataError),
            },
            None => Err(ScanError::MetadataError),
        },
    }
}

/// Nothing is expanded more than `budget` levels below this node: with a
/// budget of zero the node has no entries of its own, not even an empty list.
pub open spec fn depth_bounded(entry: EntryModel, budget: nat) -> bool
    decreases entry,
{
    match entry.children {
        Some(list) => budget > 0 && forall|i: int|
            0 <= i < list.len() ==> depth_bounded(#[trigger] list[i], (budget - 1) as nat),
        None => true,
    }
}

/// Neither this node nor any node below it bears an excluded name.
pub open spec fn hides_excluded(entry: EntryModel) -> bool
    decreases entry,
{
    visible(entry.name) && match entry.children {
        Some(list) => forall|i: int| 0 <= i < list.len() ==> hides_excluded(#[trigger] list[i]),
        None => true,
    }
}

/// Every list of entries below this node is in order.
pub open spec fn ordered_throughout(entry: EntryModel) -> bool
    decreases entry,
{
    match entry.children {
        Some(list) => ordered(list) && forall|i: int|
            0 <= i < list.len() ==> ordered_throughout(#[trigger] list[i]),
        None => true,
    }
}

/// All that holds of every node of a snapshot that sits `budget` levels above
/// the depth limit.
pub open spec fn sound(entry: EntryModel, budget: nat) -> bool {
    &&& entry.shaped()
    &&& depth_bounded(entry, budget)
    &&& hides_excluded(entry)
    &&& ordered_throughout(entry)
}

pub open spec fn all_sound(list: Seq<EntryModel>, budget: nat) -> bool {
    forall|i: int| 0 <= i < list.len() ==> sound(#[trigger] list[i], budget)
}

proof fn lemma_children_sound(
    records: Seq<RecordModel>,
    raw: RawModel,
    level: nat,
    max_depth: nat,
)
    requires
        level <= max_depth,
    ensures
        match children_of(records, raw, level, max_depth) {
            Some(list) => level < max_depth && raw.probe is Directory && ordered(list) && all_sound(
                list,
                (max_depth - level - 1) as nat,
            ),
            None => true,
        },
    decreases max_depth - level, 0nat, 0nat,
{
    if raw.probe is Directory && level < max_depth {
        match find(records, raw.path, level + 1) {
            Some(record) => match record.entries {
                Some(below) => {
                    lemma_level_sound(records, below, level + 1, max_depth);
                },
                None => {},
            },
            None => {},
        }
    }
}

proof fn lemma_entry_sound(records: Seq<RecordModel>, raw: RawModel, level: nat, max_depth: nat)
    requires
        level <= max_depth,
        listed(raw),
    ensures
        sound(entry_of(records, raw, level, max_depth), (max_depth - level) as nat),
    decreases max_depth - level, 0nat, 1nat,
{
    lemma_children_sound(records, raw, level, max_depth);
}

proof fn lemma_gathered_sound(
    records: Seq<RecordModel>,
    raws: Seq<RawModel>,
    level: nat,
    max_depth: nat,
)
    requires
        level <= max_depth,
    ensures
        all_sound(gathered(records, raws, level, max_depth), (max_depth - level) as nat),
    decreases max_depth - level, 1nat, raws.len(),
{
    if raws.len() > 0 {
        lemma_gathered_sound(records, raws.drop_last(), level, max_depth);
        if listed(raws.last()) {
            lemma_entry_sound(records, raws.last(), level, max_depth);
        }
    }
}

proof fn lemma_level_sound(
    records: Seq<RecordModel>,
    raws: Seq<RawModel>,
    level: nat,
    max_depth: nat,
)
    requires
        level <= max_depth,
    ensures
        match level_of(records, raws, level, max_depth) {
            Some(list) => ordered(list) && all_sound(list, (max_depth - level) as nat),
            None => true,
        },
    decreases max_depth - level, 2nat, 0nat,
{
    if !level_fails(raws) {
        let unordered = gathered(records, raws, level, max_depth);
        lemma_gathered_sound(records, raws, level, max_depth);
        lemma_arranged_same_entries(unordered);
        lemma_arranged_is_stable_sort(unordered);
        let list = arranged(unordered);
        assert forall|i: int| 0 <= i < list.len() implies sound(
            #[trigger] list[i],
            (max_depth - level) as nat,
        ) by {
            assert(unordered.contains(list[i]));
        }
    }
}

/// A snapshot never expands an entry at or beyond the depth limit: an entry
/// that sits `max_depth` levels below the root's own entries has no entries
/// of its own, and no entry lies deeper.
pub proof fn lemma_snapshot_depth_bounded(
    root: Probe,
    path: Seq<char>,
    records: Seq<RecordModel>,
    max_depth: nat,
)
    ensures
        match snapshot_of(root, path, records, max_depth) {
            Ok(list) => forall|i: int|
                0 <= i < list.len() ==> depth_bounded(#[trigger] list[i], max_depth),
            Err(_) => true,
        },
{
    lemma_snapshot_sound(root, path, records, max_depth);
}

/// The order of a snapshot is fixed: at every level directories precede the
/// other nodes and names go up without regard to case.
pub proof fn lemma_snapshot_ordered(
    root: Probe,
    path: Seq<char>,
    records: Seq<RecordModel>,
    max_depth: nat,
)
    ensures
        match snapshot_of(root, path, records, max_depth) {
            Ok(list) => ordered(list) && forall|i: int|
                0 <= i < list.len() ==> ordered_throughout(#[trigger] list[i]),
            Err(_) => true,
        },
{
    lemma_snapshot_sound(root, path, records, max_depth);
}

/// The entries of one directory are a stable sort of its listed entries in
/// the order in which they were read: entries of equal rank keep that order.
pub proof fn lemma_level_stably_sorted(
    records: Seq<RecordModel>,
    raws: Seq<RawModel>,
    level: nat,
    max_depth: nat,
)
    ensures
        match level_of(records, raws, level, max_depth) {
            Some(list) => stable_sort_of(list, gathered(records, raws, level, max_depth)),
            None => true,
        },
{
    lemma_arranged_is_stable_sort(gathered(records, raws, level, max_depth));
}

/// No entry with a hidden or noise name appears in a snapshot, at any depth.
pub proof fn lemma_snapshot_hides_excluded(
    root: Probe,
    path: Seq<char>,
    records: Seq<RecordModel>,
    max_depth: nat,
)
    ensures
        match snapshot_of(root, path, records, max_depth) {
            Ok(list) => forall|i: int| 0 <= i < list.len() ==> hides_excluded(#[trigger] list[i]),
            Err(_) => true,
        },
{
    lemma_snapshot_sound(root, path, records, max_depth);
}

/// Every node of a snapshot is well shaped, within the depth limit, visible
/// and in order.
pub proof fn lemma_snapshot_sound(
    root: Probe,
    path: Seq<char>,
    records: Seq<RecordModel>,
    max_depth: nat,
)
    ensures
        match snapshot_of(root, path, records, max_depth) {
            Ok(list) => ordered(list) && all_sound(list, max_depth),
            Err(_) => true,
        },
{
    if root is Directory {
        match find(records, path, 0) {
            Some(record) => match record.entries {
                Some(raws) => {
                    lemma_level_sound(records, raws, 0, max_depth);
                },
                None => {},
            },
            None => {},
        }
    }
}

/// What reading the directory at `path` at `level` gave, if it was read and
/// could be read.
pub open spec fn listing_at(records: Seq<RecordModel>, path: Seq<char>, level: nat) -> Option<
    Seq<RawModel>,
> {
    match find(records, path, level) {
        Some(record) => record.entries,
        None => None,
    }
}

/// Both lists hold the same entries, in whatever order.
pub open spec fn same_raws(first: Seq<RawModel>, second: Seq<RawModel>) -> bool {
    forall|raw: RawModel|
        #![trigger first.contains(raw)]
        #![trigger second.contains(raw)]
        first.contains(raw) <==> second.contains(raw)
}

/// Two listings of one directory: both failed, or both hold the same entries.
pub open spec fn same_listing(first: Option<Seq<RawModel>>, second: Option<Seq<RawModel>>) -> bool {
    match first {
        Some(a) => second matches Some(b) && same_raws(a, b),
        None => second is None,
    }
}

/// No two visible entries share a lower-case name.
pub open spec fn names_distinct(raws: Seq<RawModel>) -> bool {
    forall|i: int, j: int|
        #![trigger raws[i], raws[j]]
        0 <= i < j < raws.len() && visible(raws[i].name) && visible(raws[j].name) ==> lowercase(
            raws[i].name,
        ) != lowercase(raws[j].name)
}

/// Both sets of records hold, for every directory, the same entries, in
/// whatever order each was read.
pub open spec fn same_up_to_order(first: Seq<RecordModel>, second: Seq<RecordModel>) -> bool {
    forall|path: Seq<char>, level: nat|
        same_listing(#[trigger] listing_at(first, path, level), listing_at(second, path, level))
}

/// In no directory do two visible entries share a lower-case name.
pub open spec fn siblings_distinct(records: Seq<RecordModel>) -> bool {
    forall|path: Seq<char>, level: nat|
        (#[trigger] listing_at(records, path, level)) matches Some(raws) ==> names_distinct(raws)
}

/// What is gathered from a listing: one node for each listed entry and no
/// other, with keys as distinct as the names.
proof fn lemma_gathered_members(
    records: Seq<RecordModel>,
    raws: Seq<RawModel>,
    level: nat,
    max_depth: nat,
)
    requires
        names_distinct(raws),
    ensures
        keys_distinct(gathered(records, raws, level, max_depth)),
        forall|j: int|
            0 <= j < gathered(records, raws, level, max_depth).len() ==> exists|i: int|
                0 <= i < raws.len() && listed(raws[i]) && (#[trigger] gathered(
                    records,
                    raws,
                    level,
                    max_depth,
                )[j]) == entry_of(records, raws[i], level, max_depth),
        forall|i: int|
            0 <= i < raws.len() && listed(#[trigger] raws[i]) ==> gathered(
                records,
                raws,
                level,
                max_depth,
            ).contains(entry_of(records, raws[i], level, max_depth)),
    decreases raws.len(),
{
    let all = gathered(records, raws, level, max_depth);
    if raws.len() > 0 {
        let short = raws.drop_last();
        let front = gathered(records, short, level, max_depth);
        let last = raws.last();
        assert forall|i: int, j: int|
            #![trigger short[i], short[j]]
            0 <= i < j < short.len() && visible(short[i].name) && visible(
                short[j].name,
            ) implies lowercase(short[i].name) != lowercase(short[j].name) by {
            assert(short[i] == raws[i] && short[j] == raws[j]);
        }
        lemma_gathered_members(records, short, level, max_depth);
        assert forall|j: int| 0 <= j < all.len() implies exists|i: int|
            0 <= i < raws.len() && listed(raws[i]) && (#[trigger] all[j]) == entry_of(
                records,
                raws[i],
                level,
                max_depth,
            ) by {
            if j < front.len() {
                assert(all[j] == front[j]);
                let i = choose|i: int|
                    0 <= i < short.len() && listed(short[i]) && front[j] == entry_of(
                        records,
                        short[i],
                        level,
                        max_depth,
                    );
                assert(short[i] == raws[i]);
            } else {
                assert(all[j] == entry_of(records, raws[raws.len() - 1], level, max_depth));
            }
        }
        assert forall|i: int| 0 <= i < raws.len() && listed(#[trigger] raws[i]) implies all.contains(
            entry_of(records, raws[i], level, max_depth),
        ) by {
            let wanted = entry_of(records, raws[i], level, max_depth);
            if i < short.len() {
                assert(short[i] == raws[i]);
                assert(front.contains(wanted));
                let j = choose|j: int| 0 <= j < front.len() && front[j] == wanted;
                assert(all[j] == wanted);
            } else {
                assert(all[all.len() - 1] == wanted);
            }
        }
        assert forall|a: int, b: int|
            #![trigger all[a], all[b]]
            0 <= a < b < all.len() implies key_of(all[a]) != key_of(all[b]) by {
            if b < front.len() {
                assert(all[a] == front[a] && all[b] == front[b]);
            } else {
                assert(all[a] == front[a]);
                let i = choose|i: int|
                    0 <= i < short.len() && listed(short[i]) && front[a] == entry_of(
                        records,
                        short[i],
                        level,
                        max_depth,
                    );
                assert(short[i] == raws[i]);
                assert(all[b] == entry_of(records, raws[raws.len() - 1], level, max_depth));
                assert(lowercase(raws[i].name) != lowercase(raws[raws.len() - 1].name));
            }
        }
    }
}

proof fn lemma_children_reordered(
    first: Seq<RecordModel>,
    second: Seq<RecordModel>,
    raw: RawModel,
    level: nat,
    max_depth: nat,
)
    requires
        same_up_to_order(first, second),
        siblings_distinct(first),
        siblings_distinct(second),
    ensures
        children_of(first, raw, level, max_depth) == children_of(second, raw, level, max_depth),
        entry_of(first, raw, level, max_depth) == entry_of(second, raw, level, max_depth),
    decreases max_depth - level, 0nat,
{
    if raw.probe is Directory && level < max_depth {
        let a = listing_at(first, raw.path, level + 1);
        let b = listing_at(second, raw.path, level + 1);
        assert(same_listing(a, b));
        if a is Some {
            lemma_level_reordered(first, second, a->0, b->0, level + 1, max_depth);
        }
    }
}

proof fn lemma_level_reordered(
    first: Seq<RecordModel>,
    second: Seq<RecordModel>,
    raws: Seq<RawModel>,
    other: Seq<RawModel>,
    level: nat,
    max_depth: nat,
)
    requires
        same_up_to_order(first, second),
        siblings_distinct(first),
        siblings_distinct(second),
        same_raws(raws, other),
        names_distinct(raws),
        names_distinct(other),
        level <= max_depth,
    ensures
        level_of(first, raws, level, max_depth) == level_of(second, other, level, max_depth),
    decreases max_depth - level, 1nat,
{
    if level_fails(raws) {
        let i = choose|i: int| 0 <= i < raws.len() && blocks(#[trigger] raws[i]);
        assert(raws.contains(raws[i]));
        assert(other.contains(raws[i]));
        let j = choose|j: int| 0 <= j < other.len() && other[j] == raws[i];
        assert(blocks(other[j]));
    } else if level_fails(other) {
        let j = choose|j: int| 0 <= j < other.len() && blocks(#[trigger] other[j]);
        assert(other.contains(other[j]));
        assert(raws.contains(other[j]));
        let i = choose|i: int| 0 <= i < raws.len() && raws[i] == other[j];
        assert(blocks(raws[i]));
    } else {
        let here = gathered(first, raws, level, max_depth);
        let there = gathered(second, other, level, max_depth);
        lemma_gathered_members(first, raws, level, max_depth);
        lemma_gathered_members(second, other, level, max_depth);
        assert forall|entry: EntryModel| here.contains(entry) <==> there.contains(entry) by {
            if here.contains(entry) {
                let j = choose|j: int| 0 <= j < here.len() && here[j] == entry;
                let i = choose|i: int|
                    0 <= i < raws.len() && listed(raws[i]) && here[j] == entry_of(
                        first,
                        raws[i],
                        level,
                        max_depth,
                    );
                lemma_children_reordered(first, second, raws[i], level, max_depth);
                assert(raws.contains(raws[i]));
                assert(other.contains(raws[i]));
                let k = choose|k: int| 0 <= k < other.len() && other[k] == raws[i];
                assert(listed(other[k]));
            }
            if there.contains(entry) {
                let j = choose|j: int| 0 <= j < there.len() && there[j] == entry;
                let i = choose|i: int|
                    0 <= i < other.len() && listed(other[i]) && there[j] == entry_of(
                        second,
                        other[i],
                        level,
                        max_depth,
                    );
                lemma_children_reordered(first, second, other[i], level, max_depth);
                assert(other.contains(other[i]));
                assert(raws.contains(other[i]));
                let k = choose|k: int| 0 <= k < raws.len() && raws[k] == other[i];
                assert(listed(raws[k]));
            }
        }
        lemma_order_ignores_listing(here, there);
    }
}

/// The snapshot does not depend on the order in which directories hand out
/// their entries, as long as no two visible entries of one directory share
/// a lower-case name: from records that differ in that order alone, the
/// snapshots are equal.
pub proof fn lemma_snapshot_ignores_listing_order(
    root: Probe,
    path: Seq<char>,
    first: Seq<RecordModel>,
    second: Seq<RecordModel>,
    max_depth: nat,
)
    requires
        same_up_to_order(first, second),
        siblings_distinct(first),
        siblings_distinct(second),
    ensures
        snapshot_of(root, path, first, max_depth) == snapshot_of(root, path, second, max_depth),
{
    if root is Directory {
        let a = listing_at(first, path, 0);
        let b = listing_at(second, path, 0);
        assert(same_listing(a, b));
        if a is Some {
            lemma_level_reordered(first, second, a->0, b->0, 0, max_depth);
        }
    }
}

fn expand(records: &Vec<DirRecord>, raw: &RawEntry, level: u32, max_depth: u32) -> (below: Option<
    Vec<DirEntry>,
>)
    requires
        level <= max_depth,
    ensures
        match below {
            Some(list) => children_of(
                record_models(records@),
                raw@,
                level as nat,
                max_depth as nat,
            ) == Some(models(list@)),
            None => children_of(record_models(records@), raw@, level as nat, max_depth as nat)
                is None,
        },
    decreases max_depth - level, 0nat,
{
    match raw.probe {
        Probe::Directory => {
            if level < max_depth {
                match locate(records, &raw.path, level + 1) {
                    Some(at) => match &records[at].entries {
                        Some(raws) => scan_level(records, raws, level + 1, max_depth),
                        None => None,
                    },
                    None => None,
                }
            } else {
                None
            }
        },
        _ => None,
    }
}

fn scan_level(records: &Vec<DirRecord>, raws: &Vec<RawEntry>, level: u32, max_depth: u32) -> (taken:
    Option<Vec<DirEntry>>)
    requires
        level <= max_depth,
    ensures
        match taken {
            Some(list) => level_of(
                record_models(records@),
                raw_models(raws@),
                level as nat,
                max_depth as nat,
            ) == Some(models(list@)),
            None => level_of(
                record_models(records@),
                raw_models(raws@),
                level as nat,
                max_depth as nat,
            ) is None,
        },
    decreases max_depth - level, 1nat,
{
    let ghost table = record_models(records@);
    let ghost given = raw_models(raws@);
    let mut kept: Vec<DirEntry> = Vec::new();
    let mut i: usize = 0;
    proof {
        assert(models(kept@) =~= Seq::<EntryModel>::empty());
    }
    while i < raws.len()
        invariant
            i <= raws.len(),
            level <= max_depth,
            table == record_models(records@),
            given == raw_models(raws@),
            forall|j: int| 0 <= j < i ==> !blocks(#[trigger] given[j]),
            models(kept@) == gathered(table, given.take(i as int), level as nat, max_depth as nat),
        decreases raws.len() - i,
    {
        let raw = &raws[i];
        proof {
            assert(given.take(i + 1).drop_last() =~= given.take(i as int));
            assert(given.take(i + 1).last() == given[i as int]);
            assert(given[i as int] == raw@);
        }
        if is_visible(raw.name.as_str()) {
            match raw.probe {
                Probe::Failed => {
                    assert(blocks(given[i as int]));
                    return None;
                },
                Probe::Missing => {},
                _ => {
                    let children = expand(records, raw, level, max_depth);
                    let entry = DirEntry {
                        name: raw.name.clone(),
                        path: raw.path.clone(),
                        is_dir: match raw.probe {
                            Probe::Directory => true,
                            _ => false,
                        },
                        is_file: match raw.probe {
                            Probe::File(_) => true,
                            _ => false,
                        },
                        children,
                        size: match raw.probe {
                            Probe::File(bytes) => Some(bytes),
                            _ => None,
                        },
                    };
                    proof {
                        lemma_children_model(entry);
                        assert(entry@ == entry_of(table, raw@, level as nat, max_depth as nat));
                        assert(models(kept@.push(entry)) =~= models(kept@).push(entry@));
                    }
                    kept.push(entry);
                },
            }
        }
        i += 1;
    }
    proof {
        assert(given.take(raws.len() as int) =~= given);
    }
    Some(sort_entries(kept))
}

/// Takes the snapshot of the directory at `path` from what was read of it.
/// Without a depth limit, [`DEFAULT_DEPTH`] applies.
pub fn list_dir(path: String, depth: Option<u32>, seen: &Observed) -> (taken: Result<
    Vec<DirEntry>,
    ScanError,
>)
    ensures
        match taken {
            Ok(list) => snapshot_of(
                seen.root,
                path@,
                record_models(seen.records@),
                depth_or_default(depth),
            ) == Ok::<Seq<EntryModel>, ScanError>(models(list@)),
            Err(error) => snapshot_of(
                seen.root,
                path@,
                record_models(seen.records@),
                depth_or_default(depth),
            ) == Err::<Seq<EntryModel>, ScanError>(error),
        },
        taken matches Ok(list) ==> ordered(models(list@)) && all_sound(
            models(list@),
            depth_or_default(depth),
        ),
{
    proof {
        lemma_snapshot_sound(
            seen.root,
            path@,
            record_models(seen.records@),
            depth_or_default(depth),
        );
    }
    let max_depth = match depth {
        Some(limit) => limit,
        None => DEFAULT_DEPTH,
    };
    match seen.root {
        Probe::Missing => Err(ScanError::NotFound),
        Probe::File(_) => Err(ScanError::NotADirectory),
        Probe::Other => Err(ScanError::NotADirectory),
        Probe::Failed => Err(ScanError::MetadataError),
        Probe::Directory => match locate(&seen.records, &path, 0) {
            Some(at) => match &seen.records[at].entries {
                Some(raws) => match scan_level(&seen.records, raws, 0, max_depth) {
                    Some(list) => Ok(list),
                    None => Err(ScanError::MetadataError),
                },
                None => Err(ScanError::MetadataError),
            },
            None => Err(ScanError::MetadataError),
        },
    }
}

} // verus!
