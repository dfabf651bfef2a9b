//! The order of the entries of one directory: directories first, then by
//! name without regard to case, entries of equal rank in the order in which
//! they were read.

use crate::entry::{models, DirEntry, EntryModel};
use vstd::prelude::*;

verus! {

/// The lower-case form of a text, as `str::to_lowercase` computes it.
pub uninterp spec fn lowercase(text: Seq<char>) -> Seq<char>;

/// `str::to_lowercase`, handed back as its characters. The standard library
/// documents the result as the lower-case equivalent of the text, which is
/// what [`lowercase`] names; nothing else is claimed of it here.
#[verifier::external_body]
fn fold_case(text: &str) -> (folded: Vec<char>)
    ensures
        folded@ == lowercase(text@),
{
    text.to_lowercase().chars().collect()
}

/// What an entry is ranked by.
pub struct SortKey {
    pub is_dir: bool,
    pub folded: Seq<char>,
}

pub open spec fn key_of(entry: EntryModel) -> SortKey {
    SortKey { is_dir: entry.is_dir, folded: lowercase(entry.name) }
}

/// Dictionary order on texts, character by character, a proper prefix first.
pub open spec fn text_less(a: Seq<char>, b: Seq<char>) -> bool
    decreases a.len(),
{
    if b.len() == 0 {
        false
    } else if a.len() == 0 {
        true
    } else if a[0] != b[0] {
        (a[0] as u32) < (b[0] as u32)
    } else {
        text_less(a.drop_first(), b.drop_first())
    }
}

/// A directory's key comes before any other node's; keys of one kind go by
/// their folded names.
pub open spec fn key_less(a: SortKey, b: SortKey) -> bool {
    if a.is_dir != b.is_dir {
        a.is_dir
    } else {
        text_less(a.folded, b.folded)
    }
}

pub open spec fn entry_less(a: EntryModel, b: EntryModel) -> bool {
    key_less(key_of(a), key_of(b))
}

/// No entry is followed by one that ranks strictly before it.
pub open spec fn ordered(list: Seq<EntryModel>) -> bool {
    forall|i: int, j: int|
        #![trigger list[i], list[j]]
        0 <= i < j < list.len() ==> !entry_less(list[j], list[i])
}

pub open spec fn has_key(key: SortKey) -> spec_fn(EntryModel) -> bool {
    |entry: EntryModel| key_of(entry) == key
}

/// `sorted` is `given` in stable order: it is ordered and as long as `given`,
/// and for every key the entries that carry it are the same, in the same
/// order, in both. The last part makes `sorted` a rearrangement of `given` and
/// fixes the order of ties. There is one such list and no other: see
/// [`lemma_stable_sort_is_arranged`].
pub open spec fn stable_sort_of(sorted: Seq<EntryModel>, given: Seq<EntryModel>) -> bool {
    &&& ordered(sorted)
    &&& sorted.len() == given.len()
    &&& forall|key: SortKey| #[trigger] sorted.filter(has_key(key)) == given.filter(has_key(key))
}

/// How many leading entries of `among` rank strictly before `entry`.
pub open spec fn rank(entry: EntryModel, among: Seq<EntryModel>) -> nat
    decreases among.len(),
{
    if among.len() > 0 && entry_less(among[0], entry) {
        1 + rank(entry, among.drop_first())
    } else {
        0
    }
}

/// The entries of `list` in stable order: each is placed before the first of
/// its successors that does not rank strictly before it.
pub open spec fn arranged(list: Seq<EntryModel>) -> Seq<EntryModel>
    decreases list.len(),
{
    if list.len() == 0 {
        list
    } else {
        let rest = arranged(list.drop_first());
        rest.insert(rank(list[0], rest) as int, list[0])
    }
}

/// Distinct characters have distinct code points.
proof fn lemma_code_points_differ(x: char, y: char)
    requires
        x != y,
    ensures
        (x as u32) != (y as u32),
{
    vstd::utf8::char_u32_cast(x, x as u32);
    vstd::utf8::char_u32_cast(y, y as u32);
}

pub proof fn lemma_text_less_irreflexive(a: Seq<char>)
    ensures
        !text_less(a, a),
    decreases a.len(),
{
    if a.len() > 0 {
        lemma_text_less_irreflexive(a.drop_first());
    }
}

pub proof fn lemma_text_less_asymmetric(a: Seq<char>, b: Seq<char>)
    requires
        text_less(a, b),
    ensures
        !text_less(b, a),
    decreases a.len(),
{
    if a.len() > 0 && b.len() > 0 && a[0] == b[0] {
        lemma_text_less_asymmetric(a.drop_first(), b.drop_first());
    }
}

/// Whatever lies between two texts in order lies after the first or before
/// the second.
pub proof fn lemma_text_less_splits(a: Seq<char>, b: Seq<char>, c: Seq<char>)
    requires
        text_less(a, c),
    ensures
        text_less(a, b) || text_less(b, c),
    decreases a.len(),
{
    if a.len() > 0 && b.len() > 0 && c.len() > 0 {
        if a[0] == b[0] && b[0] == c[0] {
            lemma_text_less_splits(a.drop_first(), b.drop_first(), c.drop_first());
        } else {
            if a[0] != b[0] {
                lemma_code_points_differ(a[0], b[0]);
            }
            if b[0] != c[0] {
                lemma_code_points_differ(b[0], c[0]);
            }
        }
    }
}

/// Of two different texts one comes before the other.
pub proof fn lemma_text_less_total(a: Seq<char>, b: Seq<char>)
    requires
        !text_less(a, b),
        !text_less(b, a),
    ensures
        a == b,
    decreases a.len(),
{
    if a.len() == 0 || b.len() == 0 {
        assert(a =~= b);
    } else {
        if a[0] != b[0] {
            lemma_code_points_differ(a[0], b[0]);
        }
        lemma_text_less_total(a.drop_first(), b.drop_first());
        assert(a =~= seq![a[0]] + a.drop_first());
        assert(b =~= seq![b[0]] + b.drop_first());
    }
}

/// Entries of which neither ranks before the other have the same key.
pub proof fn lemma_entry_less_total(a: EntryModel, b: EntryModel)
    requires
        !entry_less(a, b),
        !entry_less(b, a),
    ensures
        key_of(a) == key_of(b),
{
    lemma_text_less_total(key_of(a).folded, key_of(b).folded);
}

pub proof fn lemma_entry_less_irreflexive(a: EntryModel, b: EntryModel)
    requires
        key_of(a) == key_of(b),
    ensures
        !entry_less(a, b),
{
    lemma_text_less_irreflexive(key_of(a).folded);
}

pub proof fn lemma_entry_less_asymmetric(a: EntryModel, b: EntryModel)
    requires
        entry_less(a, b),
    ensures
        !entry_less(b, a),
{
    if a.is_dir == b.is_dir {
        lemma_text_less_asymmetric(key_of(a).folded, key_of(b).folded);
    }
}

pub proof fn lemma_entry_less_splits(a: EntryModel, b: EntryModel, c: EntryModel)
    requires
        entry_less(a, c),
    ensures
        entry_less(a, b) || entry_less(b, c),
{
    if a.is_dir == b.is_dir && b.is_dir == c.is_dir {
        lemma_text_less_splits(key_of(a).folded, key_of(b).folded, key_of(c).folded);
    }
}

/// The entries before the rank all come strictly first; the one at the rank,
/// if there is one, does not.
pub proof fn lemma_rank(entry: EntryModel, among: Seq<EntryModel>)
    ensures
        rank(entry, among) <= among.len(),
        forall|i: int| 0 <= i < rank(entry, among) ==> entry_less(#[trigger] among[i], entry),
        rank(entry, among) < among.len() ==> !entry_less(
            among[rank(entry, among) as int],
            entry,
        ),
    decreases among.len(),
{
    if among.len() > 0 && entry_less(among[0], entry) {
        let tail = among.drop_first();
        lemma_rank(entry, tail);
        assert forall|i: int| 0 <= i < rank(entry, among) implies entry_less(
            #[trigger] among[i],
            entry,
        ) by {
            if i > 0 {
                assert(among[i] == tail[i - 1]);
            }
        }
        if rank(entry, among) < among.len() {
            assert(among[rank(entry, among) as int] == tail[rank(entry, tail) as int]);
        }
    }
}

proof fn lemma_insert_keeps_order(entry: EntryModel, among: Seq<EntryModel>)
    requires
        ordered(among),
    ensures
        ordered(among.insert(rank(entry, among) as int, entry)),
{
    let at = rank(entry, among) as int;
    let placed = among.insert(at, entry);
    lemma_rank(entry, among);
    assert forall|i: int, j: int|
        #![trigger placed[i], placed[j]]
        0 <= i < j < placed.len() implies !entry_less(placed[j], placed[i]) by {
        if j == at {
            assert(placed[i] == among[i]);
            lemma_entry_less_asymmetric(among[i], entry);
        } else if i == at {
            assert(placed[j] == among[j - 1]);
            if entry_less(among[j - 1], entry) {
                lemma_entry_less_splits(among[j - 1], among[at], entry);
                if j - 1 > at {
                    assert(!entry_less(among[j - 1], among[at]));
                }
            }
        } else {
            let i0 = if i < at { i } else { i - 1 };
            let j0 = if j < at { j } else { j - 1 };
            assert(placed[i] == among[i0]);
            assert(placed[j] == among[j0]);
        }
    }
}

proof fn lemma_insert_len(entry: EntryModel, among: Seq<EntryModel>)
    ensures
        rank(entry, among) <= among.len(),
        among.insert(rank(entry, among) as int, entry).len() == among.len() + 1,
{
    lemma_rank(entry, among);
}

pub proof fn lemma_arranged_len(list: Seq<EntryModel>)
    ensures
        arranged(list).len() == list.len(),
    decreases list.len(),
{
    if list.len() > 0 {
        lemma_arranged_len(list.drop_first());
        lemma_insert_len(list[0], arranged(list.drop_first()));
    }
}

pub proof fn lemma_arranged_ordered(list: Seq<EntryModel>)
    ensures
        ordered(arranged(list)),
    decreases list.len(),
{
    if list.len() > 0 {
        lemma_arranged_ordered(list.drop_first());
        lemma_insert_keeps_order(list[0], arranged(list.drop_first()));
    }
}

proof fn lemma_filter_nothing(list: Seq<EntryModel>, wanted: spec_fn(EntryModel) -> bool)
    requires
        forall|i: int| 0 <= i < list.len() ==> !wanted(#[trigger] list[i]),
    ensures
        list.filter(wanted) == Seq::<EntryModel>::empty(),
    decreases list.len(),
{
    reveal(Seq::filter);
    if list.len() > 0 {
        let front = list.drop_last();
        assert forall|i: int| 0 <= i < front.len() implies !wanted(#[trigger] front[i]) by {
            assert(front[i] == list[i]);
        }
        lemma_filter_nothing(front, wanted);
    }
}

proof fn lemma_filter_one(entry: EntryModel, wanted: spec_fn(EntryModel) -> bool)
    ensures
        seq![entry].filter(wanted) == if wanted(entry) {
            seq![entry]
        } else {
            Seq::<EntryModel>::empty()
        },
{
    reveal_with_fuel(Seq::filter, 2);
    let one = seq![entry];
    assert(one.drop_last() =~= Seq::<EntryModel>::empty());
    assert(one.last() == entry);
    assert(Seq::<EntryModel>::empty().push(entry) =~= one);
}

/// Placing an entry at its rank adds it to the entries of its own key, in
/// front of them, and leaves those of every other key as they were.
proof fn lemma_insert_keeps_keys(entry: EntryModel, among: Seq<EntryModel>, key: SortKey)
    ensures
        among.insert(rank(entry, among) as int, entry).filter(has_key(key)) == seq![entry].filter(
            has_key(key),
        ) + among.filter(has_key(key)),
{
    let at = rank(entry, among) as int;
    let wanted = has_key(key);
    lemma_rank(entry, among);
    let before = among.subrange(0, at);
    let after = among.subrange(at, among.len() as int);
    let one = seq![entry];
    assert(among.insert(at, entry) =~= (before + one) + after);
    assert(among =~= before + after);
    Seq::filter_distributes_over_add(before + one, after, wanted);
    Seq::filter_distributes_over_add(before, one, wanted);
    Seq::filter_distributes_over_add(before, after, wanted);
    lemma_filter_one(entry, wanted);
    if wanted(entry) {
        assert forall|i: int| 0 <= i < before.len() implies !wanted(#[trigger] before[i]) by {
            assert(before[i] == among[i]);
            if key_of(before[i]) == key_of(entry) {
                lemma_entry_less_irreflexive(before[i], entry);
            }
        }
        lemma_filter_nothing(before, wanted);
        assert(among.insert(at, entry).filter(wanted) =~= one + among.filter(wanted));
    } else {
        assert(among.insert(at, entry).filter(wanted) =~= one.filter(wanted) + among.filter(
            wanted,
        ));
    }
}

pub proof fn lemma_arranged_keeps_keys(list: Seq<EntryModel>, key: SortKey)
    ensures
        arranged(list).filter(has_key(key)) == list.filter(has_key(key)),
    decreases list.len(),
{
    if list.len() > 0 {
        let tail = list.drop_first();
        lemma_arranged_keeps_keys(tail, key);
        lemma_insert_keeps_keys(list[0], arranged(tail), key);
        assert(list =~= seq![list[0]] + tail);
        Seq::filter_distributes_over_add(seq![list[0]], tail, has_key(key));
    }
}

proof fn lemma_filter_last(list: Seq<EntryModel>, wanted: spec_fn(EntryModel) -> bool)
    requires
        list.len() > 0,
    ensures
        list.filter(wanted) == if wanted(list.last()) {
            list.drop_last().filter(wanted).push(list.last())
        } else {
            list.drop_last().filter(wanted)
        },
{
    reveal(Seq::filter);
}

/// What a filter keeps was there.
proof fn lemma_filter_within(list: Seq<EntryModel>, wanted: spec_fn(EntryModel) -> bool, i: int) -> (at:
    int)
    requires
        0 <= i < list.filter(wanted).len(),
    ensures
        0 <= at < list.len(),
        list[at] == list.filter(wanted)[i],
    decreases list.len(),
{
    if list.len() == 0 {
        reveal(Seq::filter);
        0
    } else {
        lemma_filter_last(list, wanted);
        let front = list.drop_last();
        if wanted(list.last()) && i == front.filter(wanted).len() {
            list.len() - 1
        } else {
            let at = lemma_filter_within(front, wanted, i);
            assert(front[at] == list[at]);
            at
        }
    }
}

/// Two ordered lists that hold, for every key, the same entries in the same
/// order are one list.
pub proof fn lemma_stable_order_unique(first: Seq<EntryModel>, second: Seq<EntryModel>)
    requires
        ordered(first),
        ordered(second),
        first.len() == second.len(),
        forall|key: SortKey| #[trigger] first.filter(has_key(key)) == second.filter(has_key(key)),
    ensures
        first == second,
    decreases first.len(),
{
    if first.len() == 0 {
        assert(first =~= second);
    } else {
        let n = first.len() as int;
        let x = first.last();
        let y = second.last();
        let with_x = has_key(key_of(x));
        let with_y = has_key(key_of(y));
        lemma_filter_last(first, with_x);
        lemma_filter_last(second, with_y);
        assert(first.filter(with_x) == second.filter(with_x));
        assert(first.filter(with_y) == second.filter(with_y));
        let at_x = lemma_filter_within(second, with_x, first.filter(with_x).len() - 1);
        let at_y = lemma_filter_within(first, with_y, second.filter(with_y).len() - 1);
        assert(second[at_x] == x);
        assert(first[at_y] == y);
        if at_x < n - 1 {
            assert(!entry_less(second[n - 1], second[at_x]));
        } else {
            lemma_entry_less_irreflexive(y, x);
        }
        if at_y < n - 1 {
            assert(!entry_less(first[n - 1], first[at_y]));
        } else {
            lemma_entry_less_irreflexive(x, y);
        }
        lemma_entry_less_total(x, y);
        assert(x == y);
        let front = first.drop_last();
        let other = second.drop_last();
        assert forall|i: int, j: int|
            #![trigger front[i], front[j]]
            0 <= i < j < front.len() implies !entry_less(front[j], front[i]) by {
            assert(front[i] == first[i] && front[j] == first[j]);
        }
        assert forall|i: int, j: int|
            #![trigger other[i], other[j]]
            0 <= i < j < other.len() implies !entry_less(other[j], other[i]) by {
            assert(other[i] == second[i] && other[j] == second[j]);
        }
        assert forall|key: SortKey| #[trigger]
            front.filter(has_key(key)) == other.filter(has_key(key)) by {
            let wanted = has_key(key);
            lemma_filter_last(first, wanted);
            lemma_filter_last(second, wanted);
            assert(first.filter(wanted) == second.filter(wanted));
            if wanted(x) {
                assert(front.filter(wanted).push(x).drop_last() =~= front.filter(wanted));
                assert(other.filter(wanted).push(x).drop_last() =~= other.filter(wanted));
            }
        }
        lemma_stable_order_unique(front, other);
        assert(first =~= front.push(x));
        assert(second =~= other.push(y));
    }
}

/// No two entries have the same key.
pub open spec fn keys_distinct(list: Seq<EntryModel>) -> bool {
    forall|i: int, j: int|
        #![trigger list[i], list[j]]
        0 <= i < j < list.len() ==> key_of(list[i]) != key_of(list[j])
}

/// Both lists hold the same entries, in whatever order.
pub open spec fn same_members(first: Seq<EntryModel>, second: Seq<EntryModel>) -> bool {
    forall|entry: EntryModel| first.contains(entry) <==> second.contains(entry)
}

/// Among entries of distinct keys, a key picks its one entry or none.
proof fn lemma_filter_of_distinct(list: Seq<EntryModel>, key: SortKey)
    requires
        keys_distinct(list),
    ensures
        forall|i: int|
            0 <= i < list.len() && key_of(#[trigger] list[i]) == key ==> list.filter(has_key(key))
                == seq![list[i]],
        (forall|i: int| 0 <= i < list.len() ==> key_of(#[trigger] list[i]) != key) ==> list.filter(
            has_key(key),
        ) == Seq::<EntryModel>::empty(),
    decreases list.len(),
{
    let wanted = has_key(key);
    if list.len() == 0 {
        lemma_filter_nothing(list, wanted);
    } else {
        let front = list.drop_last();
        let last = list.last();
        lemma_filter_last(list, wanted);
        assert forall|i: int, j: int|
            #![trigger front[i], front[j]]
            0 <= i < j < front.len() implies key_of(front[i]) != key_of(front[j]) by {
            assert(front[i] == list[i] && front[j] == list[j]);
        }
        lemma_filter_of_distinct(front, key);
        if key_of(last) == key {
            assert forall|i: int| 0 <= i < front.len() implies !wanted(#[trigger] front[i]) by {
                assert(front[i] == list[i]);
                assert(key_of(list[i]) != key_of(list[list.len() - 1]));
            }
            lemma_filter_nothing(front, wanted);
            assert(Seq::<EntryModel>::empty().push(last) =~= seq![last]);
            assert forall|i: int| 0 <= i < list.len() && key_of(#[trigger] list[i]) == key implies
                list.filter(wanted) == seq![list[i]] by {
                if i < list.len() - 1 {
                    assert(key_of(list[i]) != key_of(list[list.len() - 1]));
                }
            }
        } else {
            assert forall|i: int| 0 <= i < list.len() && key_of(#[trigger] list[i]) == key implies
                list.filter(wanted) == seq![list[i]] by {
                assert(front[i] == list[i]);
            }
            if forall|i: int| 0 <= i < list.len() ==> key_of(#[trigger] list[i]) != key {
                assert forall|i: int| 0 <= i < front.len() implies key_of(#[trigger] front[i])
                    != key by {
                    assert(front[i] == list[i]);
                }
            }
        }
    }
}

/// The order does not depend on the order in which the entries were given,
/// as long as no two of them have the same key: two lists of the same entries
/// are arranged alike.
pub proof fn lemma_order_ignores_listing(first: Seq<EntryModel>, second: Seq<EntryModel>)
    requires
        keys_distinct(first),
        keys_distinct(second),
        same_members(first, second),
    ensures
        arranged(first) == arranged(second),
{
    assert(first.no_duplicates()) by {
        assert forall|i: int, j: int|
            0 <= i < first.len() && 0 <= j < first.len() && i != j implies first[i] != first[j] by {
            if i < j {
                assert(key_of(first[i]) != key_of(first[j]));
            } else {
                assert(key_of(first[j]) != key_of(first[i]));
            }
        }
    }
    assert(second.no_duplicates()) by {
        assert forall|i: int, j: int|
            0 <= i < second.len() && 0 <= j < second.len() && i != j implies second[i]
            != second[j] by {
            if i < j {
                assert(key_of(second[i]) != key_of(second[j]));
            } else {
                assert(key_of(second[j]) != key_of(second[i]));
            }
        }
    }
    first.unique_seq_to_set();
    second.unique_seq_to_set();
    assert(first.to_set() =~= second.to_set());
    lemma_arranged_is_stable_sort(first);
    assert forall|key: SortKey| #[trigger]
        arranged(first).filter(has_key(key)) == second.filter(has_key(key)) by {
        assert(arranged(first).filter(has_key(key)) == first.filter(has_key(key)));
        lemma_filter_of_distinct(first, key);
        lemma_filter_of_distinct(second, key);
        if exists|i: int| 0 <= i < first.len() && key_of(#[trigger] first[i]) == key {
            let i = choose|i: int| 0 <= i < first.len() && key_of(#[trigger] first[i]) == key;
            assert(first.contains(first[i]));
            assert(second.contains(first[i]));
            let j = choose|j: int| 0 <= j < second.len() && second[j] == first[i];
            assert(key_of(second[j]) == key);
        } else {
            if exists|j: int| 0 <= j < second.len() && key_of(#[trigger] second[j]) == key {
                let j = choose|j: int| 0 <= j < second.len() && key_of(#[trigger] second[j]) == key;
                assert(second.contains(second[j]));
                assert(first.contains(second[j]));
                let i = choose|i: int| 0 <= i < first.len() && first[i] == second[j];
                assert(key_of(first[i]) == key);
            }
        }
    }
    lemma_stable_sort_is_arranged(arranged(first), second);
}

/// There is one stable sort of a list, and arranging gives it.
pub proof fn lemma_stable_sort_is_arranged(sorted: Seq<EntryModel>, given: Seq<EntryModel>)
    requires
        stable_sort_of(sorted, given),
    ensures
        sorted == arranged(given),
{
    lemma_arranged_is_stable_sort(given);
    assert forall|key: SortKey| #[trigger]
        sorted.filter(has_key(key)) == arranged(given).filter(has_key(key)) by {
        assert(sorted.filter(has_key(key)) == given.filter(has_key(key)));
        assert(arranged(given).filter(has_key(key)) == given.filter(has_key(key)));
    }
    lemma_stable_order_unique(sorted, arranged(given));
}

/// Arranging is a stable sort: directories precede the other nodes, within a
/// kind the names go up without regard to case, and entries of equal rank
/// keep the order in which they were given.
pub proof fn lemma_arranged_is_stable_sort(list: Seq<EntryModel>)
    ensures
        stable_sort_of(arranged(list), list),
        arranged(list).len() == list.len(),
{
    lemma_arranged_ordered(list);
    lemma_arranged_len(list);
    assert forall|key: SortKey| #[trigger]
        arranged(list).filter(has_key(key)) == list.filter(has_key(key)) by {
        lemma_arranged_keeps_keys(list, key);
    }
}

/// Arranging neither adds nor drops an entry.
pub proof fn lemma_arranged_same_entries(list: Seq<EntryModel>)
    ensures
        forall|i: int| 0 <= i < arranged(list).len() ==> list.contains(#[trigger] arranged(list)[i]),
        forall|i: int| 0 <= i < list.len() ==> arranged(list).contains(#[trigger] list[i]),
    decreases list.len(),
{
    if list.len() > 0 {
        let tail = list.drop_first();
        let rest = arranged(tail);
        lemma_arranged_same_entries(tail);
        lemma_rank(list[0], rest);
        let at = rank(list[0], rest) as int;
        let placed = rest.insert(at, list[0]);
        assert forall|i: int| 0 <= i < placed.len() implies list.contains(#[trigger] placed[i]) by {
            if i == at {
                assert(list[0] == placed[i]);
            } else {
                let i0 = if i < at { i } else { i - 1 };
                assert(placed[i] == rest[i0]);
                assert(tail.contains(rest[i0]));
                let j = choose|j: int| 0 <= j < tail.len() && tail[j] == rest[i0];
                assert(list[j + 1] == placed[i]);
            }
        }
        assert forall|i: int| 0 <= i < list.len() implies placed.contains(#[trigger] list[i]) by {
            if i == 0 {
                assert(placed[at] == list[0]);
            } else {
                assert(list[i] == tail[i - 1]);
                assert(rest.contains(tail[i - 1]));
                let j = choose|j: int| 0 <= j < rest.len() && rest[j] == tail[i - 1];
                let j1 = if j < at { j } else { j + 1 };
                assert(placed[j1] == list[i]);
            }
        }
    }
}

/// Dictionary order on two folded names.
fn text_before(a: &Vec<char>, b: &Vec<char>) -> (before: bool)
    ensures
        before == text_less(a@, b@),
{
    let mut i: usize = 0;
    proof {
        assert(a@.skip(0) =~= a@);
        assert(b@.skip(0) =~= b@);
    }
    while i < a.len() && i < b.len()
        invariant
            i <= a.len(),
            i <= b.len(),
            text_less(a@, b@) == text_less(a@.skip(i as int), b@.skip(i as int)),
        decreases a.len() - i,
    {
        let x = a[i];
        let y = b[i];
        if x != y {
            return (x as u32) < (y as u32);
        }
        proof {
            assert(a@.skip(i as int).drop_first() =~= a@.skip(i + 1));
            assert(b@.skip(i as int).drop_first() =~= b@.skip(i + 1));
        }
        i += 1;
    }
    i < b.len()
}

fn key_before(a_is_dir: bool, a_folded: &Vec<char>, b_is_dir: bool, b_folded: &Vec<char>) -> (before:
    bool)
    ensures
        before == key_less(
            SortKey { is_dir: a_is_dir, folded: a_folded@ },
            SortKey { is_dir: b_is_dir, folded: b_folded@ },
        ),
{
    if a_is_dir != b_is_dir {
        a_is_dir
    } else {
        text_before(a_folded, b_folded)
    }
}

/// Puts the entries of one directory in their order.
pub fn sort_entries(entries: Vec<DirEntry>) -> (sorted: Vec<DirEntry>)
    ensures
        models(sorted@) == arranged(models(entries@)),
        stable_sort_of(models(sorted@), models(entries@)),
        sorted.len() == entries.len(),
{
    let ghost given = models(entries@);
    let mut rest = entries;
    let mut sorted: Vec<DirEntry> = Vec::new();
    let mut keys: Vec<Vec<char>> = Vec::new();
    proof {
        assert(given.skip(given.len() as int) =~= Seq::<EntryModel>::empty());
        assert(models(sorted@) =~= Seq::<EntryModel>::empty());
        assert(models(rest@) =~= given.take(rest.len() as int));
    }
    while rest.len() > 0
        invariant
            given.len() == entries.len(),
            rest.len() <= given.len(),
            models(rest@) == given.take(rest.len() as int),
            keys.len() == sorted.len(),
            forall|i: int|
                0 <= i < sorted.len() ==> (#[trigger] keys[i])@ == lowercase(sorted[i].name@),
            models(sorted@) == arranged(given.skip(rest.len() as int)),
        decreases rest.len(),
    {
        let ghost before = rest@;
        let ghost settled = models(sorted@);
        let entry = rest.pop().unwrap();
        let folded = fold_case(entry.name.as_str());
        proof {
            let n = rest.len() as int;
            assert(entry@ == models(before)[n]);
            assert(entry@ == given[n]);
            assert(models(rest@) =~= given.take(n));
            assert(given.skip(n).drop_first() =~= given.skip(n + 1));
            assert(given.skip(n)[0] == entry@);
            lemma_rank(entry@, settled);
        }
        let mut at: usize = 0;
        proof {
            assert(settled.skip(0) =~= settled);
        }
        while at < sorted.len() && key_before(
            sorted[at].is_dir,
            &keys[at],
            entry.is_dir,
            &folded,
        )
            invariant
                at <= sorted.len(),
                keys.len() == sorted.len(),
                settled == models(sorted@),
                folded@ == lowercase(entry.name@),
                forall|i: int|
                    0 <= i < sorted.len() ==> (#[trigger] keys[i])@ == lowercase(sorted[i].name@),
                rank(entry@, settled) == at + rank(entry@, settled.skip(at as int)),
            decreases sorted.len() - at,
        {
            proof {
                let here = settled.skip(at as int);
                assert(here[0] == sorted[at as int]@);
                assert(key_of(here[0]) == SortKey {
                    is_dir: sorted[at as int].is_dir,
                    folded: keys[at as int]@,
                });
                assert(here.drop_first() =~= settled.skip(at + 1));
            }
            at += 1;
        }
        proof {
            let here = settled.skip(at as int);
            if at < sorted.len() {
                assert(here[0] == sorted[at as int]@);
                assert(key_of(here[0]) == SortKey {
                    is_dir: sorted[at as int].is_dir,
                    folded: keys[at as int]@,
                });
            }
            assert(rank(entry@, settled) == at);
            assert(models(sorted@.insert(at as int, entry)) =~= settled.insert(at as int, entry@));
        }
        sorted.insert(at, entry);
        keys.insert(at, folded);
    }
    proof {
        assert(given.skip(0) =~= given);
        lemma_arranged_is_stable_sort(given);
    }
    sorted
}

} // verus!
