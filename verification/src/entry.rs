//! The nodes of a directory snapshot.

use vstd::prelude::*;

verus! {

/// One file-system node as it was seen when the snapshot was taken.
#[derive(Debug, PartialEq, Eq)]
pub struct DirEntry {
    /// Base name.
    pub name: String,
    /// Absolute path.
    pub path: String,
    pub is_dir: bool,
    pub is_file: bool,
    /// The node's own entries; present only for a directory that was expanded.
    /// An expanded empty directory holds `Some` of an empty list.
    pub children: Option<Vec<DirEntry>>,
    /// Size in bytes; present only for a file.
    pub size: Option<u64>,
}

/// The mathematical value of a [`DirEntry`].
pub struct EntryModel {
    pub name: Seq<char>,
    pub path: Seq<char>,
    pub is_dir: bool,
    pub is_file: bool,
    pub children: Option<Seq<EntryModel>>,
    pub size: Option<u64>,
}

/// The value of a node: its own fields, and under it the values of its
/// entries.
pub open spec fn model_of(entry: DirEntry) -> EntryModel
    decreases entry,
{
    EntryModel {
        name: entry.name@,
        path: entry.path@,
        is_dir: entry.is_dir,
        is_file: entry.is_file,
        children: match entry.children {
            Some(list) => Some(
                Seq::new(
                    list.len() as nat,
                    |i: int|
                        if 0 <= i < list.len() {
                            model_of(list[i])
                        } else {
                            arbitrary()
                        },
                ),
            ),
            None => None,
        },
        size: entry.size,
    }
}

impl View for DirEntry {
    type V = EntryModel;

    open spec fn view(&self) -> EntryModel {
        model_of(*self)
    }
}

/// The models of a list of entries, in order.
pub open spec fn models(list: Seq<DirEntry>) -> Seq<EntryModel> {
    Seq::new(list.len(), |i: int| list[i]@)
}

/// The entries of an expanded directory, seen through [`models`].
pub proof fn lemma_children_model(entry: DirEntry)
    ensures
        entry@.children == match entry.children {
            Some(list) => Some(models(list@)),
            None => None,
        },
{
    match entry.children {
        Some(list) => {
            let below = entry@.children->0;
            assert(below.len() == list@.len());
            assert forall|i: int| 0 <= i < below.len() implies below[i] == models(list@)[i] by {
                assert(list[i] == list@[i]);
            }
            assert(below =~= models(list@));
        },
        None => {},
    }
}

impl Clone for DirEntry {
    /// A copy of the node and of everything below it.
    fn clone(&self) -> (copy: Self)
        ensures
            copy@ == self@,
        decreases self,
    {
        let children = match &self.children {
            Some(list) => {
                let mut copies: Vec<DirEntry> = Vec::new();
                let mut i: usize = 0;
                while i < list.len()
                    invariant
                        i <= list.len(),
                        self.children == Some(*list),
                        copies.len() == i,
                        forall|j: int| 0 <= j < i ==> (#[trigger] copies[j])@ == list[j]@,
                    decreases list.len() - i,
                {
                    proof {
                        let below = self.children->0;
                        vstd::std_specs::vec::axiom_vec_index_decreases(below, i as int);
                        assert(decreases_to!(*self => below[i as int]));
                    }
                    let copy = list[i].clone();
                    copies.push(copy);
                    i += 1;
                }
                proof {
                    assert(models(copies@) =~= models(list@));
                }
                Some(copies)
            },
            None => None,
        };
        let copy = DirEntry {
            name: self.name.clone(),
            path: self.path.clone(),
            is_dir: self.is_dir,
            is_file: self.is_file,
            children,
            size: self.size,
        };
        proof {
            lemma_children_model(copy);
            lemma_children_model(*self);
        }
        copy
    }
}

impl EntryModel {
    /// A node is a directory, a file, or neither; only a file has a size and
    /// only a directory has entries of its own. This holds of the node and of
    /// everything below it.
    pub open spec fn shaped(self) -> bool
        decreases self,
    {
        &&& !(self.is_dir && self.is_file)
        &&& (self.size is Some <==> self.is_file)
        &&& (self.children is Some ==> self.is_dir)
        &&& match self.children {
            Some(list) => forall|i: int| 0 <= i < list.len() ==> (#[trigger] list[i]).shaped(),
            None => true,
        }
    }
}

} // verus!
