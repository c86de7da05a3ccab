//! The decisions of the tree walk, and the compute part of each frame.
//!
//! Walking a directory is input/output and stays with the caller; what is
//! decided about each entry — skip the repository metadata directory, map
//! a kind and permission to a mode code, reject what cannot be stored —
//! and what is computed from the collected entries — the packed tree and
//! its write plan — stands here, verified.

use vstd::prelude::*;

use crate::objects::{
    spec_pack_blob, spec_pack_tree, views_of, wf_entry, BlobObject, TreeEntry, TreeObject,
};
use crate::order::sorted_entries;
use crate::raw::copy_range;
use crate::store::{is_plan_for, plan_object_write, StoredObject};

verus! {

/// What kind of directory entry the walk met.
#[derive(Clone, Copy, PartialEq, Eq, Debug, Structural)]
pub enum WalkEntryKind {
    File,
    Dir,
    Symlink,
    Other,
}

/// What the builder does with one directory entry.
#[derive(Clone, Copy, PartialEq, Eq, Debug, Structural)]
pub enum EntryPlan {
    Skip,
    HashBlob { mode: u32 },
    RecurseTree { mode: u32 },
}

/// Why the walk must stop at an entry.
#[derive(Clone, Copy, PartialEq, Eq, Debug, Structural)]
pub enum BuildError {
    UnsupportedEntryKind,
    SymlinkUnimplemented,
}

/// The reserved repository-metadata directory name, `.git`.
pub open spec fn metadata_dir_name() -> Seq<u8> {
    seq![46u8, 103u8, 105u8, 116u8]
}

fn is_metadata_dir(name: &Vec<u8>) -> (r: bool)
    ensures
        r == (name@ == metadata_dir_name()),
{
    if name.len() == 4 && name[0] == 46 && name[1] == 103 && name[2] == 105 && name[3] == 116 {
        proof {
            assert(name@ =~= metadata_dir_name());
        }
        true
    } else {
        proof {
            if name@ == metadata_dir_name() {
                assert(name@.len() == 4);
                assert(name@[0] == 46 && name@[1] == 103 && name@[2] == 105 && name@[3] == 116);
                assert(false);
            }
        }
        false
    }
}

/// The mode code of an entry: `40000` for a directory, `120000` for a
/// symlink, `100755` for an executable file, `100644` otherwise.
pub fn entry_mode(kind: WalkEntryKind, executable: bool) -> (m: u32)
    requires
        !(kind is Other),
    ensures
        kind is Dir ==> m == 40000,
        kind is Symlink ==> m == 120000,
        (kind is File && executable) ==> m == 100755,
        (kind is File && !executable) ==> m == 100644,
{
    match kind {
        WalkEntryKind::Dir => 40000,
        WalkEntryKind::Symlink => 120000,
        WalkEntryKind::File => if executable {
            100755
        } else {
            100644
        },
        WalkEntryKind::Other => 0,
    }
}

/// Decide one directory entry. The metadata directory is skipped; any
/// other directory is walked; a file becomes a blob with the mode its
/// permission selects; a symlink's content handling is unimplemented; any
/// other kind cannot be stored.
pub fn plan_tree_entry(kind: WalkEntryKind, executable: bool, name: &Vec<u8>) -> (r: Result<
    EntryPlan,
    BuildError,
>)
    ensures
        (kind is Dir && name@ == metadata_dir_name()) ==> r == Ok::<EntryPlan, BuildError>(
            EntryPlan::Skip,
        ),
        (kind is Dir && name@ != metadata_dir_name()) ==> r == Ok::<EntryPlan, BuildError>(
            (EntryPlan::RecurseTree { mode: 40000u32 }),
        ),
        (kind is File && executable) ==> r == Ok::<EntryPlan, BuildError>(
            (EntryPlan::HashBlob { mode: 100755u32 }),
        ),
        (kind is File && !executable) ==> r == Ok::<EntryPlan, BuildError>(
            (EntryPlan::HashBlob { mode: 100644u32 }),
        ),
        kind is Symlink ==> r == Err::<EntryPlan, BuildError>(BuildError::SymlinkUnimplemented),
        kind is Other ==> r == Err::<EntryPlan, BuildError>(BuildError::UnsupportedEntryKind),
{
    match kind {
        WalkEntryKind::Dir => {
            if is_metadata_dir(name) {
                Ok(EntryPlan::Skip)
            } else {
                Ok(EntryPlan::RecurseTree { mode: entry_mode(kind, executable) })
            }
        },
        WalkEntryKind::File => Ok(EntryPlan::HashBlob { mode: entry_mode(kind, executable) }),
        WalkEntryKind::Symlink => Err(BuildError::SymlinkUnimplemented),
        WalkEntryKind::Other => Err(BuildError::UnsupportedEntryKind),
    }
}

/// Pack a file's bytes as a blob and plan its write: the compute part of
/// storing one file.
pub fn store_blob(data: Vec<u8>) -> (s: StoredObject)
    ensures
        is_plan_for(s, spec_pack_blob(data@)),
{
    let blob = BlobObject { data };
    let packed = blob.pack();
    plan_object_write(&packed)
}

/// Sort and pack collected entries as a tree and plan its write: the
/// compute part of one recursion frame of the tree walk.
pub fn store_tree(entries: Vec<TreeEntry>) -> (r: (TreeObject, StoredObject))
    requires
        forall|i: int| 0 <= i < entries@.len() ==> wf_entry(#[trigger] entries@[i]@),
    ensures
        sorted_entries(views_of(r.0.entries@)),
        views_of(r.0.entries@).to_multiset() == views_of(entries@).to_multiset(),
        is_plan_for(r.1, spec_pack_tree(views_of(r.0.entries@))),
{
    let mut tree = TreeObject { entries };
    let packed = tree.pack();
    let plan = plan_object_write(&packed);
    (tree, plan)
}

/// The entries' names, one per entry, in the tree's stored order: what
/// `ls-tree --name-only` prints.
pub fn tree_entry_names(t: &TreeObject) -> (names: Vec<Vec<u8>>)
    ensures
        names@.len() == t.entries@.len(),
        forall|i: int| 0 <= i < names@.len() ==> names@[i]@ == t.entries@[i]@.name,
{
    let mut names: Vec<Vec<u8>> = Vec::new();
    let mut i: usize = 0;
    while i < t.entries.len()
        invariant
            i <= t.entries@.len(),
            names@.len() == i,
            forall|k: int| 0 <= k < i ==> names@[k]@ == t.entries@[k]@.name,
        decreases t.entries@.len() - i,
    {
        let name = copy_range(&t.entries[i].name, 0, t.entries[i].name.len());
        proof {
            assert(name@ =~= t.entries@[i as int]@.name);
        }
        names.push(name);
        i += 1;
    }
    names
}

} // verus!
