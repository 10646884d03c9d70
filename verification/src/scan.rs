//! Scanning: what one listing of a directory adds to the tree, and which of
//! its subdirectories are listed next.

use crate::names::extension;
use crate::names::hidden;
use crate::names::is_hidden;
use crate::names::join;
use crate::names::joined;
use crate::names::lemma_joined_injective;
use crate::time::Timestamp;
use crate::tree::file_entry;
use crate::tree::Directory;
use crate::tree::File;
use crate::tree::FileView;
use vstd::prelude::*;

verus! {

/// One entry of a directory's listing, as the filesystem reports it.
#[derive(Debug, PartialEq, Eq)]
pub enum Entry {
    /// A subdirectory, by its base name.
    Dir { name: String },
    /// Anything else, by its base name, with the times of its metadata.
    File { name: String, created_at: Timestamp, modified_at: Timestamp },
}

/// What the listing of one directory gives: the node with its files, and the
/// paths of the subdirectories that are to be scanned and adopted, in order.
#[derive(Debug, PartialEq, Eq)]
pub struct Listing {
    /// The directory, with its files and no subdirectory yet.
    pub node: Directory,
    /// The paths of the subdirectories to scan, in the order of the listing.
    pub pending: Vec<String>,
}

/// The files of a list, as plain values.
pub open spec fn files_view(files: Seq<File>) -> Seq<FileView> {
    files.map_values(|f: File| f@)
}

/// The strings of a list, as character sequences.
pub open spec fn paths_view(paths: Seq<String>) -> Seq<Seq<char>> {
    paths.map_values(|p: String| p@)
}

/// The files among the first `n` entries, in the order of the listing.
pub open spec fn files_upto(entries: Seq<Entry>, n: nat) -> Seq<FileView>
    decreases n,
{
    if n == 0 || n > entries.len() {
        Seq::empty()
    } else {
        let before = files_upto(entries, (n - 1) as nat);
        match entries[n - 1] {
            Entry::File { name, created_at, modified_at } => before.push(
                file_entry(name@, created_at, modified_at),
            ),
            Entry::Dir { .. } => before,
        }
    }
}

/// The files of a listing.
pub open spec fn found_files(entries: Seq<Entry>) -> Seq<FileView> {
    files_upto(entries, entries.len())
}

/// The scan goes down into an entry: a directory that is not hidden, while
/// subdirectories are scanned at all.
pub open spec fn descends(entry: Entry, recurse: bool) -> bool {
    recurse && (entry matches Entry::Dir { name } && !hidden(name@))
}

/// The paths of the subdirectories among the first `n` entries of the listing
/// of `path` that the scan goes down into, in the order of the listing.
pub open spec fn subdirs_upto(path: Seq<char>, entries: Seq<Entry>, recurse: bool, n: nat) -> Seq<
    Seq<char>,
>
    decreases n,
{
    if n == 0 || n > entries.len() {
        Seq::empty()
    } else {
        let before = subdirs_upto(path, entries, recurse, (n - 1) as nat);
        match entries[n - 1] {
            Entry::Dir { name } => if recurse && !hidden(name@) {
                before.push(joined(path, name@))
            } else {
                before
            },
            Entry::File { .. } => before,
        }
    }
}

/// The paths that a scan of `path` goes down into, given its listing.
pub open spec fn subdirs(path: Seq<char>, entries: Seq<Entry>, recurse: bool) -> Seq<Seq<char>> {
    subdirs_upto(path, entries, recurse, entries.len())
}

impl Directory {
    /// Takes the listing of the directory `path` into a new node: every entry
    /// that is no directory becomes a file of the node, and every directory
    /// that is not hidden is handed back to be scanned, unless `self` says
    /// that subdirectories are left alone. `self` gives the scan's setting
    /// and nothing else.
    pub fn scan_dir(&self, path: &str, entries: &Vec<Entry>) -> (r: Listing)
        ensures
            r.node.path@ == path@,
            files_view(r.node.files@) == found_files(entries@),
            r.node.directories is None,
            r.node.should_scan_subdirectories == self.should_scan_subdirectories,
            r.node.well_formed(),
            paths_view(r.pending@) == subdirs(path@, entries@, self.should_scan_subdirectories),
    {
        let recurse = self.should_scan_subdirectories;
        let mut files: Vec<File> = Vec::new();
        let mut pending: Vec<String> = Vec::new();
        let mut i: usize = 0;
        while i < entries.len()
            invariant
                i <= entries.len(),
                files_view(files@) =~= files_upto(entries@, i as nat),
                paths_view(pending@) =~= subdirs_upto(path@, entries@, recurse, i as nat),
            decreases entries.len() - i,
        {
            match &entries[i] {
                Entry::Dir { name } => {
                    if recurse && !is_hidden(name.as_str()) {
                        pending.push(join(path, name.as_str()));
                    }
                },
                Entry::File { name, created_at, modified_at } => {
                    files.push(File::new(name.as_str(), *created_at, *modified_at));
                },
            }
            i += 1;
        }
        Listing {
            node: Directory {
                path: String::from_str(path),
                files,
                directories: None,
                should_scan_subdirectories: recurse,
            },
            pending,
        }
    }
}

/// A hidden directory is never gone into: whatever the listing and the
/// setting, the path of a hidden name is not among those handed back.
pub proof fn lemma_hidden_never_scanned(
    path: Seq<char>,
    entries: Seq<Entry>,
    recurse: bool,
    name: Seq<char>,
)
    requires
        hidden(name),
    ensures
        !subdirs(path, entries, recurse).contains(joined(path, name)),
{
    lemma_hidden_not_upto(path, entries, recurse, name, entries.len());
}

proof fn lemma_hidden_not_upto(
    path: Seq<char>,
    entries: Seq<Entry>,
    recurse: bool,
    name: Seq<char>,
    n: nat,
)
    requires
        hidden(name),
        n <= entries.len(),
    ensures
        !subdirs_upto(path, entries, recurse, n).contains(joined(path, name)),
    decreases n,
{
    if n > 0 {
        lemma_hidden_not_upto(path, entries, recurse, name, (n - 1) as nat);
        let before = subdirs_upto(path, entries, recurse, (n - 1) as nat);
        let all = subdirs_upto(path, entries, recurse, n);
        if all.contains(joined(path, name)) {
            let k = choose|k: int| 0 <= k < all.len() && all[k] == joined(path, name);
            if k < before.len() {
                assert(before[k] == all[k]);
                assert(before.contains(joined(path, name)));
            } else {
                match entries[n - 1] {
                    Entry::Dir { name: found } => {
                        lemma_joined_injective(path, found@, name);
                    },
                    Entry::File { .. } => {},
                }
            }
        }
    }
}

/// Every path handed back is that of a directory of the listing that is not
/// hidden.
pub proof fn lemma_subdirs_are_listed(path: Seq<char>, entries: Seq<Entry>, recurse: bool, k: int)
    requires
        0 <= k < subdirs(path, entries, recurse).len(),
    ensures
        exists|i: int|
            0 <= i < entries.len() && descends(#[trigger] entries[i], recurse) && subdirs(
                path,
                entries,
                recurse,
            )[k] == joined(path, entries[i]->Dir_name@),
{
    lemma_subdirs_upto_are_listed(path, entries, recurse, entries.len(), k);
}

proof fn lemma_subdirs_upto_are_listed(
    path: Seq<char>,
    entries: Seq<Entry>,
    recurse: bool,
    n: nat,
    k: int,
)
    requires
        n <= entries.len(),
        0 <= k < subdirs_upto(path, entries, recurse, n).len(),
    ensures
        exists|i: int|
            0 <= i < n && descends(#[trigger] entries[i], recurse) && subdirs_upto(
                path,
                entries,
                recurse,
                n,
            )[k] == joined(path, entries[i]->Dir_name@),
    decreases n,
{
    let before = subdirs_upto(path, entries, recurse, (n - 1) as nat);
    if k < before.len() {
        lemma_subdirs_upto_are_listed(path, entries, recurse, (n - 1) as nat, k);
        let i = choose|i: int|
            0 <= i < n - 1 && descends(#[trigger] entries[i], recurse) && before[k] == joined(
                path,
                entries[i]->Dir_name@,
            );
        assert(descends(entries[i], recurse));
    } else {
        assert(descends(entries[n - 1], recurse));
    }
}

/// A directory of the listing that is not hidden is handed back, where
/// subdirectories are scanned.
pub proof fn lemma_listed_dir_is_scanned(path: Seq<char>, entries: Seq<Entry>, i: int)
    requires
        0 <= i < entries.len(),
        descends(entries[i], true),
    ensures
        subdirs(path, entries, true).contains(joined(path, entries[i]->Dir_name@)),
{
    lemma_listed_dir_upto(path, entries, i, entries.len());
}

proof fn lemma_listed_dir_upto(path: Seq<char>, entries: Seq<Entry>, i: int, n: nat)
    requires
        0 <= i < n <= entries.len(),
        descends(entries[i], true),
    ensures
        subdirs_upto(path, entries, true, n).contains(joined(path, entries[i]->Dir_name@)),
    decreases n,
{
    let all = subdirs_upto(path, entries, true, n);
    let before = subdirs_upto(path, entries, true, (n - 1) as nat);
    if i == n - 1 {
        assert(all[all.len() - 1] == joined(path, entries[i]->Dir_name@));
    } else {
        lemma_listed_dir_upto(path, entries, i, (n - 1) as nat);
        let k = choose|k: int|
            0 <= k < before.len() && before[k] == joined(path, entries[i]->Dir_name@);
        assert(all[k] == before[k]);
    }
}

/// A scan that leaves subdirectories alone hands none back, whatever the
/// listing holds.
pub proof fn lemma_flat_scan_has_no_subdirs(path: Seq<char>, entries: Seq<Entry>)
    ensures
        subdirs(path, entries, false).len() == 0,
{
    lemma_flat_upto(path, entries, entries.len());
}

proof fn lemma_flat_upto(path: Seq<char>, entries: Seq<Entry>, n: nat)
    requires
        n <= entries.len(),
    ensures
        subdirs_upto(path, entries, false, n).len() == 0,
    decreases n,
{
    if n > 0 {
        lemma_flat_upto(path, entries, (n - 1) as nat);
    }
}

/// Every file of a listing has the type that its name gives.
pub proof fn lemma_found_files_have_types(entries: Seq<Entry>, k: int)
    requires
        0 <= k < found_files(entries).len(),
    ensures
        found_files(entries)[k].filetype == extension(found_files(entries)[k].name),
{
    lemma_files_upto_have_types(entries, entries.len(), k);
}

proof fn lemma_files_upto_have_types(entries: Seq<Entry>, n: nat, k: int)
    requires
        n <= entries.len(),
        0 <= k < files_upto(entries, n).len(),
    ensures
        files_upto(entries, n)[k].filetype == extension(files_upto(entries, n)[k].name),
    decreases n,
{
    let before = files_upto(entries, (n - 1) as nat);
    if k < before.len() {
        lemma_files_upto_have_types(entries, (n - 1) as nat, k);
    }
}

} // verus!
