//! The scan of a whole tree, one listing at a time: the scanner says which
//! directory it wants listed, takes the listing, and goes on until the tree
//! is whole.

use crate::names::joined;
use crate::scan::descends;
use crate::scan::files_view;
use crate::scan::found_files;
use crate::scan::lemma_flat_scan_has_no_subdirs;
use crate::scan::lemma_subdirs_are_listed;
use crate::scan::paths_view;
use crate::scan::subdirs;
use crate::scan::Entry;
use crate::tree::Directory;
use vstd::prelude::*;

verus! {

/// `dir` is the tree that a scan finds at `dir.path` where every directory
/// `p` lists as `fs(p)`: its files are those of its listing, and its
/// subdirectories are the trees of the directories of its listing that are
/// not hidden, in order, where subdirectories are scanned, and absent where
/// there is none.
pub open spec fn scanned_from(
    dir: Directory,
    fs: spec_fn(Seq<char>) -> Seq<Entry>,
    recurse: bool,
) -> bool
    decreases dir,
{
    let wanted = subdirs(dir.path@, fs(dir.path@), recurse);
    &&& files_view(dir.files@) == found_files(fs(dir.path@))
    &&& dir.should_scan_subdirectories == recurse
    &&& match dir.directories {
        Some(list) => {
            &&& list.len() > 0
            &&& list.len() == wanted.len()
            &&& forall|k: int|
                0 <= k < list.len() ==> {
                    &&& (#[trigger] list[k]).path@ == wanted[k]
                    &&& scanned_from(list[k], fs, recurse)
                }
        },
        None => wanted.len() == 0,
    }
}

/// Where a scan stands after the tree of the awaited directory is whole:
/// that tree is adopted by the innermost directory, and every directory that
/// then waits for no further subdirectory is whole too and is adopted in turn.
/// `pos` holds, for each directory that is half scanned, outermost first, how
/// many subdirectories it has adopted and how many it is to adopt.
pub open spec fn climbed(pos: Seq<(nat, nat)>) -> Seq<(nat, nat)>
    decreases pos.len(),
{
    if pos.len() == 0 {
        pos
    } else if pos.last().0 + 1 < pos.last().1 {
        pos.drop_last().push(((pos.last().0 + 1) as nat, pos.last().1))
    } else {
        climbed(pos.drop_last())
    }
}

/// Where a scan stands after the listing of the awaited directory, in which
/// `found` subdirectories are to be scanned: one level further down where
/// there is any, and back up otherwise.
pub open spec fn advanced(pos: Seq<(nat, nat)>, found: nat) -> Seq<(nat, nat)> {
    if found > 0 {
        pos.push((0, found))
    } else {
        climbed(pos)
    }
}

/// The path that a scan of `root` waits for when it stands at `pos`, where
/// every directory `p` lists as `fs(p)`: the root at the start, and below a
/// directory that is half scanned the first of its subdirectories that it has
/// not adopted.
pub open spec fn path_at(
    root: Seq<char>,
    fs: spec_fn(Seq<char>) -> Seq<Entry>,
    recurse: bool,
    pos: Seq<(nat, nat)>,
) -> Seq<char>
    decreases pos.len(),
{
    if pos.len() == 0 {
        root
    } else {
        let parent = path_at(root, fs, recurse, pos.drop_last());
        subdirs(parent, fs(parent), recurse)[pos.last().0 as int]
    }
}

/// A directory whose listing was taken and whose subdirectories are being
/// scanned.
struct Frame {
    node: Directory,
    pending: Vec<String>,
}

impl Frame {
    /// Some subdirectory is still to be adopted.
    spec fn open(self) -> bool {
        self.node.children().len() < self.pending@.len()
    }

    /// The path of the subdirectory that is adopted next.
    spec fn awaits(self) -> Seq<char> {
        self.pending@[self.node.children().len() as int]@
    }

    /// The frame holds what a scan of its directory has found so far.
    spec fn sound(self, fs: spec_fn(Seq<char>) -> Seq<Entry>, recurse: bool) -> bool {
        &&& files_view(self.node.files@) == found_files(fs(self.node.path@))
        &&& self.node.should_scan_subdirectories == recurse
        &&& self.node.well_formed()
        &&& paths_view(self.pending@) == subdirs(self.node.path@, fs(self.node.path@), recurse)
        &&& self.node.children().len() <= self.pending@.len()
        &&& forall|k: int|
            0 <= k < self.node.children().len() ==> {
                &&& (#[trigger] self.node.children()[k]).path@ == self.pending@[k]@
                &&& scanned_from(self.node.children()[k], fs, recurse)
            }
    }

    /// How many subdirectories the frame has adopted, and how many it is to
    /// adopt.
    spec fn counts(self) -> (nat, nat) {
        (self.node.children().len(), self.pending@.len())
    }

    fn adopted(&self) -> (n: usize)
        ensures
            n == self.node.children().len(),
    {
        match &self.node.directories {
            Some(list) => list.len(),
            None => 0,
        }
    }
}

/// What the scanner asks for next.
#[derive(Debug, PartialEq, Eq)]
pub enum Progress {
    /// The listing of the directory `path`.
    List { path: String },
    /// Nothing: the tree is whole.
    Finished { tree: Directory },
}

/// A scan in progress.
pub struct Scanner {
    root: String,
    recurse: bool,
    stack: Vec<Frame>,
}

impl Scanner {
    /// The path that the scan starts at.
    pub closed spec fn root(self) -> Seq<char> {
        self.root@
    }

    /// Whether the scan goes down into subdirectories.
    pub closed spec fn recurse(self) -> bool {
        self.recurse
    }

    /// The scanner has no directory half scanned: the next listing is that
    /// of the root.
    pub closed spec fn idle(self) -> bool {
        self.stack@.len() == 0
    }

    /// Where the scan stands: for each directory that is half scanned,
    /// outermost first, how many subdirectories it has adopted and how many
    /// it is to adopt.
    pub closed spec fn position(self) -> Seq<(nat, nat)> {
        self.stack@.map_values(|f: Frame| f.counts())
    }

    /// Every directory that is half scanned still waits for a subdirectory.
    /// This holds of every scanner that a program can have.
    #[verifier::type_invariant]
    pub closed spec fn well_formed(self) -> bool {
        forall|i: int| 0 <= i < self.stack@.len() ==> (#[trigger] self.stack@[i]).open()
    }

    /// The path of the directory whose listing the scanner takes next.
    pub closed spec fn awaited(self) -> Seq<char> {
        if self.stack@.len() == 0 {
            self.root@
        } else {
            self.stack@.last().awaits()
        }
    }

    /// What the scanner holds is what a scan has found so far, where every
    /// directory `p` lists as `fs(p)`.
    pub closed spec fn consistent(self, fs: spec_fn(Seq<char>) -> Seq<Entry>) -> bool {
        &&& forall|i: int|
            0 <= i < self.stack@.len() ==> (#[trigger] self.stack@[i]).sound(fs, self.recurse)
        &&& self.stack@.len() > 0 ==> self.stack@[0].node.path@ == self.root@
        &&& forall|i: int|
            0 < i < self.stack@.len() ==> (#[trigger] self.stack@[i]).node.path@ == self.stack@[i
                - 1].awaits()
    }

    /// The listing `entries` is that of the awaited directory, and what the
    /// scanner holds agrees with `fs`.
    pub open spec fn fed(self, entries: Seq<Entry>, fs: spec_fn(Seq<char>) -> Seq<Entry>) -> bool {
        self.consistent(fs) && fs(self.awaited()) == entries
    }

    /// The scanner as it is with `stack` for its half-scanned directories.
    spec fn with_stack(self, stack: Vec<Frame>) -> Scanner {
        Scanner { root: self.root, recurse: self.recurse, stack }
    }

    /// The scanner has taken the listing of the awaited directory into
    /// `current`, and both agree with `fs`.
    spec fn halfway(self, current: Frame, fs: spec_fn(Seq<char>) -> Seq<Entry>) -> bool {
        &&& self.consistent(fs)
        &&& current.sound(fs, self.recurse)
        &&& current.node.path@ == self.awaited()
    }

    /// A scanner for the tree at `root` that has taken no listing yet.
    pub fn new(root: &str, recurse: bool) -> (r: Scanner)
        ensures
            r.root() == root@,
            r.recurse() == recurse,
            r.idle(),
            r.position() == Seq::<(nat, nat)>::empty(),
            r.awaited() == root@,
            forall|fs: spec_fn(Seq<char>) -> Seq<Entry>| #[trigger] r.consistent(fs),
    {
        Scanner { root: String::from_str(root), recurse, stack: Vec::new() }
    }

    /// The path of the directory whose listing the scanner takes next.
    pub fn awaited_path(&self) -> (r: String)
        ensures
            r@ == self.awaited(),
    {
        proof {
            use_type_invariant(self);
        }
        let depth: usize = self.stack.len();
        if depth == 0 {
            self.root.clone()
        } else {
            let top = &self.stack[depth - 1];
            top.pending[top.adopted()].clone()
        }
    }

    /// Takes the listing of the awaited directory and says what comes next:
    /// the directory to list, or the finished tree. A directory is asked for
    /// only where the listing of its parent holds it, it is not hidden and
    /// subdirectories are scanned; each is asked for once its elder siblings'
    /// trees are whole. After `Finished` the scanner is idle again.
    pub fn feed(&mut self, entries: &Vec<Entry>) -> (r: Progress)
        ensures
            final(self).root() == old(self).root(),
            final(self).recurse() == old(self).recurse(),
            final(self).position() == advanced(
                old(self).position(),
                subdirs(old(self).awaited(), entries@, old(self).recurse()).len(),
            ),
            r is Finished <==> final(self).idle(),
            r matches Progress::List { path } ==> path@ == final(self).awaited(),
            forall|fs: spec_fn(Seq<char>) -> Seq<Entry>| #[trigger]
                old(self).fed(entries@, fs) ==> match r {
                    Progress::List { path } => final(self).consistent(fs),
                    Progress::Finished { tree } => tree.path@ == old(self).root() && scanned_from(
                        tree,
                        fs,
                        old(self).recurse(),
                    ),
                },
    {
        proof {
            use_type_invariant(&*self);
        }
        let ghost start = *self;
        let path = self.awaited_path();
        let mut setting = Directory::new("");
        setting.should_scan_subdirectories = self.recurse;
        let listing = setting.scan_dir(path.as_str(), entries);
        let mut current = Frame { node: listing.node, pending: listing.pending };
        let ghost found = subdirs(start.awaited(), entries@, start.recurse).len();
        assert(paths_view(current.pending@).len() == current.pending@.len());
        let mut stack: Vec<Frame> = Vec::new();
        core::mem::swap(&mut self.stack, &mut stack);
        assert(start.with_stack(stack) == start);
        loop
            invariant
                start == *old(self),
                self.root == start.root,
                self.recurse == start.recurse,
                self.stack@.len() == 0,
                start.with_stack(stack).well_formed(),
                current.node.well_formed(),
                found == subdirs(start.awaited(), entries@, start.recurse).len(),
                advanced(start.position(), found) == if current.open() {
                    start.with_stack(stack).position().push(current.counts())
                } else {
                    climbed(start.with_stack(stack).position())
                },
                forall|fs: spec_fn(Seq<char>) -> Seq<Entry>| #[trigger]
                    start.fed(entries@, fs) ==> start.with_stack(stack).halfway(current, fs),
            decreases stack@.len(),
        {
            let adopted: usize = current.adopted();
            if adopted < current.pending.len() {
                let next = current.pending[adopted].clone();
                let ghost before = start.with_stack(stack);
                stack.push(current);
                self.stack = stack;
                proof {
                    assert(*self == start.with_stack(self.stack));
                    assert(self.position() =~= before.position().push(current.counts()));
                    assert forall|fs: spec_fn(Seq<char>) -> Seq<Entry>| #[trigger]
                        start.fed(entries@, fs) implies self.consistent(fs) by {
                        assert(before.halfway(current, fs));
                    }
                }
                return Progress::List { path: next };
            }
            let ghost before = start.with_stack(stack);
            let ghost child = current;
            match stack.pop() {
                None => {
                    proof {
                        assert(*self == start.with_stack(self.stack));
                        assert(self.position() =~= Seq::<(nat, nat)>::empty());
                        assert forall|fs: spec_fn(Seq<char>) -> Seq<Entry>| #[trigger]
                            start.fed(entries@, fs) implies current.node.path@ == start.root()
                            && scanned_from(current.node, fs, start.recurse()) by {
                            assert(before.halfway(current, fs));
                            lemma_whole_frame_is_scanned(current, fs, self.recurse);
                        }
                    }
                    return Progress::Finished { tree: current.node };
                },
                Some(parent) => {
                    let mut parent = parent;
                    let ghost elder = parent;
                    parent.node.adopt(current.node);
                    current = parent;
                    proof {
                        let now = start.with_stack(stack);
                        assert(elder == before.stack@[before.stack@.len() - 1]);
                        assert(before.position().last() == elder.counts());
                        assert(now.position() =~= before.position().drop_last());
                        assert forall|fs: spec_fn(Seq<char>) -> Seq<Entry>| #[trigger]
                            start.fed(entries@, fs) implies now.halfway(current, fs) by {
                            assert(before.halfway(child, fs));
                            lemma_whole_frame_is_scanned(child, fs, self.recurse);
                        }
                    }
                },
            }
        }
    }
}

/// A frame that waits for no subdirectory holds the whole tree of its
/// directory.
proof fn lemma_whole_frame_is_scanned(
    frame: Frame,
    fs: spec_fn(Seq<char>) -> Seq<Entry>,
    recurse: bool,
)
    requires
        frame.sound(fs, recurse),
        !frame.open(),
    ensures
        scanned_from(frame.node, fs, recurse),
{
    let wanted = subdirs(frame.node.path@, fs(frame.node.path@), recurse);
    assert(paths_view(frame.pending@).len() == frame.pending@.len());
    match frame.node.directories {
        Some(list) => {
            assert forall|k: int| 0 <= k < list.len() implies {
                &&& (#[trigger] list[k]).path@ == wanted[k]
                &&& scanned_from(list[k], fs, recurse)
            } by {
                assert(frame.node.children()[k] == list[k]);
                assert(paths_view(frame.pending@)[k] == frame.pending@[k]@);
            }
        },
        None => {},
    }
}

impl Scanner {
    /// The awaited path is the one that the listings and the position give.
    pub proof fn lemma_awaited_path(self, fs: spec_fn(Seq<char>) -> Seq<Entry>)
        requires
            self.well_formed(),
            self.consistent(fs),
        ensures
            self.awaited() == path_at(self.root(), fs, self.recurse(), self.position()),
    {
        self.lemma_awaited_upto(fs, self.stack@.len());
        assert(self.position().take(self.stack@.len() as int) =~= self.position());
    }

    proof fn lemma_awaited_upto(self, fs: spec_fn(Seq<char>) -> Seq<Entry>, n: nat)
        requires
            self.well_formed(),
            self.consistent(fs),
            n <= self.stack@.len(),
        ensures
            path_at(self.root@, fs, self.recurse, self.position().take(n as int)) == if n == 0 {
                self.root@
            } else {
                self.stack@[n - 1].awaits()
            },
        decreases n,
    {
        if n > 0 {
            self.lemma_awaited_upto(fs, (n - 1) as nat);
            let pos = self.position().take(n as int);
            let frame = self.stack@[n - 1];
            assert(pos.drop_last() =~= self.position().take(n - 1));
            assert(pos.last() == frame.counts());
            assert(frame.sound(fs, self.recurse));
            assert(frame.open());
            assert(paths_view(frame.pending@)[frame.node.children().len() as int]
                == frame.awaits());
        }
    }

    /// The scanner is idle exactly where no directory is half scanned.
    pub proof fn lemma_idle_at_empty_position(self)
        ensures
            self.idle() <==> self.position().len() == 0,
    {
    }

    /// The scanner asks only for directories that a listing held and that are
    /// not hidden: while a scan is under way, the awaited path is that of a
    /// directory entry of some listing, and the scan goes down into that
    /// entry.
    pub proof fn lemma_awaited_was_listed(self, fs: spec_fn(Seq<char>) -> Seq<Entry>)
        requires
            self.well_formed(),
            self.consistent(fs),
            !self.idle(),
        ensures
            exists|p: Seq<char>, i: int|
                0 <= i < fs(p).len() && descends(#[trigger] fs(p)[i], self.recurse())
                    && self.awaited() == joined(p, fs(p)[i]->Dir_name@),
    {
        let top = self.stack@.last();
        let p = top.node.path@;
        let k = top.node.children().len() as int;
        assert(top.sound(fs, self.recurse));
        assert(top.open());
        assert(paths_view(top.pending@)[k] == top.pending@[k]@);
        lemma_subdirs_are_listed(p, fs(p), self.recurse, k);
        let i = choose|i: int|
            0 <= i < fs(p).len() && descends(#[trigger] fs(p)[i], self.recurse) && subdirs(
                p,
                fs(p),
                self.recurse,
            )[k] == joined(p, fs(p)[i]->Dir_name@);
        assert(descends(fs(p)[i], self.recurse()));
    }

    /// A scan that leaves subdirectories alone is over with the first
    /// listing: its scanner never waits for a subdirectory.
    pub proof fn lemma_flat_scanner_is_idle(self, fs: spec_fn(Seq<char>) -> Seq<Entry>)
        requires
            self.well_formed(),
            self.consistent(fs),
            !self.recurse(),
        ensures
            self.idle(),
    {
        if self.stack@.len() > 0 {
            let top = self.stack@.last();
            assert(top.sound(fs, false));
            assert(top.open());
            lemma_flat_scan_has_no_subdirs(top.node.path@, fs(top.node.path@));
            assert(paths_view(top.pending@).len() == top.pending@.len());
        }
    }
}

/// The tree of a scan that leaves subdirectories alone has no subdirectories,
/// whatever the listing of its directory holds.
pub proof fn lemma_flat_tree_has_no_children(dir: Directory, fs: spec_fn(Seq<char>) -> Seq<Entry>)
    requires
        scanned_from(dir, fs, false),
    ensures
        dir.directories is None,
{
    lemma_flat_scan_has_no_subdirs(dir.path@, fs(dir.path@));
}

/// The subdirectories of a scanned tree are directories of its listing that
/// are not hidden: a hidden directory is no part of the tree.
pub proof fn lemma_children_were_listed(
    dir: Directory,
    fs: spec_fn(Seq<char>) -> Seq<Entry>,
    recurse: bool,
    k: int,
)
    requires
        scanned_from(dir, fs, recurse),
        0 <= k < dir.children().len(),
    ensures
        scanned_from(dir.children()[k], fs, recurse),
        exists|i: int|
            0 <= i < fs(dir.path@).len() && descends(#[trigger] fs(dir.path@)[i], recurse)
                && dir.children()[k].path@ == joined(dir.path@, fs(dir.path@)[i]->Dir_name@),
{
    let entries = fs(dir.path@);
    assert(dir.children()[k] == dir.directories->0[k]);
    lemma_subdirs_are_listed(dir.path@, entries, recurse, k);
    let i = choose|i: int|
        0 <= i < entries.len() && descends(#[trigger] entries[i], recurse) && subdirs(
            dir.path@,
            entries,
            recurse,
        )[k] == joined(dir.path@, entries[i]->Dir_name@);
    assert(descends(fs(dir.path@)[i], recurse));
}

} // verus!
