//! Reorganizing: the directories to make and the files to move, in order, for
//! a scanned tree and the root under which the type folders stand.

use crate::names::join;
use crate::names::joined;
use crate::names::lemma_joined_injective;
use crate::tree::Directory;
use crate::tree::File;
use vstd::prelude::*;

verus! {

/// One change to the filesystem.
#[derive(Debug, PartialEq, Eq)]
pub enum Step {
    /// See to it that the directory `path` is there.
    EnsureDir { path: String },
    /// Move the file at `from` to `to`.
    Move { from: String, to: String },
}

/// What a `Step` holds, as plain values.
pub enum StepView {
    EnsureDir { path: Seq<char> },
    Move { from: Seq<char>, to: Seq<char> },
}

impl View for Step {
    type V = StepView;

    open spec fn view(&self) -> StepView {
        match self {
            Step::EnsureDir { path } => StepView::EnsureDir { path: path@ },
            Step::Move { from, to } => StepView::Move { from: from@, to: to@ },
        }
    }
}

/// The steps of a list, as plain values.
pub open spec fn steps_view(steps: Seq<Step>) -> Seq<StepView> {
    steps.map_values(|s: Step| s@)
}

/// A file before `files[i]` has the type of `files[i]`.
pub open spec fn type_seen(files: Seq<File>, i: int) -> bool {
    exists|j: int| 0 <= j < i && #[trigger] files[j].filetype@ == files[i].filetype@
}

/// The step that sees to the type folder of `file` under `root`.
pub open spec fn folder_of(root: Seq<char>, file: File) -> StepView {
    StepView::EnsureDir { path: joined(root, file.filetype@) }
}

/// Where the file `name` of type `filetype` comes to stand under `root`.
pub open spec fn filed_path(root: Seq<char>, filetype: Seq<char>, name: Seq<char>) -> Seq<char> {
    joined(joined(root, filetype), name)
}

/// The step that moves `file` out of the directory `path` into its type
/// folder under `root`.
pub open spec fn move_of(path: Seq<char>, root: Seq<char>, file: File) -> StepView {
    StepView::Move {
        from: joined(path, file.name@),
        to: filed_path(root, file.filetype@, file.name@),
    }
}

/// The steps for the first `n` files of the directory `path`: each file is
/// moved into the folder of its type, and the folder is seen to just before
/// the first file of that type.
pub open spec fn own_steps_upto(path: Seq<char>, root: Seq<char>, files: Seq<File>, n: nat) -> Seq<
    StepView,
>
    decreases n,
{
    if n == 0 || n > files.len() {
        Seq::empty()
    } else {
        let before = own_steps_upto(path, root, files, (n - 1) as nat);
        let file = files[n - 1];
        if type_seen(files, n - 1) {
            before.push(move_of(path, root, file))
        } else {
            before.push(folder_of(root, file)).push(move_of(path, root, file))
        }
    }
}

/// The steps for the files directly in the directory `path`.
pub open spec fn own_steps(path: Seq<char>, root: Seq<char>, files: Seq<File>) -> Seq<StepView> {
    own_steps_upto(path, root, files, files.len())
}

/// The steps for the files of `dir` itself, followed by those for the trees
/// of its first `n` subdirectories, each tree in turn.
pub open spec fn plan_upto(dir: Directory, root: Seq<char>, n: nat) -> Seq<StepView>
    decreases dir, n,
{
    match dir.directories {
        Some(list) => if 0 < n <= list.len() {
            let child = list[n - 1];
            plan_upto(dir, root, (n - 1) as nat) + plan_upto(child, root, child.children().len())
        } else {
            own_steps(dir.path@, root, dir.files@)
        },
        None => own_steps(dir.path@, root, dir.files@),
    }
}

/// The steps that reorganize the whole tree of `dir` under `root`.
pub open spec fn plan(dir: Directory, root: Seq<char>) -> Seq<StepView> {
    plan_upto(dir, root, dir.children().len())
}

/// `node` is a directory of the tree of `dir`: `dir` itself, or a directory of
/// the tree of one of its subdirectories.
pub open spec fn within(dir: Directory, node: Directory) -> bool
    decreases dir,
{
    node == dir || match dir.directories {
        Some(list) => exists|k: int| 0 <= k < list.len() && within(#[trigger] list[k], node),
        None => false,
    }
}

/// The step is for the file `file` found in the directory `path`: it moves
/// the file, or sees to the folder that the file goes to.
pub open spec fn step_for(path: Seq<char>, root: Seq<char>, file: File, step: StepView) -> bool {
    step == move_of(path, root, file) || step == folder_of(root, file)
}

/// The step is for some file of the tree of `dir`.
pub open spec fn for_a_file(dir: Directory, root: Seq<char>, step: StepView) -> bool {
    exists|node: Directory, i: int|
        within(dir, node) && 0 <= i < node.files@.len() && step_for(
            node.path@,
            root,
            #[trigger] node.files@[i],
            step,
        )
}

/// `first` stands somewhere before `second` in `steps`.
pub open spec fn stands_before(steps: Seq<StepView>, first: StepView, second: StepView) -> bool {
    exists|q: int, p: int|
        0 <= q < p < steps.len() && #[trigger] steps[q] == first && #[trigger] steps[p] == second
}

/// The step names a place directly under `root` (a type folder), or moves a
/// file into such a folder.
pub open spec fn lands_under(root: Seq<char>, step: StepView) -> bool {
    match step {
        StepView::EnsureDir { path } => exists|t: Seq<char>| path == joined(root, t),
        StepView::Move { from, to } => exists|t: Seq<char>, name: Seq<char>|
            to == #[trigger] filed_path(root, t, name),
    }
}

impl Step {
    /// Whether the step has a directory to create, given whether its
    /// directory is there already: a directory that exists is left as it is.
    pub fn must_create(&self, exists: bool) -> (r: bool)
        ensures
            r == (self is EnsureDir && !exists),
    {
        match self {
            Step::EnsureDir { .. } => !exists,
            Step::Move { .. } => false,
        }
    }
}

/// Tells whether a file before `files[i]` has the type of `files[i]`.
fn seen_before(files: &Vec<File>, i: usize) -> (r: bool)
    requires
        i < files.len(),
    ensures
        r == type_seen(files@, i as int),
{
    let mut j: usize = 0;
    while j < i
        invariant
            j <= i < files.len(),
            forall|k: int| 0 <= k < j ==> files@[k].filetype@ != files@[i as int].filetype@,
        decreases i - j,
    {
        if files[j].filetype == files[i].filetype {
            return true;
        }
        j += 1;
    }
    false
}

impl Directory {
    /// Plans the steps for the files directly in this directory.
    pub fn own_steps(&self, root_dir: &str) -> (steps: Vec<Step>)
        ensures
            steps_view(steps@) == own_steps(self.path@, root_dir@, self.files@),
    {
        let mut steps: Vec<Step> = Vec::new();
        let mut i: usize = 0;
        while i < self.files.len()
            invariant
                i <= self.files.len(),
                steps_view(steps@) =~= own_steps_upto(
                    self.path@,
                    root_dir@,
                    self.files@,
                    i as nat,
                ),
            decreases self.files.len() - i,
        {
            let file = &self.files[i];
            let folder = join(root_dir, file.filetype.as_str());
            let target = join(folder.as_str(), file.name.as_str());
            if !seen_before(&self.files, i) {
                steps.push(Step::EnsureDir { path: folder });
            }
            steps.push(
                Step::Move { from: join(self.path.as_str(), file.name.as_str()), to: target },
            );
            i += 1;
        }
        steps
    }

    /// Plans the reorganizing of the whole tree: for this directory, then for
    /// each subdirectory's tree in turn, a type folder directly under
    /// `root_dir` is seen to before the first file of a type, and every file
    /// is moved into the folder of its type.
    pub fn create_directories(&self, root_dir: &str) -> (steps: Vec<Step>)
        ensures
            steps_view(steps@) == plan(*self, root_dir@),
        decreases self,
    {
        let mut steps = self.own_steps(root_dir);
        if let Some(list) = &self.directories {
            let mut i: usize = 0;
            while i < list.len()
                invariant
                    i <= list.len(),
                    self.directories == Some(*list),
                    steps_view(steps@) =~= plan_upto(*self, root_dir@, i as nat),
                decreases list.len() - i,
            {
                let mut more = list[i].create_directories(root_dir);
                steps.append(&mut more);
                i += 1;
            }
        }
        steps
    }
}

/// Every file directly in a directory is moved into the folder of its type
/// under the root.
pub proof fn lemma_own_file_is_moved(path: Seq<char>, root: Seq<char>, files: Seq<File>, i: int)
    requires
        0 <= i < files.len(),
    ensures
        own_steps(path, root, files).contains(move_of(path, root, files[i])),
{
    lemma_folder_before_move(path, root, files, i);
}

/// Before a file is moved, the folder of its type was seen to: among the
/// steps for one directory, the move of each file stands behind the step that
/// sees to the folder it goes to.
pub proof fn lemma_folder_before_move(path: Seq<char>, root: Seq<char>, files: Seq<File>, i: int)
    requires
        0 <= i < files.len(),
    ensures
        stands_before(
            own_steps(path, root, files),
            folder_of(root, files[i]),
            move_of(path, root, files[i]),
        ),
{
    lemma_folder_before_move_upto(path, root, files, i, files.len());
}

proof fn lemma_folder_before_move_upto(
    path: Seq<char>,
    root: Seq<char>,
    files: Seq<File>,
    i: int,
    n: nat,
)
    requires
        0 <= i < n <= files.len(),
    ensures
        stands_before(
            own_steps_upto(path, root, files, n),
            folder_of(root, files[i]),
            move_of(path, root, files[i]),
        ),
    decreases n,
{
    let all = own_steps_upto(path, root, files, n);
    let before = own_steps_upto(path, root, files, (n - 1) as nat);
    if i < n - 1 {
        lemma_folder_before_move_upto(path, root, files, i, (n - 1) as nat);
        let (q, p) = choose|q: int, p: int|
            0 <= q < p < before.len() && #[trigger] before[q] == folder_of(root, files[i])
                && #[trigger] before[p] == move_of(path, root, files[i]);
        assert(all[q] == before[q]);
        assert(all[p] == before[p]);
    } else if type_seen(files, i) {
        let j = choose|j: int| 0 <= j < i && #[trigger] files[j].filetype@ == files[i].filetype@;
        lemma_folder_before_move_upto(path, root, files, j, (n - 1) as nat);
        let (q, p) = choose|q: int, p: int|
            0 <= q < p < before.len() && #[trigger] before[q] == folder_of(root, files[j])
                && #[trigger] before[p] == move_of(path, root, files[j]);
        assert(all[q] == folder_of(root, files[i]));
        assert(all[all.len() - 1] == move_of(path, root, files[i]));
    } else {
        assert(all[all.len() - 2] == folder_of(root, files[i]));
        assert(all[all.len() - 1] == move_of(path, root, files[i]));
    }
}

/// The plan of a tree holds the steps for the files of its top directory.
pub proof fn lemma_plan_holds_own_steps(dir: Directory, root: Seq<char>, step: StepView)
    requires
        own_steps(dir.path@, root, dir.files@).contains(step),
    ensures
        plan(dir, root).contains(step),
{
    lemma_plan_upto_holds_own_steps(dir, root, dir.children().len(), step);
}

proof fn lemma_plan_upto_holds_own_steps(dir: Directory, root: Seq<char>, n: nat, step: StepView)
    requires
        own_steps(dir.path@, root, dir.files@).contains(step),
    ensures
        plan_upto(dir, root, n).contains(step),
    decreases n,
{
    if 0 < n <= dir.children().len() {
        lemma_plan_upto_holds_own_steps(dir, root, (n - 1) as nat, step);
        let before = plan_upto(dir, root, (n - 1) as nat);
        let k = choose|k: int| 0 <= k < before.len() && before[k] == step;
        assert(plan_upto(dir, root, n)[k] == step);
    }
}

/// The plan of a tree holds the plan of each subdirectory's tree: a file is
/// moved however deep it was found.
pub proof fn lemma_plan_holds_child_plans(dir: Directory, root: Seq<char>, k: int, step: StepView)
    requires
        0 <= k < dir.children().len(),
        plan(dir.children()[k], root).contains(step),
    ensures
        plan(dir, root).contains(step),
{
    lemma_plan_upto_holds_child_plans(dir, root, k, step, dir.children().len());
}

proof fn lemma_plan_upto_holds_child_plans(
    dir: Directory,
    root: Seq<char>,
    k: int,
    step: StepView,
    n: nat,
)
    requires
        0 <= k < n <= dir.children().len(),
        plan(dir.children()[k], root).contains(step),
    ensures
        plan_upto(dir, root, n).contains(step),
    decreases n,
{
    let before = plan_upto(dir, root, (n - 1) as nat);
    let all = plan_upto(dir, root, n);
    if k == n - 1 {
        let sub = plan(dir.children()[k], root);
        let j = choose|j: int| 0 <= j < sub.len() && sub[j] == step;
        assert(all[before.len() + j] == step);
    } else {
        lemma_plan_upto_holds_child_plans(dir, root, k, step, (n - 1) as nat);
        let j = choose|j: int| 0 <= j < before.len() && before[j] == step;
        assert(all[j] == step);
    }
}

/// Every step of a plan stays directly under the root: it sees to a folder
/// that stands in the root, or moves a file into such a folder, never into a
/// folder of the directory that the file was found in.
pub proof fn lemma_plan_lands_under_root(dir: Directory, root: Seq<char>, step: StepView)
    requires
        plan(dir, root).contains(step),
    ensures
        lands_under(root, step),
{
    lemma_plan_upto_lands_under_root(dir, root, dir.children().len(), step);
}

proof fn lemma_own_steps_land_under_root(
    path: Seq<char>,
    root: Seq<char>,
    files: Seq<File>,
    n: nat,
    step: StepView,
)
    requires
        own_steps_upto(path, root, files, n).contains(step),
    ensures
        lands_under(root, step),
    decreases n,
{
    let all = own_steps_upto(path, root, files, n);
    let k = choose|k: int| 0 <= k < all.len() && all[k] == step;
    if 0 < n <= files.len() {
        let before = own_steps_upto(path, root, files, (n - 1) as nat);
        let file = files[n - 1];
        if k < before.len() {
            assert(before[k] == step);
            lemma_own_steps_land_under_root(path, root, files, (n - 1) as nat, step);
        } else if step == folder_of(root, file) {
            assert(step->EnsureDir_path == joined(root, file.filetype@));
        } else {
            assert(step == move_of(path, root, file));
            assert(step->Move_to == filed_path(root, file.filetype@, file.name@));
        }
    }
}

proof fn lemma_plan_upto_lands_under_root(dir: Directory, root: Seq<char>, n: nat, step: StepView)
    requires
        plan_upto(dir, root, n).contains(step),
    ensures
        lands_under(root, step),
    decreases dir, n,
{
    let all = plan_upto(dir, root, n);
    let k = choose|k: int| 0 <= k < all.len() && all[k] == step;
    match dir.directories {
        Some(list) => {
            if 0 < n <= list.len() {
                let child = list[n - 1];
                let before = plan_upto(dir, root, (n - 1) as nat);
                let sub = plan_upto(child, root, child.children().len());
                if k < before.len() {
                    assert(before[k] == step);
                    lemma_plan_upto_lands_under_root(dir, root, (n - 1) as nat, step);
                } else {
                    assert(sub[k - before.len()] == step);
                    lemma_plan_upto_lands_under_root(child, root, child.children().len(), step);
                }
            } else {
                lemma_own_steps_land_under_root(
                    dir.path@,
                    root,
                    dir.files@,
                    dir.files@.len(),
                    step,
                );
            }
        },
        None => {
            lemma_own_steps_land_under_root(dir.path@, root, dir.files@, dir.files@.len(), step);
        },
    }
}

/// Among the steps for one directory, no folder is seen to twice: two steps
/// that see to a folder name different folders.
pub proof fn lemma_folder_seen_to_once(
    path: Seq<char>,
    root: Seq<char>,
    files: Seq<File>,
    q1: int,
    q2: int,
)
    requires
        0 <= q1 < q2 < own_steps(path, root, files).len(),
        own_steps(path, root, files)[q1] is EnsureDir,
        own_steps(path, root, files)[q2] is EnsureDir,
    ensures
        own_steps(path, root, files)[q1] != own_steps(path, root, files)[q2],
{
    lemma_folder_seen_to_once_upto(path, root, files, files.len(), q1, q2);
}

proof fn lemma_folders_are_of_files(
    path: Seq<char>,
    root: Seq<char>,
    files: Seq<File>,
    n: nat,
    q: int,
)
    requires
        n <= files.len(),
        0 <= q < own_steps_upto(path, root, files, n).len(),
        own_steps_upto(path, root, files, n)[q] is EnsureDir,
    ensures
        exists|j: int|
            0 <= j < n && own_steps_upto(path, root, files, n)[q] == folder_of(
                root,
                #[trigger] files[j],
            ),
    decreases n,
{
    let before = own_steps_upto(path, root, files, (n - 1) as nat);
    if q < before.len() {
        assert(own_steps_upto(path, root, files, n)[q] == before[q]);
        lemma_folders_are_of_files(path, root, files, (n - 1) as nat, q);
        let j = choose|j: int|
            0 <= j < n - 1 && before[q] == folder_of(root, #[trigger] files[j]);
        assert(own_steps_upto(path, root, files, n)[q] == folder_of(root, files[j]));
    } else {
        assert(own_steps_upto(path, root, files, n)[q] == folder_of(root, files[n - 1]));
    }
}

proof fn lemma_folder_seen_to_once_upto(
    path: Seq<char>,
    root: Seq<char>,
    files: Seq<File>,
    n: nat,
    q1: int,
    q2: int,
)
    requires
        n <= files.len(),
        0 <= q1 < q2 < own_steps_upto(path, root, files, n).len(),
        own_steps_upto(path, root, files, n)[q1] is EnsureDir,
        own_steps_upto(path, root, files, n)[q2] is EnsureDir,
    ensures
        own_steps_upto(path, root, files, n)[q1] != own_steps_upto(path, root, files, n)[q2],
    decreases n,
{
    let all = own_steps_upto(path, root, files, n);
    let before = own_steps_upto(path, root, files, (n - 1) as nat);
    if q2 < before.len() {
        assert(all[q1] == before[q1]);
        assert(all[q2] == before[q2]);
        lemma_folder_seen_to_once_upto(path, root, files, (n - 1) as nat, q1, q2);
    } else {
        let file = files[n - 1];
        assert(all[q2] == folder_of(root, file));
        assert(!type_seen(files, n - 1));
        assert(all[q1] == before[q1]);
        lemma_folders_are_of_files(path, root, files, (n - 1) as nat, q1);
        let j = choose|j: int|
            0 <= j < n - 1 && before[q1] == folder_of(root, #[trigger] files[j]);
        if all[q1] == all[q2] {
            lemma_joined_injective(root, files[j].filetype@, file.filetype@);
            assert(files[j].filetype@ == files[n - 1].filetype@);
        }
    }
}

/// Every file of a tree is moved into the folder of its type directly under
/// the root, however deep the directory that holds it.
pub proof fn lemma_every_file_is_moved(dir: Directory, root: Seq<char>, node: Directory, i: int)
    requires
        within(dir, node),
        0 <= i < node.files@.len(),
    ensures
        plan(dir, root).contains(move_of(node.path@, root, node.files@[i])),
    decreases dir,
{
    let step = move_of(node.path@, root, node.files@[i]);
    if node == dir {
        lemma_own_file_is_moved(dir.path@, root, dir.files@, i);
        lemma_plan_holds_own_steps(dir, root, step);
    } else {
        let list = dir.directories->0;
        let k = choose|k: int| 0 <= k < list.len() && within(#[trigger] list[k], node);
        lemma_every_file_is_moved(list[k], root, node, i);
        assert(dir.children()[k] == list[k]);
        lemma_plan_holds_child_plans(dir, root, k, step);
    }
}

/// A plan touches nothing but the files of its tree: every step moves a file
/// that a directory of the tree holds, out of that directory, or sees to the
/// folder that such a file goes to. What no scan has found is left alone.
pub proof fn lemma_steps_are_for_files(dir: Directory, root: Seq<char>, step: StepView)
    requires
        plan(dir, root).contains(step),
    ensures
        for_a_file(dir, root, step),
{
    lemma_plan_upto_is_for_files(dir, root, dir.children().len(), step);
}

proof fn lemma_own_steps_are_for_files(
    path: Seq<char>,
    root: Seq<char>,
    files: Seq<File>,
    n: nat,
    step: StepView,
)
    requires
        own_steps_upto(path, root, files, n).contains(step),
    ensures
        exists|i: int| 0 <= i < files.len() && step_for(path, root, #[trigger] files[i], step),
    decreases n,
{
    let all = own_steps_upto(path, root, files, n);
    let k = choose|k: int| 0 <= k < all.len() && all[k] == step;
    if 0 < n <= files.len() {
        let before = own_steps_upto(path, root, files, (n - 1) as nat);
        if k < before.len() {
            assert(before[k] == step);
            lemma_own_steps_are_for_files(path, root, files, (n - 1) as nat, step);
        } else {
            assert(step_for(path, root, files[n - 1], step));
        }
    }
}

proof fn lemma_plan_upto_is_for_files(dir: Directory, root: Seq<char>, n: nat, step: StepView)
    requires
        plan_upto(dir, root, n).contains(step),
    ensures
        for_a_file(dir, root, step),
    decreases dir, n,
{
    let all = plan_upto(dir, root, n);
    let k = choose|k: int| 0 <= k < all.len() && all[k] == step;
    if dir.directories is Some && 0 < n <= dir.directories->0.len() {
        let list = dir.directories->0;
        let child = list[n - 1];
        let before = plan_upto(dir, root, (n - 1) as nat);
        let sub = plan_upto(child, root, child.children().len());
        if k < before.len() {
            assert(before[k] == step);
            lemma_plan_upto_is_for_files(dir, root, (n - 1) as nat, step);
        } else {
            assert(sub[k - before.len()] == step);
            lemma_plan_upto_is_for_files(child, root, child.children().len(), step);
            let (node, i) = choose|node: Directory, i: int|
                within(child, node) && 0 <= i < node.files@.len() && step_for(
                    node.path@,
                    root,
                    #[trigger] node.files@[i],
                    step,
                );
            assert(within(list[n - 1], node));
            assert(within(dir, node));
            assert(step_for(node.path@, root, node.files@[i], step));
        }
    } else {
        lemma_own_steps_are_for_files(dir.path@, root, dir.files@, dir.files@.len(), step);
        let i = choose|i: int|
            0 <= i < dir.files@.len() && step_for(dir.path@, root, #[trigger] dir.files@[i], step);
        assert(within(dir, dir));
        assert(step_for(dir.path@, root, dir.files@[i], step));
    }
}

} // verus!
