//! Project-scoped folder mutation: validating a rename or delete target,
//! locating the enclosing project root, collecting every folder in the
//! project that shares the target's name, and planning the batch of
//! renames with its destination checks.

use vstd::prelude::*;
use crate::paths::{
    clean_segments, clean_segments_exec, clean_spec, find_project_root, is_root_segment, join_all,
    parent_join, root_prefix, seg_is_root_chars, sibling_path, split_path, string_of, strs_view,
};
use crate::tree::{DirEntry, TreeModel};

verus! {

/// A validation failure of a scoped folder operation.
#[derive(Debug)]
pub enum FsError {
    /// The target's name matches the project-root pattern; roots are
    /// never renamed or deleted.
    ProtectedRoot,
    /// A rename target directly contains at least one file.
    ContainsFiles,
    /// No ancestor of the target matches the project-root pattern.
    RootNotFound,
    /// The path has no usable final segment.
    InvalidPath,
    /// A rename destination already exists; the path is carried along.
    DestinationExists(String),
}

impl FsError {
    /// The human-readable message of this error.
    pub fn message(&self) -> (r: String)
        ensures
            match self {
                FsError::ProtectedRoot => r@ == "Cannot modify project root folder"@,
                FsError::ContainsFiles => r@
                    == "Folder contains files. Please ensure folder is empty before renaming."@,
                FsError::RootNotFound => r@ == "Could not find project root"@,
                FsError::InvalidPath => r@ == "Could not get folder name"@,
                FsError::DestinationExists(d) => r@ == "Destination already exists: "@ + d@,
            },
    {
        match self {
            FsError::ProtectedRoot => String::from_str("Cannot modify project root folder"),
            FsError::ContainsFiles => String::from_str(
                "Folder contains files. Please ensure folder is empty before renaming.",
            ),
            FsError::RootNotFound => String::from_str("Could not find project root"),
            FsError::InvalidPath => String::from_str("Could not get folder name"),
            FsError::DestinationExists(d) => String::from_str("Destination already exists: ").concat(
                d.as_str(),
            ),
        }
    }
}

/// A validated mutation target: the cleaned path and its final segment.
pub struct MutationTarget {
    pub cleaned: String,
    pub target_name: String,
}

/// A cleaned path is a usable mutation target when it has a final segment
/// and that segment does not match the project-root pattern.
pub open spec fn mutation_target_ok(path: Seq<char>) -> bool {
    clean_segments(path).len() > 0 && !is_root_segment(clean_segments(path).last())
}

/// Cleans a rename or delete target path and applies the safety check
/// shared by both operations: an empty path is rejected, and so is any
/// path whose final segment matches the project-root pattern.
pub fn validate_mutation_target(path: &str) -> (r: Result<MutationTarget, FsError>)
    ensures
        r is Ok <==> mutation_target_ok(path@),
        r is Ok ==> r->Ok_0.cleaned@ == clean_spec(path@) && r->Ok_0.target_name@ == clean_segments(
            path@,
        ).last(),
        r is Err ==> (r->Err_0 is InvalidPath <==> clean_segments(path@).len() == 0),
        r is Err ==> (r->Err_0 is ProtectedRoot <==> clean_segments(path@).len() > 0
            && is_root_segment(clean_segments(path@).last())),
{
    let segs = clean_segments_exec(path);
    if segs.len() == 0 {
        return Err(FsError::InvalidPath);
    }
    proof {
        assert(clean_segments(path@).last() == segs@[segs@.len() - 1]@);
    }
    if seg_is_root_chars(&segs[segs.len() - 1]) {
        return Err(FsError::ProtectedRoot);
    }
    let target_name = string_of(&segs[segs.len() - 1]);
    let j = join_all(&segs);
    let cleaned = string_of(&j);
    Ok(MutationTarget { cleaned, target_name })
}

/// Rejects a rename whose target directly contains a file: renames are
/// permitted only on folders holding exclusively subdirectories.
pub fn ensure_renameable(entries: &Vec<DirEntry>) -> (r: Result<(), FsError>)
    ensures
        r is Ok <==> (forall|i: int| 0 <= i < entries@.len() ==> entries@[i].is_directory),
        r is Err ==> r->Err_0 is ContainsFiles,
{
    let mut i: usize = 0;
    while i < entries.len()
        invariant
            i <= entries@.len(),
            forall|j: int| 0 <= j < i ==> entries@[j].is_directory,
        decreases entries@.len() - i,
    {
        if !entries[i].is_directory {
            return Err(FsError::ContainsFiles);
        }
        i += 1;
    }
    Ok(())
}

/// Finds the nearest enclosing project root of a cleaned path, failing
/// when no path segment matches the root pattern.
pub fn locate_project_root(cleaned: &str) -> (r: Result<String, FsError>)
    ensures
        r is Ok <==> root_prefix(split_path(cleaned@)) is Some,
        r is Ok ==> root_prefix(split_path(cleaned@)) == Some(r->Ok_0@),
        r is Err ==> r->Err_0 is RootNotFound,
{
    match find_project_root(cleaned) {
        Some(p) => Ok(p),
        None => Err(FsError::RootNotFound),
    }
}

/// The paths of the directories named `target` in a node's subtree, the
/// node itself included, in depth-first order with each directory listed
/// before its descendants.
pub open spec fn matches_in_node(t: TreeModel, target: Seq<char>) -> Seq<Seq<char>>
    decreases t, 1int,
{
    if t.is_directory {
        (if t.name == target {
            seq![t.path]
        } else {
            seq![]
        }) + matches_in_children(t.children, target)
    } else {
        Seq::empty()
    }
}

/// The matches of every tree of a child list, in list order.
pub open spec fn matches_in_children(s: Seq<TreeModel>, target: Seq<char>) -> Seq<Seq<char>>
    decreases s, 0int,
{
    if s.len() == 0 {
        Seq::empty()
    } else {
        matches_in_node(s.first(), target) + matches_in_children(s.drop_first(), target)
    }
}

/// The match list of a whole snapshot: the root's children are searched
/// (at every depth), the root itself is never a match.
pub open spec fn matches_spec(root: TreeModel, target: Seq<char>) -> Seq<Seq<char>> {
    if root.is_directory {
        matches_in_children(root.children, target)
    } else {
        Seq::empty()
    }
}

/// Whether two strings hold the same characters.
fn str_eq(a: &str, b: &str) -> (r: bool)
    ensures
        r == (a@ == b@),
{
    let an = a.unicode_len();
    let bn = b.unicode_len();
    if an != bn {
        return false;
    }
    let mut i: usize = 0;
    while i < an
        invariant
            i <= an,
            an == a@.len(),
            an == b@.len(),
            forall|j: int| 0 <= j < i ==> a@[j] == b@[j],
        decreases an - i,
    {
        if a.get_char(i) != b.get_char(i) {
            return false;
        }
        i += 1;
    }
    proof {
        assert(a@ =~= b@);
    }
    true
}

fn collect_matches(n: &DirEntry, target: &str, out: &mut Vec<String>)
    ensures
        strs_view(final(out)@) == strs_view(old(out)@) + matches_in_node(n.model(), target@),
    decreases *n,
{
    if !n.is_directory {
        proof {
            assert(strs_view(out@) + Seq::<Seq<char>>::empty() =~= strs_view(out@));
        }
        return ;
    }
    if str_eq(n.name.as_str(), target) {
        out.push(n.path.clone());
    }
    let ghost base = strs_view(out@);
    let ghost ms = n.model().children;
    proof {
        crate::tree::lemma_model_children(*n);
        assert(ms.skip(0) =~= ms);
    }
    let mut i: usize = 0;
    while i < n.children.len()
        invariant
            i <= n.children@.len(),
            n.model().children == ms,
            ms == crate::tree::models_of(n.children@),
            strs_view(out@) + matches_in_children(ms.skip(i as int), target@) == base
                + matches_in_children(ms, target@),
        decreases n.children@.len() - i,
    {
        let ghost pre = strs_view(out@);
        let c = &n.children[i];
        proof {
            assert(ms.skip(i as int).first() == ms[i as int]);
            assert(ms[i as int] == n.children@[i as int].model());
            assert(ms.skip(i as int).drop_first() =~= ms.skip(i + 1));
        }
        collect_matches(c, target, out);
        proof {
            assert(strs_view(out@) =~= pre + matches_in_node(ms[i as int], target@));
            assert((pre + matches_in_node(ms[i as int], target@)) + matches_in_children(
                ms.skip(i + 1),
                target@,
            ) =~= pre + (matches_in_node(ms[i as int], target@) + matches_in_children(
                ms.skip(i + 1),
                target@,
            )));
        }
        i += 1;
    }
    proof {
        assert(ms.skip(ms.len() as int) =~= Seq::<TreeModel>::empty());
        assert(strs_view(out@) + Seq::<Seq<char>>::empty() =~= strs_view(out@));
        let head: Seq<Seq<char>> = if n.model().name == target@ {
            seq![n.model().path]
        } else {
            seq![]
        };
        assert(base =~= strs_view(old(out)@) + head);
        assert((strs_view(old(out)@) + head) + matches_in_children(ms, target@) =~= strs_view(
            old(out)@,
        ) + (head + matches_in_children(ms, target@)));
    }
}

/// Collects the path of every directory under `root` (at any depth)
/// whose name equals `target_name`, in depth-first order; the root
/// itself is not considered.
pub fn find_matching_folders(root: &DirEntry, target_name: &str) -> (r: Vec<String>)
    ensures
        strs_view(r@) == matches_spec(root.model(), target_name@),
{
    let mut out: Vec<String> = Vec::new();
    proof {
        assert(strs_view(out@) =~= Seq::<Seq<char>>::empty());
    }
    if !root.is_directory {
        return out;
    }
    let ghost ms = root.model().children;
    proof {
        crate::tree::lemma_model_children(*root);
        assert(ms.skip(0) =~= ms);
    }
    let mut i: usize = 0;
    while i < root.children.len()
        invariant
            i <= root.children@.len(),
            root.model().children == ms,
            ms == crate::tree::models_of(root.children@),
            strs_view(out@) + matches_in_children(ms.skip(i as int), target_name@)
                == matches_in_children(ms, target_name@),
        decreases root.children@.len() - i,
    {
        let ghost pre = strs_view(out@);
        let c = &root.children[i];
        proof {
            assert(ms.skip(i as int).first() == ms[i as int]);
            assert(ms[i as int] == root.children@[i as int].model());
            assert(ms.skip(i as int).drop_first() =~= ms.skip(i + 1));
        }
        collect_matches(c, target_name, &mut out);
        proof {
            assert(strs_view(out@) =~= pre + matches_in_node(ms[i as int], target_name@));
            assert((pre + matches_in_node(ms[i as int], target_name@)) + matches_in_children(
                ms.skip(i + 1),
                target_name@,
            ) =~= pre + (matches_in_node(ms[i as int], target_name@) + matches_in_children(
                ms.skip(i + 1),
                target_name@,
            )));
        }
        i += 1;
    }
    proof {
        assert(ms.skip(ms.len() as int) =~= Seq::<TreeModel>::empty());
        assert(strs_view(out@) + Seq::<Seq<char>>::empty() =~= strs_view(out@));
    }
    out
}

/// Whether some node of the tree (the root included, files included)
/// carries exactly the path `p`.
pub open spec fn node_has_path(t: TreeModel, p: Seq<char>) -> bool
    decreases t, 1int,
{
    t.path == p || children_have_path(t.children, p)
}

/// Whether some node of some tree of the list carries the path `p`.
pub open spec fn children_have_path(s: Seq<TreeModel>, p: Seq<char>) -> bool
    decreases s, 0int,
{
    s.len() > 0 && (node_has_path(s.first(), p) || children_have_path(s.drop_first(), p))
}

proof fn lemma_children_have_path_iff(s: Seq<TreeModel>, p: Seq<char>)
    ensures
        children_have_path(s, p) <==> exists|i: int|
            0 <= i < s.len() && node_has_path(#[trigger] s[i], p),
    decreases s.len(),
{
    if s.len() > 0 {
        lemma_children_have_path_iff(s.drop_first(), p);
        if children_have_path(s, p) {
            if node_has_path(s.first(), p) {
                assert(node_has_path(s[0], p));
            } else {
                let i = choose|i: int|
                    0 <= i < s.drop_first().len() && node_has_path(#[trigger] s.drop_first()[i], p);
                assert(s.drop_first()[i] == s[i + 1]);
                assert(node_has_path(s[i + 1], p));
            }
        }
        if exists|i: int| 0 <= i < s.len() && node_has_path(#[trigger] s[i], p) {
            let i = choose|i: int| 0 <= i < s.len() && node_has_path(#[trigger] s[i], p);
            if i > 0 {
                assert(s.drop_first()[i - 1] == s[i]);
            }
        }
    }
}

fn has_path(n: &DirEntry, p: &str) -> (r: bool)
    ensures
        r == node_has_path(n.model(), p@),
    decreases *n,
{
    if str_eq(n.path.as_str(), p) {
        return true;
    }
    let ghost ms = n.model().children;
    proof {
        crate::tree::lemma_model_children(*n);
        lemma_children_have_path_iff(ms, p@);
    }
    let mut i: usize = 0;
    while i < n.children.len()
        invariant
            i <= n.children@.len(),
            n.model().children == ms,
            ms == crate::tree::models_of(n.children@),
            forall|j: int| 0 <= j < i ==> !node_has_path(#[trigger] ms[j], p@),
        decreases n.children@.len() - i,
    {
        let c = &n.children[i];
        proof {
            assert(ms[i as int] == n.children@[i as int].model());
        }
        if has_path(c, p) {
            proof {
                lemma_children_have_path_iff(ms, p@);
            }
            return true;
        }
        i += 1;
    }
    proof {
        lemma_children_have_path_iff(ms, p@);
    }
    false
}

/// One step of a rename batch: the folder at `from` is renamed to `to`.
pub struct RenameStep {
    pub from: String,
    pub to: String,
}

/// The views of a step list, as pairs of source and destination paths.
pub open spec fn steps_view(s: Seq<RenameStep>) -> Seq<(Seq<char>, Seq<char>)> {
    Seq::new(s.len(), |i: int| (s[i].from@, s[i].to@))
}

/// A planned rename batch: the renames to perform in order and, when a
/// destination already existed in the snapshot, the conflicting
/// destination at which the batch stops. Steps before the conflict are
/// still listed: the batch applies in order and is not rolled back.
pub struct RenamePlan {
    pub steps: Vec<RenameStep>,
    pub conflict: Option<String>,
}

/// The first `k` planned steps: match `i` renamed to its sibling named
/// `new_name`.
pub open spec fn rename_steps_upto(ms: Seq<Seq<char>>, new_name: Seq<char>, k: int) -> Seq<
    (Seq<char>, Seq<char>),
> {
    Seq::new(k as nat, |i: int| (ms[i], parent_join(ms[i], new_name)))
}

/// The position of the first match whose rename destination already
/// exists somewhere in the snapshot.
pub open spec fn first_conflict(root: TreeModel, ms: Seq<Seq<char>>, new_name: Seq<char>) -> Option<
    int,
>
    decreases ms.len(),
{
    if ms.len() == 0 {
        None
    } else if node_has_path(root, parent_join(ms.first(), new_name)) {
        Some(0)
    } else {
        match first_conflict(root, ms.drop_first(), new_name) {
            None => None,
            Some(j) => Some(j + 1),
        }
    }
}

proof fn lemma_first_conflict_char(root: TreeModel, ms: Seq<Seq<char>>, new_name: Seq<char>)
    ensures
        match first_conflict(root, ms, new_name) {
            None => forall|i: int|
                0 <= i < ms.len() ==> !node_has_path(root, parent_join(#[trigger] ms[i], new_name)),
            Some(k) => 0 <= k < ms.len() && node_has_path(root, parent_join(ms[k], new_name))
                && forall|i: int|
                0 <= i < k ==> !node_has_path(root, parent_join(#[trigger] ms[i], new_name)),
        },
    decreases ms.len(),
{
    if ms.len() == 0 {
    } else if node_has_path(root, parent_join(ms.first(), new_name)) {
    } else {
        lemma_first_conflict_char(root, ms.drop_first(), new_name);
        match first_conflict(root, ms.drop_first(), new_name) {
            None => {
                assert forall|i: int| 0 <= i < ms.len() implies !node_has_path(
                    root,
                    parent_join(#[trigger] ms[i], new_name),
                ) by {
                    if i > 0 {
                        assert(ms.drop_first()[i - 1] == ms[i]);
                    }
                }
            },
            Some(j) => {
                assert(ms.drop_first()[j] == ms[j + 1]);
                assert forall|i: int| 0 <= i < j + 1 implies !node_has_path(
                    root,
                    parent_join(#[trigger] ms[i], new_name),
                ) by {
                    if i > 0 {
                        assert(ms.drop_first()[i - 1] == ms[i]);
                    }
                }
            },
        }
    }
}

/// Plans the scoped rename: every directory under `root` named
/// `target_name` is renamed, in depth-first order, to its sibling named
/// `new_name`; at the first match whose destination already exists in
/// the snapshot, the plan records the conflict and stops, keeping the
/// earlier steps (they are applied and not rolled back).
pub fn plan_rename(root: &DirEntry, target_name: &str, new_name: &str) -> (r: RenamePlan)
    ensures
        ({
            let ms = matches_spec(root.model(), target_name@);
            match first_conflict(root.model(), ms, new_name@) {
                None => r.conflict is None && steps_view(r.steps@) == rename_steps_upto(
                    ms,
                    new_name@,
                    ms.len() as int,
                ),
                Some(k) => (r.conflict matches Some(d) && d@ == parent_join(ms[k], new_name@))
                    && steps_view(r.steps@) == rename_steps_upto(ms, new_name@, k),
            }
        }),
{
    let found = find_matching_folders(root, target_name);
    let ghost ms = matches_spec(root.model(), target_name@);
    proof {
        lemma_first_conflict_char(root.model(), ms, new_name@);
    }
    let mut steps: Vec<RenameStep> = Vec::new();
    let mut i: usize = 0;
    proof {
        assert(steps_view(steps@) =~= rename_steps_upto(ms, new_name@, 0));
    }
    while i < found.len()
        invariant
            i <= found@.len(),
            strs_view(found@) == ms,
            ms == matches_spec(root.model(), target_name@),
            steps_view(steps@) == rename_steps_upto(ms, new_name@, i as int),
            forall|j: int|
                0 <= j < i ==> !node_has_path(root.model(), parent_join(#[trigger] ms[j], new_name@)),
        decreases found@.len() - i,
    {
        let ghost pre = steps@;
        let dest = sibling_path(found[i].as_str(), new_name);
        proof {
            assert(ms[i as int] == found@[i as int]@);
        }
        if has_path(root, dest.as_str()) {
            proof {
                lemma_first_conflict_char(root.model(), ms, new_name@);
            }
            return RenamePlan { steps, conflict: Some(dest) };
        }
        let ghost dest_v = dest@;
        let from = found[i].clone();
        steps.push(RenameStep { from, to: dest });
        proof {
            assert(steps_view(pre).len() == pre.len());
            assert(rename_steps_upto(ms, new_name@, i as int).len() == i);
            assert(pre.len() == i);
            assert(steps@.len() == i + 1);
            assert(steps@[i as int].from@ == ms[i as int]);
            assert(steps@[i as int].to@ == dest_v);
            assert(dest_v == parent_join(ms[i as int], new_name@));
            assert forall|j: int| 0 <= j < i + 1 implies steps_view(steps@)[j]
                == rename_steps_upto(ms, new_name@, i + 1)[j] by {
                assert(steps_view(steps@)[j] == (steps@[j].from@, steps@[j].to@));
                assert(rename_steps_upto(ms, new_name@, i + 1)[j] == (
                    ms[j],
                    parent_join(ms[j], new_name@),
                ));
                if j < i {
                    assert(steps@[j] == pre[j]);
                    assert(steps_view(pre)[j] == (pre[j].from@, pre[j].to@));
                    assert(steps_view(pre)[j] == rename_steps_upto(ms, new_name@, i as int)[j]);
                    assert(rename_steps_upto(ms, new_name@, i as int)[j] == (
                        ms[j],
                        parent_join(ms[j], new_name@),
                    ));
                }
            }
            assert(steps_view(steps@).len() == i + 1);
            assert(steps_view(steps@) =~= rename_steps_upto(ms, new_name@, i + 1));
        }
        i += 1;
    }
    proof {
        lemma_first_conflict_char(root.model(), ms, new_name@);
    }
    RenamePlan { steps, conflict: None }
}

/// Whether some directory named `target` with path `p` stands at any
/// depth within the tree `x` (the tree's root included).
pub open spec fn node_subtree_has_dir(x: TreeModel, target: Seq<char>, p: Seq<char>) -> bool
    decreases x, 1int,
{
    x.is_directory && ((x.name == target && x.path == p) || subtree_has_dir(x.children, target, p))
}

/// Whether some tree of the list holds such a directory.
pub open spec fn subtree_has_dir(s: Seq<TreeModel>, target: Seq<char>, p: Seq<char>) -> bool
    decreases s, 0int,
{
    s.len() > 0 && (node_subtree_has_dir(s.first(), target, p) || subtree_has_dir(
        s.drop_first(),
        target,
        p,
    ))
}

proof fn lemma_matches_node_exact(x: TreeModel, target: Seq<char>, p: Seq<char>)
    ensures
        matches_in_node(x, target).contains(p) <==> node_subtree_has_dir(x, target, p),
    decreases x, 1int,
{
    broadcast use vstd::seq_lib::lemma_seq_concat_contains_all_elements;

    if x.is_directory {
        lemma_matches_children_exact(x.children, target, p);
        let head: Seq<Seq<char>> = if x.name == target {
            seq![x.path]
        } else {
            seq![]
        };
        if x.name == target {
            assert(head[0] == x.path);
            if x.path == p {
                assert(head.contains(p));
            }
            if head.contains(p) {
                let i = choose|i: int| 0 <= i < head.len() && head[i] == p;
                assert(i == 0);
            }
        } else {
            assert(!head.contains(p));
        }
    } else {
        assert(!matches_in_node(x, target).contains(p));
    }
}

proof fn lemma_matches_children_exact(s: Seq<TreeModel>, target: Seq<char>, p: Seq<char>)
    ensures
        matches_in_children(s, target).contains(p) <==> subtree_has_dir(s, target, p),
    decreases s, 0int,
{
    broadcast use vstd::seq_lib::lemma_seq_concat_contains_all_elements;

    if s.len() == 0 {
        assert(!matches_in_children(s, target).contains(p));
    } else {
        lemma_matches_node_exact(s.first(), target, p);
        lemma_matches_children_exact(s.drop_first(), target, p);
    }
}

/// A scoped rename reaches every folder of the target's name: a path is
/// in the match list exactly when a directory of that name carries it
/// somewhere under the root, and when no destination conflicts, the plan
/// renames each match to its sibling named `new_name`.
pub proof fn lemma_rename_covers_all_matches(
    root: TreeModel,
    target: Seq<char>,
    new_name: Seq<char>,
    p: Seq<char>,
)
    requires
        root.is_directory,
    ensures
        matches_spec(root, target).contains(p) <==> subtree_has_dir(root.children, target, p),
        first_conflict(root, matches_spec(root, target), new_name) is None && subtree_has_dir(
            root.children,
            target,
            p,
        ) ==> exists|i: int|
            0 <= i < matches_spec(root, target).len() && #[trigger] rename_steps_upto(
                matches_spec(root, target),
                new_name,
                matches_spec(root, target).len() as int,
            )[i] == (p, parent_join(p, new_name)),
{
    lemma_matches_children_exact(root.children, target, p);
    let ms = matches_spec(root, target);
    if subtree_has_dir(root.children, target, p) {
        let i = choose|i: int| 0 <= i < ms.len() && ms[i] == p;
        assert(rename_steps_upto(ms, new_name, ms.len() as int)[i] == (p, parent_join(p, new_name)));
    }
}

} // verus!
