//! The directory-tree snapshot model: tree nodes, the child ordering
//! invariant (directories before files, case-sensitive lexicographic by
//! name within each group), and verified construction of ordered
//! snapshots from a raw tree.

use vstd::prelude::*;

verus! {

/// One filesystem entry in a snapshot: its final path segment, its full
/// path, whether it is a directory, and its (ordered) children.
pub struct DirEntry {
    pub name: String,
    pub path: String,
    pub children: Vec<DirEntry>,
    pub is_directory: bool,
}

/// The mathematical model of a tree node: string views in place of
/// strings and a sequence of child models in place of the child vector.
#[verifier::ext_equal]
pub struct TreeModel {
    pub name: Seq<char>,
    pub path: Seq<char>,
    pub is_directory: bool,
    pub children: Seq<TreeModel>,
}

impl DirEntry {
    /// The model of this node: field views, children modelled recursively.
    pub open spec fn model(self) -> TreeModel
        decreases self,
    {
        TreeModel {
            name: self.name@,
            path: self.path@,
            is_directory: self.is_directory,
            children: Seq::new(
                self.children@.len(),
                |i: int|
                    if 0 <= i < self.children@.len() {
                        self.children@[i].model()
                    } else {
                        TreeModel {
                            name: Seq::empty(),
                            path: Seq::empty(),
                            is_directory: false,
                            children: Seq::empty(),
                        }
                    },
            ),
        }
    }
}

/// The models of a sequence of tree nodes, elementwise.
pub open spec fn models_of(s: Seq<DirEntry>) -> Seq<TreeModel> {
    Seq::new(s.len(), |i: int| s[i].model())
}

/// A node's model has exactly the models of its children as children.
pub proof fn lemma_model_children(n: DirEntry)
    ensures
        n.model().children == models_of(n.children@),
{
    assert(n.model().children =~= models_of(n.children@));
}

/// Case-sensitive lexicographic order on names, by character scalar
/// value; a proper prefix sorts before its extensions.
pub open spec fn lex_le(a: Seq<char>, b: Seq<char>) -> bool
    decreases a.len(),
{
    if a.len() == 0 {
        true
    } else if b.len() == 0 {
        false
    } else if (a.first() as u32) < (b.first() as u32) {
        true
    } else if (a.first() as u32) > (b.first() as u32) {
        false
    } else {
        lex_le(a.drop_first(), b.drop_first())
    }
}

/// Lexicographic order is total.
pub proof fn lemma_lex_le_total(a: Seq<char>, b: Seq<char>)
    ensures
        lex_le(a, b) || lex_le(b, a),
    decreases a.len(),
{
    if a.len() == 0 {
    } else if b.len() == 0 {
    } else if (a.first() as u32) == (b.first() as u32) {
        lemma_lex_le_total(a.drop_first(), b.drop_first());
    }
}

/// Lexicographic order is transitive.
pub proof fn lemma_lex_le_trans(a: Seq<char>, b: Seq<char>, c: Seq<char>)
    requires
        lex_le(a, b),
        lex_le(b, c),
    ensures
        lex_le(a, c),
    decreases a.len(),
{
    if a.len() == 0 {
    } else {
        assert(b.len() > 0);
        assert(c.len() > 0);
        if (a.first() as u32) == (b.first() as u32) && (b.first() as u32) == (c.first() as u32) {
            lemma_lex_le_trans(a.drop_first(), b.drop_first(), c.drop_first());
        }
    }
}

/// The child ordering: any directory sorts before any file; within one
/// group, case-sensitive lexicographic by name.
pub open spec fn node_le(a: TreeModel, b: TreeModel) -> bool {
    if a.is_directory != b.is_directory {
        a.is_directory
    } else {
        lex_le(a.name, b.name)
    }
}

/// Strict child ordering.
pub open spec fn node_lt(a: TreeModel, b: TreeModel) -> bool {
    node_le(a, b) && !node_le(b, a)
}

proof fn lemma_node_le_total(a: TreeModel, b: TreeModel)
    ensures
        node_le(a, b) || node_le(b, a),
{
    if a.is_directory == b.is_directory {
        lemma_lex_le_total(a.name, b.name);
    }
}

proof fn lemma_node_le_trans(a: TreeModel, b: TreeModel, c: TreeModel)
    requires
        node_le(a, b),
        node_le(b, c),
    ensures
        node_le(a, c),
{
    if a.is_directory == b.is_directory && b.is_directory == c.is_directory {
        lemma_lex_le_trans(a.name, b.name, c.name);
    }
}

/// A child list that satisfies the ordering invariant.
pub open spec fn forest_ordered(s: Seq<TreeModel>) -> bool {
    forall|i: int, j: int| 0 <= i < j < s.len() ==> node_le(#[trigger] s[i], #[trigger] s[j])
}

/// A tree all of whose child lists satisfy the ordering invariant.
pub open spec fn tree_ordered(t: TreeModel) -> bool
    decreases t,
{
    forest_ordered(t.children) && forall|i: int|
        0 <= i < t.children.len() ==> tree_ordered(#[trigger] t.children[i])
}

/// `x` placed into a list just before the first element it sorts
/// strictly below, so that an element equal under the order keeps nodes
/// already present in front.
pub open spec fn insert_le(x: TreeModel, s: Seq<TreeModel>) -> Seq<TreeModel>
    decreases s.len(),
{
    if s.len() == 0 {
        seq![x]
    } else if node_lt(x, s.first()) {
        seq![x] + s
    } else {
        seq![s.first()] + insert_le(x, s.drop_first())
    }
}

/// The list sorted by repeated ordered insertion, earlier elements first.
pub open spec fn sort_nodes(s: Seq<TreeModel>) -> Seq<TreeModel>
    decreases s.len(),
{
    if s.len() == 0 {
        s
    } else {
        insert_le(s.last(), sort_nodes(s.drop_last()))
    }
}

/// Ordered insertion at the least index whose element `x` sorts strictly
/// below splits the list there.
proof fn lemma_insert_le_at(x: TreeModel, s: Seq<TreeModel>, j: int)
    requires
        0 <= j <= s.len(),
        forall|i: int| 0 <= i < j ==> !node_lt(x, #[trigger] s[i]),
        j < s.len() ==> node_lt(x, s[j]),
    ensures
        insert_le(x, s) == s.take(j) + seq![x] + s.skip(j),
    decreases j,
{
    if j == 0 {
        if s.len() == 0 {
            assert(s.take(0) + seq![x] + s.skip(0) =~= seq![x]);
        } else {
            assert(node_lt(x, s.first()));
            assert(s.take(0) + seq![x] + s.skip(0) =~= seq![x] + s);
        }
    } else {
        assert(!node_lt(x, s[0]));
        assert forall|i: int| 0 <= i < j - 1 implies !node_lt(x, #[trigger] s.drop_first()[i]) by {
            assert(s.drop_first()[i] == s[i + 1]);
        }
        assert(j - 1 < s.drop_first().len() ==> node_lt(x, s.drop_first()[j - 1]));
        lemma_insert_le_at(x, s.drop_first(), j - 1);
        assert(seq![s.first()] + (s.drop_first().take(j - 1) + seq![x] + s.drop_first().skip(j - 1))
            =~= s.take(j) + seq![x] + s.skip(j));
    }
}

/// Ordered insertion keeps a sorted list sorted, adds exactly the new
/// element, and grows the length by one.
proof fn lemma_insert_le_props(x: TreeModel, s: Seq<TreeModel>)
    requires
        forest_ordered(s),
    ensures
        forest_ordered(insert_le(x, s)),
        insert_le(x, s).to_multiset() == s.to_multiset().insert(x),
        insert_le(x, s).len() == s.len() + 1,
    decreases s.len(),
{
    broadcast use vstd::seq_lib::group_to_multiset_ensures;

    if s.len() == 0 {
        assert(seq![x] =~= Seq::<TreeModel>::empty().push(x));
        assert(seq![x].to_multiset() =~= s.to_multiset().insert(x));
        assert(forest_ordered(seq![x]));
    } else if node_lt(x, s.first()) {
        let r = seq![x] + s;
        assert forall|i: int, j: int| 0 <= i < j < r.len() implies node_le(
            #[trigger] r[i],
            #[trigger] r[j],
        ) by {
            if i == 0 {
                assert(r[0] == x);
                assert(r[j] == s[j - 1]);
                if j == 1 {
                    assert(node_le(x, s[0]));
                } else {
                    assert(node_le(s[0], s[j - 1]));
                    lemma_node_le_trans(x, s.first(), s[j - 1]);
                }
            } else {
                assert(r[i] == s[i - 1]);
                assert(r[j] == s[j - 1]);
            }
        }
        vstd::seq_lib::lemma_multiset_commutative(seq![x], s);
        assert(s + seq![x] =~= s.push(x));
        assert(r.to_multiset() == s.to_multiset().insert(x));
    } else {
        lemma_node_le_total(x, s.first());
        assert(node_le(s.first(), x));
        let rest = s.drop_first();
        assert forall|i: int, j: int| 0 <= i < j < rest.len() implies node_le(
            #[trigger] rest[i],
            #[trigger] rest[j],
        ) by {
            assert(rest[i] == s[i + 1]);
            assert(rest[j] == s[j + 1]);
        }
        lemma_insert_le_props(x, rest);
        let ri = insert_le(x, rest);
        let r = seq![s.first()] + ri;
        assert forall|i: int, j: int| 0 <= i < j < r.len() implies node_le(
            #[trigger] r[i],
            #[trigger] r[j],
        ) by {
            if i == 0 {
                assert(r[j] == ri[j - 1]);
                let e = ri[j - 1];
                assert(ri.contains(e));
                assert(ri.to_multiset().count(e) > 0);
                if e == x {
                    assert(node_le(s.first(), x));
                } else {
                    assert(rest.to_multiset().insert(x).count(e) > 0);
                    assert(rest.to_multiset().count(e) > 0);
                    assert(rest.contains(e));
                    let k = choose|k: int| 0 <= k < rest.len() && rest[k] == e;
                    assert(rest[k] == s[k + 1]);
                    assert(node_le(s[0], s[k + 1]));
                }
            } else {
                assert(r[i] == ri[i - 1]);
                assert(r[j] == ri[j - 1]);
            }
        }
        vstd::seq_lib::lemma_multiset_commutative(seq![s.first()], ri);
        assert(ri + seq![s.first()] =~= ri.push(s.first()));
        assert(r.to_multiset() == ri.to_multiset().insert(s.first()));
        vstd::seq_lib::lemma_multiset_commutative(seq![s.first()], rest);
        assert(rest + seq![s.first()] =~= rest.push(s.first()));
        assert(seq![s.first()] + rest =~= s);
        assert(s.to_multiset() == rest.to_multiset().insert(s.first()));
        assert(rest.to_multiset().insert(x).insert(s.first()) =~= rest.to_multiset().insert(
            s.first(),
        ).insert(x));
    }
}

/// Sorting by repeated insertion yields an ordered list holding exactly
/// the input's elements.
pub proof fn lemma_sort_nodes_props(s: Seq<TreeModel>)
    ensures
        forest_ordered(sort_nodes(s)),
        sort_nodes(s).to_multiset() == s.to_multiset(),
        sort_nodes(s).len() == s.len(),
    decreases s.len(),
{
    broadcast use vstd::seq_lib::group_to_multiset_ensures;

    if s.len() == 0 {
    } else {
        lemma_sort_nodes_props(s.drop_last());
        lemma_insert_le_props(s.last(), sort_nodes(s.drop_last()));
        assert(s.drop_last().push(s.last()) =~= s);
        assert(s.drop_last().to_multiset().insert(s.last()) == s.to_multiset());
    }
}

/// The ordered snapshot of a child list: directories always kept, files
/// kept as leaves only when `include_files` is set, every kept directory
/// snapshotted recursively, order preserved (sorting happens per node).
pub open spec fn snap_forest(s: Seq<TreeModel>, include_files: bool) -> Seq<TreeModel>
    decreases s, 0int,
{
    if s.len() == 0 {
        Seq::empty()
    } else {
        let rest = snap_forest(s.drop_first(), include_files);
        if s.first().is_directory || include_files {
            seq![snap_node(s.first(), include_files)] + rest
        } else {
            rest
        }
    }
}

/// The ordered snapshot of a node: same name, path and kind; children
/// are the snapshots of its kept children, sorted by the child ordering;
/// a file has no children.
pub open spec fn snap_node(t: TreeModel, include_files: bool) -> TreeModel
    decreases t, 1int,
{
    TreeModel {
        name: t.name,
        path: t.path,
        is_directory: t.is_directory,
        children: if t.is_directory {
            sort_nodes(snap_forest(t.children, include_files))
        } else {
            Seq::empty()
        },
    }
}

proof fn lemma_snap_forest_ordered(s: Seq<TreeModel>, include_files: bool)
    ensures
        forall|i: int|
            0 <= i < snap_forest(s, include_files).len() ==> tree_ordered(
                #[trigger] snap_forest(s, include_files)[i],
            ),
    decreases s, 0int,
{
    if s.len() == 0 {
    } else {
        lemma_snap_forest_ordered(s.drop_first(), include_files);
        let rest = snap_forest(s.drop_first(), include_files);
        if s.first().is_directory || include_files {
            lemma_snap_node_ordered(s.first(), include_files);
            let r = seq![snap_node(s.first(), include_files)] + rest;
            assert forall|i: int| 0 <= i < r.len() implies tree_ordered(#[trigger] r[i]) by {
                if i > 0 {
                    assert(r[i] == rest[i - 1]);
                }
            }
        }
    }
}

/// Every snapshot is ordered: in each node's child list, all directories
/// come before all files, and each group is sorted by name.
pub proof fn lemma_snap_node_ordered(t: TreeModel, include_files: bool)
    ensures
        tree_ordered(snap_node(t, include_files)),
    decreases t, 1int,
{
    broadcast use vstd::seq_lib::group_to_multiset_ensures;

    if t.is_directory {
        lemma_snap_forest_ordered(t.children, include_files);
        let f = snap_forest(t.children, include_files);
        lemma_sort_nodes_props(f);
        let c = sort_nodes(f);
        assert forall|i: int| 0 <= i < c.len() implies tree_ordered(#[trigger] c[i]) by {
            assert(c.contains(c[i]));
            assert(c.to_multiset().count(c[i]) > 0);
            assert(f.to_multiset().count(c[i]) > 0);
            assert(f.contains(c[i]));
            let k = choose|k: int| 0 <= k < f.len() && f[k] == c[i];
            assert(tree_ordered(f[k]));
        }
    }
}

/// Whether `a` sorts at or before `b` lexicographically.
fn str_lex_le(a: &str, b: &str) -> (r: bool)
    ensures
        r == lex_le(a@, b@),
{
    let an = a.unicode_len();
    let bn = b.unicode_len();
    let mut i: usize = 0;
    proof {
        assert(a@.skip(0) =~= a@);
        assert(b@.skip(0) =~= b@);
    }
    while i < an && i < bn
        invariant
            i <= an,
            i <= bn,
            an == a@.len(),
            bn == b@.len(),
            lex_le(a@, b@) == lex_le(a@.skip(i as int), b@.skip(i as int)),
        decreases an - i,
    {
        let ca = a.get_char(i);
        let cb = b.get_char(i);
        proof {
            assert(a@.skip(i as int).first() == a@[i as int]);
            assert(b@.skip(i as int).first() == b@[i as int]);
            assert(a@.skip(i as int).drop_first() =~= a@.skip(i + 1));
            assert(b@.skip(i as int).drop_first() =~= b@.skip(i + 1));
        }
        if (ca as u32) < (cb as u32) {
            return true;
        }
        if (ca as u32) > (cb as u32) {
            return false;
        }
        i += 1;
    }
    proof {
        if i >= an {
            assert(a@.skip(i as int).len() == 0);
        } else {
            assert(b@.skip(i as int).len() == 0);
            assert(a@.skip(i as int).len() > 0);
        }
    }
    i >= an
}

/// Whether `a` sorts strictly before `b` in the child ordering.
fn entry_lt(a: &DirEntry, b: &DirEntry) -> (r: bool)
    ensures
        r == node_lt(a.model(), b.model()),
{
    if a.is_directory != b.is_directory {
        return a.is_directory;
    }
    let le1 = str_lex_le(a.name.as_str(), b.name.as_str());
    let le2 = str_lex_le(b.name.as_str(), a.name.as_str());
    le1 && !le2
}

/// Inserts `x` into an ordered vector at its ordered position.
fn insert_entry(out: &mut Vec<DirEntry>, x: DirEntry)
    ensures
        models_of(final(out)@) == insert_le(x.model(), models_of(old(out)@)),
{
    let mut j: usize = 0;
    while j < out.len() && !entry_lt(&x, &out[j])
        invariant
            j <= out@.len(),
            out@ == old(out)@,
            forall|i: int| 0 <= i < j ==> !node_lt(x.model(), #[trigger] out@[i].model()),
        decreases out@.len() - j,
    {
        j += 1;
    }
    proof {
        let s = models_of(out@);
        assert forall|i: int| 0 <= i < j implies !node_lt(x.model(), #[trigger] s[i]) by {
            assert(s[i] == out@[i].model());
        }
        if (j as int) < s.len() {
            assert(s[j as int] == out@[j as int].model());
        }
        lemma_insert_le_at(x.model(), s, j as int);
    }
    let ghost pre = out@;
    out.insert(j, x);
    proof {
        let s = models_of(pre);
        assert(models_of(out@) =~= s.take(j as int) + seq![x.model()] + s.skip(j as int));
    }
}

/// Sorts a child vector by the child ordering, by ordered insertion.
fn sort_entries(v: Vec<DirEntry>) -> (r: Vec<DirEntry>)
    ensures
        models_of(r@) == sort_nodes(models_of(v@)),
{
    let mut out: Vec<DirEntry> = Vec::new();
    let mut rest = v;
    let ghost orig = rest@;
    proof {
        assert(models_of(out@) =~= Seq::<TreeModel>::empty());
        assert(models_of(orig.take(0)) =~= Seq::<TreeModel>::empty());
    }
    while rest.len() > 0
        invariant
            rest@.len() <= orig.len(),
            rest@ =~= orig.skip(orig.len() - rest@.len()),
            models_of(out@) == sort_nodes(models_of(orig.take(orig.len() - rest@.len()))),
        decreases rest@.len(),
    {
        let ghost k = orig.len() - rest@.len();
        let x = rest.remove(0);
        proof {
            assert(x == orig[k]);
            assert(rest@ =~= orig.skip(k + 1));
        }
        insert_entry(&mut out, x);
        proof {
            let t = models_of(orig.take(k + 1));
            assert(t.drop_last() =~= models_of(orig.take(k)));
            assert(t.last() == orig[k].model());
            assert(models_of(out@) == insert_le(orig[k].model(), sort_nodes(models_of(orig.take(k)))));
        }
    }
    proof {
        assert(orig.take(orig.len() as int) =~= orig);
    }
    out
}

/// Builds the ordered snapshot of a raw tree.
fn snap(n: &DirEntry, include_files: bool) -> (r: DirEntry)
    ensures
        r.model() == snap_node(n.model(), include_files),
    decreases *n,
{
    let name = n.name.clone();
    let path = n.path.clone();
    if !n.is_directory {
        let r = DirEntry { name, path, children: Vec::new(), is_directory: false };
        proof {
            lemma_model_children(r);
            assert(models_of(r.children@) =~= Seq::<TreeModel>::empty());
            assert(r.model() =~= snap_node(n.model(), include_files));
        }
        return r;
    }
    let mut kids: Vec<DirEntry> = Vec::new();
    let mut i: usize = 0;
    proof {
        lemma_model_children(*n);
        assert(models_of(n.children@).skip(0) =~= models_of(n.children@));
        assert(models_of(kids@) =~= Seq::<TreeModel>::empty());
    }
    while i < n.children.len()
        invariant
            i <= n.children@.len(),
            snap_forest(models_of(n.children@), include_files) == models_of(kids@) + snap_forest(
                models_of(n.children@).skip(i as int),
                include_files,
            ),
        decreases n.children@.len() - i,
    {
        let ghost ms = models_of(n.children@);
        let ghost pre = kids@;
        let c = &n.children[i];
        proof {
            assert(ms.skip(i as int).first() == ms[i as int]);
            assert(ms[i as int] == n.children@[i as int].model());
            assert(ms.skip(i as int).drop_first() =~= ms.skip(i + 1));
        }
        if c.is_directory || include_files {
            let sc = snap(c, include_files);
            kids.push(sc);
            proof {
                assert(models_of(kids@) =~= models_of(pre).push(sc.model()));
                assert(models_of(pre) + (seq![snap_node(ms[i as int], include_files)]
                    + snap_forest(ms.skip(i + 1), include_files)) =~= models_of(kids@)
                    + snap_forest(ms.skip(i + 1), include_files));
            }
        }
        i += 1;
    }
    proof {
        let ms = models_of(n.children@);
        assert(ms.skip(ms.len() as int) =~= Seq::<TreeModel>::empty());
        assert(models_of(kids@) + Seq::<TreeModel>::empty() =~= models_of(kids@));
    }
    let sorted = sort_entries(kids);
    let r = DirEntry { name, path, children: sorted, is_directory: true };
    proof {
        lemma_model_children(r);
        assert(r.model() =~= snap_node(n.model(), include_files));
    }
    r
}

/// The ordered snapshot of a raw tree, directories only: files are
/// dropped at every level, the remaining children sorted by name.
pub fn snapshot_dirs(root: &DirEntry) -> (r: DirEntry)
    ensures
        r.model() == snap_node(root.model(), false),
{
    snap(root, false)
}

/// The ordered snapshot of a raw tree with files kept as leaf children:
/// in each child list directories come first, then files, each group
/// sorted by name.
pub fn snapshot_full(root: &DirEntry) -> (r: DirEntry)
    ensures
        r.model() == snap_node(root.model(), true),
{
    snap(root, true)
}

} // verus!
