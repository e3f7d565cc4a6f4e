//! Pure file tree snapshot helpers: exact lookup, subtree replacement,
//! visible-row flattening, and reveal planning.

use vstd::prelude::*;
use vstd::string::StringSliceAdditionalSpecFns;
use std::collections::BTreeSet;
use crate::pathrel::{lemma_parent_shorter, PathPolicy, spec_matches_or_contains, path_matches_or_contains, parent_path, parent_path_defined, spec_parent, trim_trailing, trim_end_sep, rfind_from};
use crate::strutil::char_bytes;
use crate::strutil::bytes_of;

verus! {

/// Tree node kind used by runtime-facing file tree helpers.
#[derive(Debug, Clone, Copy, PartialEq, Eq)]
pub enum FileTreeNodeKind {
    File,
    Directory,
}

/// Whether a directory node is fully materialized or only partially known.
#[derive(Debug, Clone, Copy, PartialEq, Eq)]
pub enum DirectoryMaterialization {
    Complete,
    Partial,
}

/// Public runtime-facing file tree node shape.
#[derive(Debug, PartialEq, Eq)]
pub struct FileTreeNode {
    pub name: String,
    pub path: String,
    pub kind: FileTreeNodeKind,
    pub children: Vec<FileTreeNode>,
    pub materialization: DirectoryMaterialization,
    pub child_count: Option<usize>,
}

/// One flattened row derived from a file tree snapshot.
#[derive(Debug, Clone, PartialEq, Eq)]
pub struct FlatFileTreeRow {
    pub depth: usize,
    pub name: String,
    pub path: String,
    pub kind: FileTreeNodeKind,
    pub is_collapsed: bool,
    pub materialization: DirectoryMaterialization,
    pub child_count: Option<usize>,
}

/// Expansion instructions needed to reveal a target path.
#[derive(Debug, Clone, PartialEq, Eq)]
pub struct RevealPlan {
    pub expand_paths: Vec<String>,
    pub found: bool,
}

/// Abstract value of a flattened row.
pub struct RowView {
    pub depth: int,
    pub name: Seq<char>,
    pub path: Seq<char>,
    pub kind: FileTreeNodeKind,
    pub is_collapsed: bool,
    pub materialization: DirectoryMaterialization,
    pub child_count: Option<usize>,
}

/// Abstract value of a row.
pub open spec fn row_view(r: FlatFileTreeRow) -> RowView {
    RowView {
        depth: r.depth as int,
        name: r.name@,
        path: r.path@,
        kind: r.kind,
        is_collapsed: r.is_collapsed,
        materialization: r.materialization,
        child_count: r.child_count,
    }
}

/// Abstract value of a tree node.
pub struct NodeView {
    pub name: Seq<char>,
    pub path: Seq<char>,
    pub kind: FileTreeNodeKind,
    pub children: Seq<NodeView>,
    pub materialization: DirectoryMaterialization,
    pub child_count: Option<usize>,
}

/// Abstract value of a node and its subtree.
pub open spec fn node_view(n: FileTreeNode) -> NodeView
    decreases n,
{
    NodeView {
        name: n.name@,
        path: n.path@,
        kind: n.kind,
        children: children_view(n.children@),
        materialization: n.materialization,
        child_count: n.child_count,
    }
}

/// Abstract values of a sequence of nodes.
pub open spec fn children_view(cs: Seq<FileTreeNode>) -> Seq<NodeView>
    decreases cs,
{
    if cs.len() == 0 {
        Seq::empty()
    } else {
        seq![node_view(cs[0])] + children_view(cs.subrange(1, cs.len() as int))
    }
}

proof fn lemma_children_view(cs: Seq<FileTreeNode>)
    ensures
        children_view(cs).len() == cs.len(),
        forall|i: int| 0 <= i < cs.len() ==> #[trigger] children_view(cs)[i] == node_view(cs[i]),
    decreases cs.len(),
{
    if cs.len() > 0 {
        let rest = cs.subrange(1, cs.len() as int);
        lemma_children_view(rest);
        assert forall|i: int| 0 <= i < cs.len() implies #[trigger] children_view(cs)[i] == node_view(
            cs[i],
        ) by {
            if i > 0 {
                assert(rest[i - 1] == cs[i]);
            }
        }
    }
}

impl Clone for FileTreeNode {
    fn clone(&self) -> (r: Self)
        ensures
            node_view(r) == node_view(*self),
        decreases self,
    {
        let mut children: Vec<FileTreeNode> = Vec::new();
        let mut i: usize = 0;
        proof {
            lemma_children_view(self.children@);
        }
        while i < self.children.len()
            invariant
                0 <= i <= self.children@.len(),
                children@.len() == i,
                children_view(self.children@).len() == self.children@.len(),
                forall|j: int|
                    0 <= j < self.children@.len() ==> #[trigger] children_view(self.children@)[j]
                        == node_view(self.children@[j]),
                forall|j: int| 0 <= j < i ==> node_view(#[trigger] children@[j]) == node_view(
                    self.children@[j],
                ),
            decreases self.children@.len() - i,
        {
            let c = self.children[i].clone();
            children.push(c);
            i = i + 1;
        }
        proof {
            lemma_children_view(children@);
            assert(children_view(children@) =~= children_view(self.children@));
        }
        FileTreeNode {
            name: self.name.clone(),
            path: self.path.clone(),
            kind: self.kind,
            children,
            materialization: self.materialization,
            child_count: self.child_count,
        }
    }
}

/// Path equality under the policy: each path matches or contains the other.
pub open spec fn path_eq(l: Seq<u8>, r: Seq<u8>, policy: PathPolicy) -> bool {
    spec_matches_or_contains(l, r, policy) && spec_matches_or_contains(r, l, policy)
}

/// The first node in pre-order whose path equals `path`.
pub open spec fn find_spec(n: NodeView, path: Seq<u8>, policy: PathPolicy) -> Option<NodeView>
    decreases n,
{
    if path_eq(bytes_of(n.path), path, policy) {
        Some(n)
    } else {
        find_in(n.children, path, policy)
    }
}

/// The first match of `path` among the subtrees `cs`, in order.
pub open spec fn find_in(cs: Seq<NodeView>, path: Seq<u8>, policy: PathPolicy) -> Option<NodeView>
    decreases cs,
{
    if cs.len() == 0 {
        None
    } else {
        match find_spec(cs[0], path, policy) {
            Some(x) => Some(x),
            None => find_in(cs.subrange(1, cs.len() as int), path, policy),
        }
    }
}

fn path_eq_exec(left: &str, right: &str, policy: &PathPolicy) -> (r: bool)
    ensures
        r == path_eq(left.spec_bytes(), right.spec_bytes(), *policy),
{
    path_matches_or_contains(left, right, policy) && path_matches_or_contains(right, left, policy)
}

/// Find one node by exact path under the given root.
pub fn find_node_by_path<'a>(root: &'a FileTreeNode, path: &str, policy: &PathPolicy) -> (r: Option<
    &'a FileTreeNode,
>)
    ensures
        match find_spec(node_view(*root), path.spec_bytes(), *policy) {
            Some(v) => r matches Some(x) && node_view(*x) == v,
            None => r is None,
        },
    decreases root,
{
    if path_eq_exec(root.path.as_str(), path, policy) {
        return Some(root);
    }
    let ghost cv = children_view(root.children@);
    assert(find_spec(node_view(*root), path.spec_bytes(), *policy) == find_in(cv, path.spec_bytes(), *policy));
    proof {
        lemma_children_view(root.children@);
        assert(cv.subrange(0, cv.len() as int) =~= cv);
    }
    let mut i: usize = 0;
    while i < root.children.len()
        invariant
            0 <= i <= root.children@.len(),
            cv == children_view(root.children@),
            cv.len() == root.children@.len(),
            forall|j: int|
                0 <= j < root.children@.len() ==> #[trigger] cv[j] == node_view(root.children@[j]),
            find_spec(node_view(*root), path.spec_bytes(), *policy) == find_in(
                cv.subrange(i as int, cv.len() as int),
                path.spec_bytes(),
                *policy,
            ),
        decreases root.children@.len() - i,
    {
        let child = &root.children[i];
        proof {
            assert(decreases_to!(root => root.children));
        }
        let found = find_node_by_path(child, path, policy);
        proof {
            let sub = cv.subrange(i as int, cv.len() as int);
            assert(sub[0] == cv[i as int]);
            assert(sub.subrange(1, sub.len() as int) =~= cv.subrange(i + 1, cv.len() as int));
        }
        if found.is_some() {
            return found;
        }
        i = i + 1;
    }
    None
}

/// `n` with the first subtree whose path equals `sub`'s path replaced by `sub`,
/// at every level.
pub open spec fn merge_spec(n: NodeView, sub: NodeView, policy: PathPolicy) -> NodeView
    decreases n,
{
    if path_eq(bytes_of(n.path), bytes_of(sub.path), policy) {
        sub
    } else {
        NodeView {
            name: n.name,
            path: n.path,
            kind: n.kind,
            children: merge_in(n.children, sub, policy),
            materialization: n.materialization,
            child_count: n.child_count,
        }
    }
}

/// `merge_spec` applied to each subtree of `cs`.
pub open spec fn merge_in(cs: Seq<NodeView>, sub: NodeView, policy: PathPolicy) -> Seq<NodeView>
    decreases cs,
{
    if cs.len() == 0 {
        Seq::empty()
    } else {
        seq![merge_spec(cs[0], sub, policy)] + merge_in(
            cs.subrange(1, cs.len() as int),
            sub,
            policy,
        )
    }
}

proof fn lemma_merge_in(cs: Seq<NodeView>, sub: NodeView, policy: PathPolicy)
    ensures
        merge_in(cs, sub, policy).len() == cs.len(),
        forall|i: int|
            0 <= i < cs.len() ==> #[trigger] merge_in(cs, sub, policy)[i] == merge_spec(
                cs[i],
                sub,
                policy,
            ),
    decreases cs.len(),
{
    if cs.len() > 0 {
        let rest = cs.subrange(1, cs.len() as int);
        lemma_merge_in(rest, sub, policy);
        assert forall|i: int| 0 <= i < cs.len() implies #[trigger] merge_in(cs, sub, policy)[i]
            == merge_spec(cs[i], sub, policy) by {
            if i > 0 {
                assert(rest[i - 1] == cs[i]);
            }
        }
    }
}

/// Replace the matching subtree while keeping non-target branches unchanged in value.
pub fn merge_subtree(root: &FileTreeNode, subtree: FileTreeNode, policy: &PathPolicy) -> (r:
    FileTreeNode)
    ensures
        node_view(r) == merge_spec(node_view(*root), node_view(subtree), *policy),
    decreases root,
{
    if path_eq_exec(root.path.as_str(), subtree.path.as_str(), policy) {
        return subtree;
    }
    let ghost cv = children_view(root.children@);
    proof {
        lemma_children_view(root.children@);
        lemma_merge_in(cv, node_view(subtree), *policy);
    }
    let mut next_children: Vec<FileTreeNode> = Vec::new();
    let mut i: usize = 0;
    while i < root.children.len()
        invariant
            0 <= i <= root.children@.len(),
            next_children@.len() == i,
            cv == children_view(root.children@),
            cv.len() == root.children@.len(),
            forall|j: int|
                0 <= j < root.children@.len() ==> #[trigger] cv[j] == node_view(root.children@[j]),
            forall|j: int|
                0 <= j < i ==> node_view(#[trigger] next_children@[j]) == merge_spec(
                    cv[j],
                    node_view(subtree),
                    *policy,
                ),
        decreases root.children@.len() - i,
    {
        proof {
            assert(decreases_to!(root => root.children));
        }
        let next_child = merge_subtree(&root.children[i], subtree.clone(), policy);
        next_children.push(next_child);
        i = i + 1;
    }
    proof {
        lemma_children_view(next_children@);
        assert(children_view(next_children@) =~= merge_in(cv, node_view(subtree), *policy));
    }
    FileTreeNode {
        name: root.name.clone(),
        path: root.path.clone(),
        kind: root.kind,
        children: next_children,
        materialization: root.materialization,
        child_count: root.child_count,
    }
}

/// Height of a subtree: the number of nodes on its longest root path.
pub open spec fn height(n: NodeView) -> nat
    decreases n,
{
    1 + height_in(n.children)
}

/// Largest height among the subtrees `cs`.
pub open spec fn height_in(cs: Seq<NodeView>) -> nat
    decreases cs,
{
    if cs.len() == 0 {
        0
    } else {
        let h = height(cs[0]);
        let rest = height_in(cs.subrange(1, cs.len() as int));
        if h > rest {
            h
        } else {
            rest
        }
    }
}

/// A path of the collapsed set equals `path` under the policy.
pub open spec fn collapsed_contains(collapsed: Set<Seq<char>>, path: Seq<char>, policy: PathPolicy) -> bool {
    exists|p: Seq<char>| collapsed.contains(p) && path_eq(bytes_of(p), bytes_of(path), policy)
}

/// The visible rows of the subtree `n`, in pre-order: the node itself when
/// `include_self`, then its children one level deeper, unless the node is shown
/// collapsed.
pub open spec fn flatten_spec(
    n: NodeView,
    collapsed: Set<Seq<char>>,
    include_self: bool,
    depth: int,
    policy: PathPolicy,
) -> Seq<RowView>
    decreases n,
{
    let c = collapsed_contains(collapsed, n.path, policy);
    let me = if include_self {
        seq![
            RowView {
                depth,
                name: n.name,
                path: n.path,
                kind: n.kind,
                is_collapsed: c,
                materialization: n.materialization,
                child_count: n.child_count,
            },
        ]
    } else {
        Seq::empty()
    };
    let next_depth = if include_self {
        depth + 1
    } else {
        depth
    };
    if include_self && c {
        me
    } else {
        me + flatten_in(n.children, collapsed, next_depth, policy)
    }
}

/// The rows of the subtrees `cs`, one after the other, each including its root.
pub open spec fn flatten_in(cs: Seq<NodeView>, collapsed: Set<Seq<char>>, depth: int, policy: PathPolicy) -> Seq<
    RowView,
>
    decreases cs,
{
    if cs.len() == 0 {
        Seq::empty()
    } else {
        flatten_spec(cs[0], collapsed, true, depth, policy) + flatten_in(
            cs.subrange(1, cs.len() as int),
            collapsed,
            depth,
            policy,
        )
    }
}

/// Rows nest from depth `d`: none is shallower than `d`, the first (if any)
/// is at `d`, and each is at most one level deeper than the row before it.
pub open spec fn depths_nest(rows: Seq<RowView>, d: int) -> bool {
    &&& forall|k: int| 0 <= k < rows.len() ==> #[trigger] rows[k].depth >= d
    &&& rows.len() > 0 ==> rows[0].depth == d
    &&& forall|k: int| 0 <= k < rows.len() - 1 ==> #[trigger] rows[k + 1].depth <= rows[k].depth + 1
}

proof fn lemma_depths_concat(a: Seq<RowView>, b: Seq<RowView>, d: int)
    requires
        depths_nest(a, d),
        depths_nest(b, d),
    ensures
        depths_nest(a + b, d),
{
    let r = a + b;
    assert forall|k: int| 0 <= k < r.len() implies #[trigger] r[k].depth >= d by {
        if k < a.len() {
            assert(r[k] == a[k]);
        } else {
            assert(r[k] == b[k - a.len()]);
        }
    }
    assert forall|k: int| 0 <= k < r.len() - 1 implies #[trigger] r[k + 1].depth <= r[k].depth + 1 by {
        if k + 1 < a.len() {
            assert(r[k] == a[k] && r[k + 1] == a[k + 1]);
            assert(a[k + 1].depth <= a[k].depth + 1);
        } else if k + 1 == a.len() {
            assert(r[k] == a[k] && r[k + 1] == b[0]);
            assert(a[k].depth >= d);
        } else {
            let j = k - a.len();
            assert(r[k] == b[j] && r[k + 1] == b[j + 1]);
            assert(b[j + 1].depth <= b[j].depth + 1);
        }
    }
    if a.len() == 0 {
        assert(r =~= b);
    } else {
        assert(r[0] == a[0]);
    }
}

proof fn lemma_depths_under(row: RowView, rest: Seq<RowView>, d: int)
    requires
        row.depth == d,
        depths_nest(rest, d + 1),
    ensures
        depths_nest(seq![row] + rest, d),
        forall|k: int| 1 <= k < (seq![row] + rest).len() ==> #[trigger] (seq![row] + rest)[k].depth >= d + 1,
{
    let r = seq![row] + rest;
    assert forall|k: int| 1 <= k < r.len() implies #[trigger] r[k].depth >= d + 1 by {
        assert(r[k] == rest[k - 1]);
    }
    assert forall|k: int| 0 <= k < r.len() implies #[trigger] r[k].depth >= d by {
        if k > 0 {
            assert(r[k] == rest[k - 1]);
        }
    }
    assert forall|k: int| 0 <= k < r.len() - 1 implies #[trigger] r[k + 1].depth <= r[k].depth + 1 by {
        if k == 0 {
            assert(r[1] == rest[0]);
        } else {
            let j = k - 1;
            assert(r[k] == rest[j] && r[k + 1] == rest[j + 1]);
            assert(rest[j + 1].depth <= rest[j].depth + 1);
        }
    }
}

/// The rows of a subtree nest from the depth given: with the node itself
/// shown, its row comes first at that depth and every other row is deeper,
/// a collapsed node shows no more rows, and the first of its children (when
/// it is open) is exactly one level deeper;
/// each row is at most one level deeper than the row before it.
pub proof fn lemma_flatten_depths(
    n: NodeView,
    collapsed: Set<Seq<char>>,
    include_self: bool,
    d: int,
    policy: PathPolicy,
)
    ensures
        depths_nest(flatten_spec(n, collapsed, include_self, d, policy), d),
        include_self ==> ({
            let rows = flatten_spec(n, collapsed, include_self, d, policy);
            &&& rows.len() >= 1
            &&& rows[0].path == n.path
            &&& forall|k: int| 1 <= k < rows.len() ==> #[trigger] rows[k].depth >= d + 1
            &&& collapsed_contains(collapsed, n.path, policy) ==> rows.len() == 1
            &&& !collapsed_contains(collapsed, n.path, policy) && n.children.len() > 0 ==> rows[1].depth
                == d + 1 && rows[1].path == n.children[0].path
        }),
    decreases n,
{
    lemma_flatten_in_depths(n.children, collapsed, if include_self { d + 1 } else { d }, policy);
    let c = collapsed_contains(collapsed, n.path, policy);
    let rows = flatten_spec(n, collapsed, include_self, d, policy);
    let kids = flatten_in(n.children, collapsed, if include_self { d + 1 } else { d }, policy);
    if include_self {
        let me = RowView {
            depth: d,
            name: n.name,
            path: n.path,
            kind: n.kind,
            is_collapsed: c,
            materialization: n.materialization,
            child_count: n.child_count,
        };
        if c {
            lemma_depths_under(me, Seq::empty(), d);
            assert(seq![me] + Seq::<RowView>::empty() =~= rows);
        } else {
            lemma_depths_under(me, kids, d);
            assert(rows == seq![me] + kids);
            if n.children.len() > 0 {
                assert(rows[1] == kids[0]);
            }
        }
    } else {
        assert(rows =~= Seq::<RowView>::empty() + kids);
    }
}

/// The rows of several subtrees one after another nest from the depth given,
/// the first row being the first subtree's root.
pub proof fn lemma_flatten_in_depths(cs: Seq<NodeView>, collapsed: Set<Seq<char>>, d: int, policy: PathPolicy)
    ensures
        depths_nest(flatten_in(cs, collapsed, d, policy), d),
        cs.len() > 0 ==> flatten_in(cs, collapsed, d, policy).len() > 0 && flatten_in(cs, collapsed, d, policy)[0].path
            == cs[0].path,
    decreases cs,
{
    if cs.len() > 0 {
        let rest = cs.subrange(1, cs.len() as int);
        lemma_flatten_depths(cs[0], collapsed, true, d, policy);
        lemma_flatten_in_depths(rest, collapsed, d, policy);
        let a = flatten_spec(cs[0], collapsed, true, d, policy);
        let b = flatten_in(rest, collapsed, d, policy);
        lemma_depths_concat(a, b, d);
        assert((a + b)[0] == a[0]);
    }
}

/// The number of nodes of a subtree.
pub open spec fn node_count(n: NodeView) -> nat
    decreases n,
{
    1 + node_count_in(n.children)
}

/// The number of nodes of several subtrees.
pub open spec fn node_count_in(cs: Seq<NodeView>) -> nat
    decreases cs,
{
    if cs.len() == 0 {
        0
    } else {
        node_count(cs[0]) + node_count_in(cs.subrange(1, cs.len() as int))
    }
}

/// With nothing collapsed, flattening shows every node once: one row per
/// node of the subtree (less the node itself when it is left out).
pub proof fn lemma_flatten_shows_all(n: NodeView, include_self: bool, d: int, policy: PathPolicy)
    ensures
        flatten_spec(n, Set::empty(), include_self, d, policy).len() == if include_self {
            node_count(n)
        } else {
            node_count_in(n.children)
        },
    decreases n,
{
    lemma_flatten_in_shows_all(n.children, if include_self { d + 1 } else { d }, policy);
    assert(!collapsed_contains(Set::empty(), n.path, policy));
}

/// With nothing collapsed, flattening several subtrees shows all their nodes.
pub proof fn lemma_flatten_in_shows_all(cs: Seq<NodeView>, d: int, policy: PathPolicy)
    ensures
        flatten_in(cs, Set::empty(), d, policy).len() == node_count_in(cs),
    decreases cs,
{
    if cs.len() > 0 {
        lemma_flatten_shows_all(cs[0], true, d, policy);
        lemma_flatten_in_shows_all(cs.subrange(1, cs.len() as int), d, policy);
    }
}

proof fn lemma_height_in(cs: Seq<NodeView>, i: int)
    requires
        0 <= i < cs.len(),
    ensures
        height(cs[i]) <= height_in(cs),
    decreases cs.len(),
{
    if i > 0 {
        let rest = cs.subrange(1, cs.len() as int);
        lemma_height_in(rest, i - 1);
        assert(rest[i - 1] == cs[i]);
    }
}

/// Lists the elements of a set of strings (std's `BTreeSet::iter`, cloned).
#[verifier::external_body]
fn set_elements(set: &BTreeSet<String>) -> (v: Vec<String>)
    ensures
        forall|i: int| 0 <= i < v@.len() ==> set.deep_view().contains(#[trigger] v@[i]@),
        forall|p: Seq<char>|
            set.deep_view().contains(p) ==> exists|i: int| 0 <= i < v@.len() && #[trigger] v@[i]@ == p,
{
    set.iter().cloned().collect()
}

fn is_collapsed_path(collapsed: &Vec<String>, path: &str, policy: &PathPolicy, set: Ghost<Set<Seq<char>>>) -> (r: bool)
    requires
        forall|i: int| 0 <= i < collapsed@.len() ==> set@.contains(#[trigger] collapsed@[i]@),
        forall|p: Seq<char>|
            set@.contains(p) ==> exists|i: int| 0 <= i < collapsed@.len() && #[trigger] collapsed@[i]@ == p,
    ensures
        r == collapsed_contains(set@, path@, *policy),
{
    proof {
        vstd::utf8::encode_utf8_decode_utf8(path@);
    }
    let mut i: usize = 0;
    while i < collapsed.len()
        invariant
            0 <= i <= collapsed@.len(),
            forall|k: int| 0 <= k < collapsed@.len() ==> set@.contains(#[trigger] collapsed@[k]@),
            forall|j: int|
                0 <= j < i ==> !path_eq(bytes_of(#[trigger] collapsed@[j]@), bytes_of(path@), *policy),
        decreases collapsed@.len() - i,
    {
        if path_eq_exec(collapsed[i].as_str(), path, policy) {
            assert(set@.contains(collapsed@[i as int]@));
            return true;
        }
        i = i + 1;
    }
    proof {
        if collapsed_contains(set@, path@, *policy) {
            let p = choose|p: Seq<char>| set@.contains(p) && path_eq(bytes_of(p), bytes_of(path@), *policy);
            let j = choose|j: int| 0 <= j < collapsed@.len() && #[trigger] collapsed@[j]@ == p;
            assert(!path_eq(bytes_of(collapsed@[j]@), bytes_of(path@), *policy));
        }
    }
    false
}

fn flatten_into(
    node: &FileTreeNode,
    collapsed: &Vec<String>,
    set: Ghost<Set<Seq<char>>>,
    include_self: bool,
    depth: usize,
    policy: &PathPolicy,
    rows: &mut Vec<FlatFileTreeRow>,
)
    requires
        forall|i: int| 0 <= i < collapsed@.len() ==> set@.contains(#[trigger] collapsed@[i]@),
        forall|p: Seq<char>|
            set@.contains(p) ==> exists|i: int| 0 <= i < collapsed@.len() && #[trigger] collapsed@[i]@ == p,
        depth + height(node_view(*node)) < usize::MAX,
    ensures
        final(rows)@.map_values(|r: FlatFileTreeRow| row_view(r)) == old(rows)@.map_values(
            |r: FlatFileTreeRow| row_view(r),
        ) + flatten_spec(node_view(*node), set@, include_self, depth as int, *policy),
    decreases node,
{
    let ghost start = rows@.map_values(|r: FlatFileTreeRow| row_view(r));
    let is_collapsed = is_collapsed_path(collapsed, node.path.as_str(), policy, set);
    if include_self {
        rows.push(
            FlatFileTreeRow {
                depth,
                name: node.name.clone(),
                path: node.path.clone(),
                kind: node.kind,
                is_collapsed,
                materialization: node.materialization,
                child_count: node.child_count,
            },
        );
    }
    let ghost me = if include_self {
        seq![
            RowView {
                depth: depth as int,
                name: node.name@,
                path: node.path@,
                kind: node.kind,
                is_collapsed,
                materialization: node.materialization,
                child_count: node.child_count,
            },
        ]
    } else {
        Seq::<RowView>::empty()
    };
    assert(rows@.map_values(|r: FlatFileTreeRow| row_view(r)) =~= start + me);
    let next_depth = if include_self { depth + 1 } else { depth };
    if include_self && is_collapsed {
        return;
    }
    let ghost cv = children_view(node.children@);
    proof {
        lemma_children_view(node.children@);
        assert(cv.subrange(0, cv.len() as int) =~= cv);
    }
    let mut i: usize = 0;
    while i < node.children.len()
        invariant
            forall|k: int| 0 <= k < collapsed@.len() ==> set@.contains(#[trigger] collapsed@[k]@),
            forall|p: Seq<char>|
                set@.contains(p) ==> exists|k: int|
                    0 <= k < collapsed@.len() && #[trigger] collapsed@[k]@ == p,
            0 <= i <= node.children@.len(),
            cv == children_view(node.children@),
            cv.len() == node.children@.len(),
            forall|j: int|
                0 <= j < node.children@.len() ==> #[trigger] cv[j] == node_view(node.children@[j]),
            next_depth + height_in(cv) < usize::MAX,
            rows@.map_values(|r: FlatFileTreeRow| row_view(r)) + flatten_in(
                cv.subrange(i as int, cv.len() as int),
                set@,
                next_depth as int,
                *policy,
            ) == start + me + flatten_in(cv, set@, next_depth as int, *policy),
        decreases node.children@.len() - i,
    {
        proof {
            assert(decreases_to!(node => node.children));
            lemma_height_in(cv, i as int);
            let sub = cv.subrange(i as int, cv.len() as int);
            assert(sub[0] == cv[i as int]);
            assert(sub.subrange(1, sub.len() as int) =~= cv.subrange(i + 1, cv.len() as int));
        }
        let ghost before = rows@.map_values(|r: FlatFileTreeRow| row_view(r));
        flatten_into(&node.children[i], collapsed, set, true, next_depth, policy, rows);
        i = i + 1;
    }
    assert(cv.subrange(i as int, cv.len() as int) =~= Seq::<NodeView>::empty());
}

/// Flatten a tree into visible rows under the current collapsed set.
pub fn flatten_file_tree(
    root: &FileTreeNode,
    collapsed_paths: &BTreeSet<String>,
    include_root: bool,
    policy: &PathPolicy,
) -> (rows: Vec<FlatFileTreeRow>)
    requires
        height(node_view(*root)) < usize::MAX,
    ensures
        rows@.map_values(|r: FlatFileTreeRow| row_view(r)) == flatten_spec(
            node_view(*root),
            collapsed_paths.deep_view(),
            include_root,
            0,
            *policy,
        ),
{
    let collapsed = set_elements(collapsed_paths);
    let mut rows: Vec<FlatFileTreeRow> = Vec::new();
    flatten_into(root, &collapsed, Ghost(collapsed_paths.deep_view()), include_root, 0, policy, &mut rows);
    assert(rows@.map_values(|r: FlatFileTreeRow| row_view(r)) =~= Seq::<RowView>::empty() + flatten_spec(
        node_view(*root),
        collapsed_paths.deep_view(),
        include_root,
        0,
        *policy,
    ));
    rows
}

/// Every ancestor of `path` can be computed by `parent_path`.
pub open spec fn ancestry_defined(path: Seq<u8>, policy: PathPolicy) -> bool
    decreases path.len(),
{
    parent_path_defined(path, policy) && match spec_parent(path, policy) {
        Some(q) => {
            proof {
                lemma_parent_shorter(path, policy);
            }
            ancestry_defined(q, policy)
        },
        None => true,
    }
}

/// Walking up from `cur` to the root: the directory paths to expand, nearest first.
pub open spec fn reveal_walk(root: NodeView, cur: Option<Seq<u8>>, policy: PathPolicy) -> Seq<
    Seq<char>,
>
    decreases (match cur {
        Some(p) => p.len() + 1,
        None => 0,
    }),
{
    match cur {
        None => Seq::empty(),
        Some(p) => {
            if path_eq(p, bytes_of(root.path), policy) {
                if root.kind == FileTreeNodeKind::Directory {
                    seq![root.path]
                } else {
                    Seq::empty()
                }
            } else {
                let here = match find_spec(root, p, policy) {
                    Some(n) => if n.kind == FileTreeNodeKind::Directory {
                        seq![n.path]
                    } else {
                        Seq::empty()
                    },
                    None => Seq::empty(),
                };
                proof {
                    lemma_parent_shorter(p, policy);
                }
                here + reveal_walk(root, spec_parent(p, policy), policy)
            }
        },
    }
}

/// `target` lies in the tree of `root`.
pub open spec fn reveal_found(root: NodeView, target: Seq<u8>, policy: PathPolicy) -> bool {
    spec_matches_or_contains(target, bytes_of(root.path), policy) && find_spec(root, target, policy) is Some
}

fn is_directory(kind: FileTreeNodeKind) -> (r: bool)
    ensures
        r == (kind == FileTreeNodeKind::Directory),
{
    match kind {
        FileTreeNodeKind::Directory => true,
        FileTreeNodeKind::File => false,
    }
}

/// Build the ancestor expansion plan needed to reveal one target path.
pub fn reveal_plan_for_path(root: &FileTreeNode, target_path: &str, policy: &PathPolicy) -> (plan:
    RevealPlan)
    requires
        ancestry_defined(target_path.spec_bytes(), *policy),
    ensures
        plan.found == reveal_found(node_view(*root), target_path.spec_bytes(), *policy),
        plan.expand_paths@.map_values(|s: String| s@) == (if plan.found {
            reveal_walk(
                node_view(*root),
                spec_parent(target_path.spec_bytes(), *policy),
                *policy,
            ).reverse()
        } else {
            Seq::empty()
        }),
{
    if !path_matches_or_contains(target_path, root.path.as_str(), policy) {
        let r = RevealPlan { expand_paths: Vec::new(), found: false };
        assert(r.expand_paths@.map_values(|s: String| s@) =~= Seq::<Seq<char>>::empty());
        return r;
    }
    if find_node_by_path(root, target_path, policy).is_none() {
        let r = RevealPlan { expand_paths: Vec::new(), found: false };
        assert(r.expand_paths@.map_values(|s: String| s@) =~= Seq::<Seq<char>>::empty());
        return r;
    }
    let ghost rv = node_view(*root);
    let mut expand_paths: Vec<String> = Vec::new();
    let mut cursor = parent_path(target_path, policy);
    let ghost total = reveal_walk(rv, spec_parent(target_path.spec_bytes(), *policy), *policy);
    loop
        invariant_except_break
            expand_paths@.map_values(|s: String| s@) + reveal_walk(
                rv,
                match cursor {
                    Some(c) => Some(c.spec_bytes()),
                    None => None,
                },
                *policy,
            ) == total,
        invariant
            rv == node_view(*root),
            match cursor {
                Some(c) => ancestry_defined(c.spec_bytes(), *policy),
                None => true,
            },
        ensures
            expand_paths@.map_values(|s: String| s@) == total,
        decreases (match cursor {
            Some(c) => c.spec_bytes().len() + 1,
            None => 0,
        }),
    {
        let path = match cursor {
            Some(p) => p,
            None => {
                assert(expand_paths@.map_values(|s: String| s@) =~= total);
                break;
            },
        };
        let ghost before = expand_paths@.map_values(|s: String| s@);
        if path_eq_exec(path, root.path.as_str(), policy) {
            if is_directory(root.kind) {
                expand_paths.push(root.path.clone());
            }
            assert(expand_paths@.map_values(|s: String| s@) =~= total);
            break;
        }
        match find_node_by_path(root, path, policy) {
            Some(node) => {
                if is_directory(node.kind) {
                    expand_paths.push(node.path.clone());
                }
            },
            None => {},
        }
        proof {
            lemma_parent_shorter(path.spec_bytes(), *policy);
            assert(expand_paths@.map_values(|s: String| s@) =~= before + match find_spec(
                rv,
                path.spec_bytes(),
                *policy,
            ) {
                Some(n) => if n.kind == FileTreeNodeKind::Directory {
                    seq![n.path]
                } else {
                    Seq::<Seq<char>>::empty()
                },
                None => Seq::<Seq<char>>::empty(),
            });
        }
        cursor = parent_path(path, policy);
    }
    let mut reversed: Vec<String> = Vec::new();
    let mut k = expand_paths.len();
    while k > 0
        invariant
            k <= expand_paths@.len(),
            expand_paths@.map_values(|s: String| s@) == total,
            reversed@.map_values(|s: String| s@) == total.subrange(k as int, total.len() as int).reverse(),
        decreases k,
    {
        k = k - 1;
        let ghost old_rev = reversed@.map_values(|s: String| s@);
        let item = expand_paths[k].clone();
        assert(item@ == total[k as int]);
        reversed.push(item);
        assert(reversed@.map_values(|s: String| s@) =~= old_rev.push(total[k as int]));
        assert(reversed@.map_values(|s: String| s@) =~= total.subrange(k as int, total.len() as int).reverse());
    }
    assert(total.subrange(0, total.len() as int) =~= total);
    RevealPlan { expand_paths: reversed, found: true }
}

} // verus!
