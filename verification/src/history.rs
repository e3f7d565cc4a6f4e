//! Records of an edit history: what each history node stores, and what undo,
//! redo and jumps report.

use vstd::prelude::*;
use vstd::string::StringSliceAdditionalSpecFns;
use neco_tree::{CursoredTree, Node, PrunePolicy, Tree};
use crate::textpatch::{TextPatch, PatchView, patch_views, spec_validate, spec_apply, spec_inverse, inverse_patches, apply_patches};
use crate::strutil::bytes_of;
use vstd::utf8::decode_utf8;

verus! {

/// Determines how an edit can be undone/redone.
#[derive(Debug, Clone, Copy, PartialEq, Eq, Structural)]
pub enum EntryKind {
    /// Reversible via forward/inverse patches.
    Reversible,
    /// Restored from a full text snapshot.
    Snapshot,
}

/// Data stored in each history node.
///
/// Fields are private. Use the accessor methods to read them.
#[derive(Debug, Clone)]
pub struct HistoryEntry {
    label: String,
    kind: EntryKind,
    forward_patches: Option<Vec<TextPatch>>,
    inverse_patches: Option<Vec<TextPatch>>,
    snapshot: Option<String>,
    checkpoint: Option<String>,
    group_id: Option<u64>,
}

impl HistoryEntry {
    pub closed spec fn spec_label(self) -> Seq<char> {
        self.label@
    }

    pub closed spec fn spec_kind(self) -> EntryKind {
        self.kind
    }

    pub closed spec fn spec_forward_patches(self) -> Option<Seq<TextPatch>> {
        match self.forward_patches {
            Some(v) => Some(v@),
            None => None,
        }
    }

    pub closed spec fn spec_inverse_patches(self) -> Option<Seq<TextPatch>> {
        match self.inverse_patches {
            Some(v) => Some(v@),
            None => None,
        }
    }

    pub closed spec fn spec_snapshot(self) -> Option<Seq<char>> {
        match self.snapshot {
            Some(s) => Some(s@),
            None => None,
        }
    }

    pub closed spec fn spec_group_id(self) -> Option<u64> {
        self.group_id
    }

    pub closed spec fn spec_checkpoint(self) -> Option<Seq<char>> {
        match self.checkpoint {
            Some(s) => Some(s@),
            None => None,
        }
    }

    /// Human-readable label for this edit.
    pub fn label(&self) -> (r: &str)
        ensures
            r@ == self.spec_label(),
    {
        self.label.as_str()
    }

    /// How this entry can be reversed.
    pub fn kind(&self) -> (r: EntryKind)
        ensures
            r == self.spec_kind(),
    {
        self.kind
    }

    /// Forward patches (present for reversible entries).
    pub fn forward_patches(&self) -> (r: Option<&[TextPatch]>)
        ensures
            match r {
                Some(s) => self.spec_forward_patches() == Some(s@),
                None => self.spec_forward_patches() is None,
            },
    {
        match &self.forward_patches {
            Some(v) => Some(v.as_slice()),
            None => None,
        }
    }

    /// Inverse patches (present for reversible entries).
    pub fn inverse_patches(&self) -> (r: Option<&[TextPatch]>)
        ensures
            match r {
                Some(s) => self.spec_inverse_patches() == Some(s@),
                None => self.spec_inverse_patches() is None,
            },
    {
        match &self.inverse_patches {
            Some(v) => Some(v.as_slice()),
            None => None,
        }
    }

    /// Full text snapshot (present for snapshot entries).
    pub fn snapshot(&self) -> (r: Option<&str>)
        ensures
            match r {
                Some(s) => self.spec_snapshot() == Some(s@),
                None => self.spec_snapshot() is None,
            },
    {
        match &self.snapshot {
            Some(s) => Some(s.as_str()),
            None => None,
        }
    }

    /// Checkpoint snapshot inserted for fast long-range jumps.
    pub fn checkpoint(&self) -> (r: Option<&str>)
        ensures
            match r {
                Some(s) => self.spec_checkpoint() == Some(s@),
                None => self.spec_checkpoint() is None,
            },
    {
        match &self.checkpoint {
            Some(s) => Some(s.as_str()),
            None => None,
        }
    }
}

/// Information returned by an undo step.
#[derive(Debug, Clone)]
pub struct UndoResult {
    pub kind: EntryKind,
    pub inverse_patches: Option<Vec<TextPatch>>,
    pub snapshot: Option<String>,
    pub label: String,
}

/// Information returned by a redo step.
#[derive(Debug, Clone)]
pub struct RedoResult {
    pub kind: EntryKind,
    pub forward_patches: Option<Vec<TextPatch>>,
    pub snapshot: Option<String>,
    pub label: String,
}

/// A single step of a jump through the history.
#[derive(Debug, Clone)]
pub enum JumpStep {
    /// Move toward the root (undo direction).
    Undo(UndoResult),
    /// Move toward a leaf (redo direction).
    Redo(RedoResult),
}

// ---------------------------------------------------------------------------
// The history tree
// ---------------------------------------------------------------------------

#[verifier::external_type_specification]
#[verifier::external_body]
#[verifier::reject_recursive_types(T)]
pub struct ExCursoredTree<T>(CursoredTree<T>);

#[verifier::external_type_specification]
#[verifier::external_body]
#[verifier::reject_recursive_types(T)]
pub struct ExTree<T>(Tree<T>);

#[verifier::external_type_specification]
#[verifier::external_body]
#[verifier::reject_recursive_types(T)]
pub struct ExNode<T>(Node<T>);


/// The nodes of a cursored history tree: each node's index path from the root
/// mapped to its id and entry.
pub uninterp spec fn history_nodes(t: CursoredTree<HistoryEntry>) -> Map<Seq<usize>, (u64, HistoryEntry)>;

/// The index path from the root to the cursor of a cursored history tree.
pub uninterp spec fn history_cursor(t: CursoredTree<HistoryEntry>) -> Seq<usize>;

/// The nodes of a history tree, by index path from the root.
pub uninterp spec fn tree_nodes(t: Tree<HistoryEntry>) -> Map<Seq<usize>, (u64, HistoryEntry)>;

/// The nodes of the subtree under one node, by index path from that node.
pub uninterp spec fn node_nodes(n: Node<HistoryEntry>) -> Map<Seq<usize>, (u64, HistoryEntry)>;

/// The nodes below path `p`, by path relative to `p`.
pub open spec fn subtree(
    m: Map<Seq<usize>, (u64, HistoryEntry)>,
    p: Seq<usize>,
) -> Map<Seq<usize>, (u64, HistoryEntry)> {
    Map::new(|q: Seq<usize>| m.dom().contains(p + q), |q: Seq<usize>| m[p + q])
}

/// A tree of nodes with a cursor: the cursor is a node, every prefix of a
/// node's path is a node, the children of a node are numbered from zero
/// without gaps, and no two nodes share an id.
pub open spec fn tree_wf(n: Map<Seq<usize>, (u64, HistoryEntry)>, c: Seq<usize>) -> bool {
    &&& n.dom().contains(c)
    &&& forall|p: Seq<usize>, k: int|
        #![trigger n.dom().contains(p), p.take(k)]
        n.dom().contains(p) && 0 <= k <= p.len() ==> n.dom().contains(p.take(k))
    &&& forall|p: Seq<usize>, i: usize, j: usize|
        #![trigger n.dom().contains(p.push(i)), p.push(j)]
        n.dom().contains(p.push(i)) && j < i ==> n.dom().contains(p.push(j))
    &&& forall|p: Seq<usize>, q: Seq<usize>|
        #![trigger n.dom().contains(p), n.dom().contains(q)]
        n.dom().contains(p) && n.dom().contains(q) && n[p].0 == n[q].0 ==> p == q
}

/// How a prune thins the history tree.
#[derive(Debug, Clone, Copy, PartialEq, Eq, Structural)]
pub enum PruneRule {
    /// Keep the newest `n` children of every node, dropping older ones.
    KeepLastN(usize),
    /// Remove every node `limit` or more steps below the root.
    KeepDepthUnder(usize),
}

/// The rule as a flag for keeping the newest children and its limit.
pub open spec fn prune_rule(p: PruneRule) -> (bool, usize) {
    match p {
        PruneRule::KeepLastN(n) => (true, n),
        PruneRule::KeepDepthUnder(d) => (false, d),
    }
}

/// The node at `p` has `c` children, numbered `0` to `c - 1`.
pub open spec fn has_child_count(n: Map<Seq<usize>, (u64, HistoryEntry)>, p: Seq<usize>, c: int) -> bool {
    c >= 0 && forall|i: usize| #[trigger] n.dom().contains(p.push(i)) <==> i < c
}

/// The number of children of the node at `p`.
pub open spec fn child_count(n: Map<Seq<usize>, (u64, HistoryEntry)>, p: Seq<usize>) -> int {
    choose|c: int| #[trigger] has_child_count(n, p, c)
}

/// The path before pruning to the newest `k` children of every node of the
/// node at path `q` after it.
pub open spec fn kept_origin(
    n: Map<Seq<usize>, (u64, HistoryEntry)>,
    q: Seq<usize>,
    k: usize,
) -> Seq<usize>
    decreases q.len(),
{
    if q.len() == 0 {
        q
    } else {
        let parent = kept_origin(n, q.drop_last(), k);
        let c = child_count(n, parent);
        let dropped = if c > k {
            c - k
        } else {
            0
        };
        parent.push((q.last() + dropped) as usize)
    }
}

/// The path `q` names a node after pruning to the newest `k` children of
/// every node.
pub open spec fn kept_last(n: Map<Seq<usize>, (u64, HistoryEntry)>, q: Seq<usize>, k: usize) -> bool
    decreases q.len(),
{
    q.len() == 0 || (kept_last(n, q.drop_last(), k) && q.last() < k && n.dom().contains(
        kept_origin(n, q, k),
    ))
}

/// The nodes after a prune with rule `rule` (see `prune_rule`).
pub open spec fn pruned_nodes(
    n: Map<Seq<usize>, (u64, HistoryEntry)>,
    rule: (bool, usize),
) -> Map<Seq<usize>, (u64, HistoryEntry)> {
    if rule.0 {
        Map::new(|q: Seq<usize>| kept_last(n, q, rule.1), |q: Seq<usize>| n[kept_origin(n, q, rule.1)])
    } else {
        n.restrict(Set::new(|q: Seq<usize>| q.len() == 0 || q.len() < rule.1))
    }
}

/// `j` is the index of the newest child of the node at `p`.
pub open spec fn newest_child(n: Map<Seq<usize>, (u64, HistoryEntry)>, p: Seq<usize>, j: usize) -> bool {
    n.dom().contains(p.push(j)) && !n.dom().contains(p.push((j + 1) as usize))
}

/// `n1` with cursor `c1` comes from `n0` with cursor `c0` by adding `e` under
/// the fresh id `id` as the newest child of the node at `c0`, and moving the
/// cursor to it.
pub open spec fn child_pushed(
    n0: Map<Seq<usize>, (u64, HistoryEntry)>,
    c0: Seq<usize>,
    n1: Map<Seq<usize>, (u64, HistoryEntry)>,
    c1: Seq<usize>,
    id: u64,
    e: HistoryEntry,
) -> bool {
    &&& c1.len() == c0.len() + 1
    &&& c1.take(c0.len() as int) == c0
    &&& !n0.dom().contains(c1)
    &&& c1.last() == 0 || n0.dom().contains(c0.push((c1.last() - 1) as usize))
    &&& n1 == n0.insert(c1, (id, e))
    &&& forall|p: Seq<usize>| #[trigger] n0.dom().contains(p) ==> n0[p].0 != id
}

/// `CursoredTree::new`: a tree holding only a root of id 0 with the given
/// value, the cursor at the root.
#[verifier::external_body]
fn ct_new(root: HistoryEntry) -> (r: CursoredTree<HistoryEntry>)
    ensures
        history_nodes(r) == map![Seq::<usize>::empty() => (0u64, root)],
        history_cursor(r) == Seq::<usize>::empty(),
{
    CursoredTree::new(root)
}

/// `CursoredTree::push`: adds `value` as the newest child of the cursor's node,
/// under an id that no node had, and moves the cursor to it. (The id counter
/// would need 2^64 insertions to overflow.)
#[verifier::external_body]
fn ct_push(t: &mut CursoredTree<HistoryEntry>, value: HistoryEntry) -> (id: u64)
    ensures
        child_pushed(
            history_nodes(*old(t)),
            history_cursor(*old(t)),
            history_nodes(*final(t)),
            history_cursor(*final(t)),
            id,
            value,
        ),
        history_cursor(*final(t)).len() <= usize::MAX,
{
    t.push(value)
}

/// `CursoredTree::has_parent`: whether the cursor is below the root.
#[verifier::external_body]
fn ct_has_parent(t: &CursoredTree<HistoryEntry>) -> (r: bool)
    ensures
        r == (history_cursor(*t).len() > 0),
{
    t.has_parent()
}

/// `CursoredTree::has_children`: whether the cursor's node has a child.
#[verifier::external_body]
fn ct_has_children(t: &CursoredTree<HistoryEntry>) -> (r: bool)
    ensures
        r == history_nodes(*t).dom().contains(history_cursor(*t).push(0)),
{
    t.has_children()
}

/// `CursoredTree::current`: the node at the cursor.
#[verifier::external_body]
fn ct_current(t: &CursoredTree<HistoryEntry>) -> (r: &Node<HistoryEntry>)
    ensures
        node_nodes(*r) == subtree(history_nodes(*t), history_cursor(*t)),
{
    t.current()
}

/// `CursoredTree::current_id`: the id of the node at the cursor.
#[verifier::external_body]
fn ct_current_id(t: &CursoredTree<HistoryEntry>) -> (r: u64)
    ensures
        r == history_nodes(*t)[history_cursor(*t)].0,
{
    t.current_id()
}

/// `CursoredTree::go_parent`: moves the cursor one level up unless it is at the root.
#[verifier::external_body]
fn ct_go_parent(t: &mut CursoredTree<HistoryEntry>) -> (r: bool)
    ensures
        r == (history_cursor(*old(t)).len() > 0),
        history_cursor(*final(t)) == if r {
            history_cursor(*old(t)).take(history_cursor(*old(t)).len() - 1)
        } else {
            history_cursor(*old(t))
        },
        history_nodes(*final(t)) == history_nodes(*old(t)),
{
    t.go_parent()
}

/// `CursoredTree::go_child`: moves the cursor to child `index` when it exists.
#[verifier::external_body]
fn ct_go_child(t: &mut CursoredTree<HistoryEntry>, index: usize) -> (r: bool)
    ensures
        r == history_nodes(*old(t)).dom().contains(history_cursor(*old(t)).push(index)),
        history_cursor(*final(t)) == if r {
            history_cursor(*old(t)).push(index)
        } else {
            history_cursor(*old(t))
        },
        history_nodes(*final(t)) == history_nodes(*old(t)),
        history_cursor(*final(t)).len() <= usize::MAX,
{
    t.go_child(index)
}

/// `CursoredTree::cursor_path`: the index path of the cursor.
#[verifier::external_body]
fn ct_cursor_path(t: &CursoredTree<HistoryEntry>) -> (r: &[usize])
    ensures
        r@ == history_cursor(*t),
{
    t.cursor_path()
}

/// `CursoredTree::prune`. Under `KeepLastN(k)` every node keeps only its
/// newest `k` children, renumbered from zero; under `KeepDepthUnder(d)` only
/// the root and the nodes less than `d` steps below it stay. Where the cursor
/// goes is not stated here beyond its being a node of the pruned tree.
#[verifier::external_body]
fn ct_prune(t: &mut CursoredTree<HistoryEntry>, policy: PruneRule)
    requires
        tree_wf(history_nodes(*old(t)), history_cursor(*old(t))),
    ensures
        history_nodes(*final(t)) == pruned_nodes(history_nodes(*old(t)), prune_rule(policy)),
        tree_wf(history_nodes(*final(t)), history_cursor(*final(t))),
        history_cursor(*final(t)).len() <= usize::MAX,
{
    t.prune(
        match policy {
            PruneRule::KeepLastN(n) => PrunePolicy::KeepLastN(n),
            PruneRule::KeepDepthUnder(d) => PrunePolicy::KeepDepthUnder(d),
        },
    )
}

/// `CursoredTree::tree`: the underlying tree.
#[verifier::external_body]
fn ct_tree(t: &CursoredTree<HistoryEntry>) -> (r: &Tree<HistoryEntry>)
    ensures
        tree_nodes(*r) == history_nodes(*t),
{
    t.tree()
}

/// `Tree::root`: the root node.
#[verifier::external_body]
fn tree_root(t: &Tree<HistoryEntry>) -> (r: &Node<HistoryEntry>)
    ensures
        node_nodes(*r) == tree_nodes(*t),
{
    t.root()
}

/// `Tree::find_path_to`: the index path of the node with id `id`, if any.
#[verifier::external_body]
fn tree_find_path_to(t: &Tree<HistoryEntry>, id: u64) -> (r: Option<Vec<usize>>)
    ensures
        match r {
            Some(p) => tree_nodes(*t).dom().contains(p@) && tree_nodes(*t)[p@].0 == id,
            None => forall|p: Seq<usize>| #[trigger] tree_nodes(*t).dom().contains(p) ==> tree_nodes(*t)[p].0 != id,
        },
{
    t.find_path_to(id)
}

/// `Node::value`: the entry stored at the node.
#[verifier::external_body]
fn node_value(n: &Node<HistoryEntry>) -> (r: &HistoryEntry)
    ensures
        *r == node_nodes(*n)[Seq::<usize>::empty()].1,
{
    n.value()
}

/// `Node::children`: the node's children in insertion order.
#[verifier::external_body]
fn node_children(n: &Node<HistoryEntry>) -> (r: &[Node<HistoryEntry>])
    ensures
        forall|i: usize| node_nodes(*n).dom().contains(seq![i]) <==> i < r@.len(),
        forall|i: int| 0 <= i < r@.len() ==> node_nodes(#[trigger] r@[i]) == subtree(node_nodes(*n), seq![i as usize]),
{
    n.children()
}

// ---------------------------------------------------------------------------
// What the history reports
// ---------------------------------------------------------------------------

/// Views of an optional patch list.
pub open spec fn opt_views(o: Option<Seq<TextPatch>>) -> Option<Seq<PatchView>> {
    match o {
        Some(v) => Some(patch_views(v)),
        None => None,
    }
}

/// Views of an optional owned patch list.
pub open spec fn opt_vec_views(o: Option<Vec<TextPatch>>) -> Option<Seq<PatchView>> {
    match o {
        Some(v) => Some(patch_views(v@)),
        None => None,
    }
}

/// Characters of an optional string.
pub open spec fn opt_chars(o: Option<String>) -> Option<Seq<char>> {
    match o {
        Some(s) => Some(s@),
        None => None,
    }
}

/// The text in effect after an entry, given the text in effect before it: its
/// snapshot, else its checkpoint, else the earlier text.
pub open spec fn entry_text(e: HistoryEntry, latest: Option<Seq<char>>) -> Option<Seq<char>> {
    if e.spec_snapshot() is Some {
        e.spec_snapshot()
    } else if e.spec_checkpoint() is Some {
        e.spec_checkpoint()
    } else {
        latest
    }
}

/// The latest snapshot or checkpoint on the way from the root to the node at
/// `path.take(k)`.
pub open spec fn text_along(
    n: Map<Seq<usize>, (u64, HistoryEntry)>,
    path: Seq<usize>,
    k: int,
) -> Option<Seq<char>>
    decreases k,
{
    if k <= 0 {
        entry_text(n[Seq::<usize>::empty()].1, None)
    } else {
        entry_text(n[path.take(k)].1, text_along(n, path, k - 1))
    }
}

/// `u` reports the undo of the node at `p`: its kind, label and inverse
/// patches, and the latest snapshot at or above its parent.
pub open spec fn undo_matches(n: Map<Seq<usize>, (u64, HistoryEntry)>, p: Seq<usize>, u: UndoResult) -> bool {
    let e = n[p].1;
    &&& u.kind == e.spec_kind()
    &&& u.label@ == e.spec_label()
    &&& opt_vec_views(u.inverse_patches) == opt_views(e.spec_inverse_patches())
    &&& opt_chars(u.snapshot) == text_along(n, p, p.len() - 1)
}

/// `r` reports the redo of the node at `p`: its kind, label, forward patches
/// and snapshot.
pub open spec fn redo_matches(n: Map<Seq<usize>, (u64, HistoryEntry)>, p: Seq<usize>, r: RedoResult) -> bool {
    let e = n[p].1;
    &&& r.kind == e.spec_kind()
    &&& r.label@ == e.spec_label()
    &&& opt_vec_views(r.forward_patches) == opt_views(e.spec_forward_patches())
    &&& opt_chars(r.snapshot) == e.spec_snapshot()
}

/// Undoing from cursor `c` takes `m` steps: one for an edit outside a group,
/// else every edit of the first one's group up to the root or to the first
/// edit of another group.
pub open spec fn undo_run(n: Map<Seq<usize>, (u64, HistoryEntry)>, c: Seq<usize>, m: int) -> bool {
    &&& 1 <= m <= c.len()
    &&& n[c].1.spec_group_id() is None ==> m == 1
    &&& n[c].1.spec_group_id() matches Some(g) ==> {
        &&& forall|i: int| 0 <= i < m ==> (#[trigger] n[c.take(c.len() - i)]).1.spec_group_id() == Some(g)
        &&& m == c.len() || n[c.take(c.len() - m)].1.spec_group_id() != Some(g)
    }
}

/// Redoing from cursor `c0` ends at `c1` after `m` steps, each to the newest
/// child: one for an edit outside a group, else every edit of the first one's
/// group down to a leaf or to a newest child of another group.
pub open spec fn redo_run(n: Map<Seq<usize>, (u64, HistoryEntry)>, c0: Seq<usize>, c1: Seq<usize>, m: int) -> bool {
    &&& m >= 1
    &&& c1.len() == c0.len() + m
    &&& c1.take(c0.len() as int) == c0
    &&& forall|i: int| c0.len() <= i < c1.len() ==> #[trigger] newest_child(n, c1.take(i), c1[i])
    &&& n[c1.take(c0.len() + 1int)].1.spec_group_id() is None ==> m == 1
    &&& n[c1.take(c0.len() + 1int)].1.spec_group_id() matches Some(g) ==> {
        &&& forall|i: int| c0.len() < i <= c1.len() ==> (#[trigger] n[c1.take(i)]).1.spec_group_id() == Some(g)
        &&& forall|j: usize| #[trigger] newest_child(n, c1, j) ==> n[c1.push(j)].1.spec_group_id() != Some(g)
    }
}

/// `v` reports an undo from cursor `c`: the run of nodes `undo_run` gives,
/// from the cursor up.
pub open spec fn undo_reports(n: Map<Seq<usize>, (u64, HistoryEntry)>, c: Seq<usize>, v: Seq<UndoResult>) -> bool {
    &&& undo_run(n, c, v.len() as int)
    &&& forall|i: int| 0 <= i < v.len() ==> undo_matches(n, c.take(c.len() - i), #[trigger] v[i])
}

/// `v` reports a redo from cursor `c0` to cursor `c1`: the run of newest
/// children `redo_run` gives, from the top down.
pub open spec fn redo_reports(
    n: Map<Seq<usize>, (u64, HistoryEntry)>,
    c0: Seq<usize>,
    c1: Seq<usize>,
    v: Seq<RedoResult>,
) -> bool {
    &&& redo_run(n, c0, c1, v.len() as int)
    &&& forall|i: int| 0 <= i < v.len() ==> redo_matches(n, c1.take(c0.len() + i + 1), #[trigger] v[i])
}

/// Length of the longest common prefix of `a` and `b` from position `k` on.
pub open spec fn common_from(a: Seq<usize>, b: Seq<usize>, k: int) -> int
    decreases a.len() - k,
{
    if 0 <= k < a.len() && k < b.len() && a[k] == b[k] {
        common_from(a, b, k + 1)
    } else {
        k
    }
}

/// `n` holds a node whose id is `id`.
pub open spec fn has_id(n: Map<Seq<usize>, (u64, HistoryEntry)>, id: u64) -> bool {
    exists|p: Seq<usize>| #[trigger] n.dom().contains(p) && n[p].0 == id
}

/// The path of the node with id `id`.
pub open spec fn path_of(n: Map<Seq<usize>, (u64, HistoryEntry)>, id: u64) -> Seq<usize> {
    choose|p: Seq<usize>| #[trigger] n.dom().contains(p) && n[p].0 == id
}

/// `steps` walk from `c` up to the common ancestor with `t`, then down to `t`.
pub open spec fn jump_matches(
    n: Map<Seq<usize>, (u64, HistoryEntry)>,
    c: Seq<usize>,
    t: Seq<usize>,
    steps: Seq<JumpStep>,
) -> bool {
    let l = common_from(c, t, 0);
    let ups = c.len() - l;
    &&& steps.len() == ups + (t.len() - l)
    &&& forall|i: int| 0 <= i < ups ==> (#[trigger] steps[i] matches JumpStep::Undo(u) && undo_matches(n, c.take(c.len() - i), u))
    &&& forall|j: int| 0 <= j < t.len() - l ==> (#[trigger] steps[ups + j] matches JumpStep::Redo(r) && redo_matches(n, t.take(l + j + 1), r))
}

proof fn lemma_common_prefix(a: Seq<usize>, b: Seq<usize>, k: int)
    requires
        0 <= k <= a.len(),
        k <= b.len(),
        a.take(k) == b.take(k),
    ensures
        k <= common_from(a, b, k) <= a.len(),
        common_from(a, b, k) <= b.len(),
        a.take(common_from(a, b, k)) == b.take(common_from(a, b, k)),
    decreases a.len() - k,
{
    if k < a.len() && k < b.len() && a[k] == b[k] {
        assert(a.take(k + 1) =~= a.take(k).push(a[k]));
        assert(b.take(k + 1) =~= b.take(k).push(b[k]));
        lemma_common_prefix(a, b, k + 1);
    }
}

/// The subtree below a child of the node at `p` is the subtree below `p`'s child.
proof fn lemma_subtree_child(m: Map<Seq<usize>, (u64, HistoryEntry)>, p: Seq<usize>, i: usize)
    ensures
        subtree(subtree(m, p), seq![i]) =~= subtree(m, p.push(i)),
        subtree(m, p).dom().contains(seq![i]) == m.dom().contains(p.push(i)),
{
    assert(p + seq![i] =~= p.push(i));
    assert forall|q: Seq<usize>| #![auto] p + (seq![i] + q) == p.push(i) + q by {
        assert(p + (seq![i] + q) =~= p.push(i) + q);
    }
}

/// The root entry of the subtree at `p` is the entry at `p`.
proof fn lemma_subtree_root(m: Map<Seq<usize>, (u64, HistoryEntry)>, p: Seq<usize>)
    ensures
        subtree(m, p).dom().contains(Seq::<usize>::empty()) == m.dom().contains(p),
        m.dom().contains(p) ==> subtree(m, p)[Seq::<usize>::empty()] == m[p],
{
    assert(p + Seq::<usize>::empty() =~= p);
}

/// The latest snapshot along a path depends only on the part of the path walked.
proof fn lemma_text_along_prefix(n: Map<Seq<usize>, (u64, HistoryEntry)>, p: Seq<usize>, m: int, k: int)
    requires
        0 <= k <= m <= p.len(),
    ensures
        text_along(n, p.take(m), k) == text_along(n, p, k),
    decreases k,
{
    if k > 0 {
        assert(p.take(m).take(k) =~= p.take(k));
        lemma_text_along_prefix(n, p, m, k - 1);
    }
}

/// Adding a new newest child below a node of a well-formed tree, under a fresh
/// id, keeps the tree well-formed with the cursor on the new node.
proof fn lemma_push_wf(
    n0: Map<Seq<usize>, (u64, HistoryEntry)>,
    c0: Seq<usize>,
    c1: Seq<usize>,
    id: u64,
    e: HistoryEntry,
)
    requires
        tree_wf(n0, c0),
        c1.len() == c0.len() + 1,
        c1.take(c0.len() as int) == c0,
        !n0.dom().contains(c1),
        c1.last() == 0 || n0.dom().contains(c0.push((c1.last() - 1) as usize)),
        forall|p: Seq<usize>| #[trigger] n0.dom().contains(p) ==> n0[p].0 != id,
    ensures
        tree_wf(n0.insert(c1, (id, e)), c1),
{
    let n1 = n0.insert(c1, (id, e));
    assert(c1 =~= c0.push(c1.last()));
    assert forall|p: Seq<usize>, k: int|
        #![trigger n1.dom().contains(p), p.take(k)]
        n1.dom().contains(p) && 0 <= k <= p.len() implies n1.dom().contains(p.take(k)) by {
        if p == c1 {
            if k == p.len() {
                assert(p.take(k) =~= p);
            } else {
                assert(p.take(k) =~= c0.take(k));
                assert(n0.dom().contains(c0.take(k)));
            }
        } else {
            assert(n0.dom().contains(p.take(k)));
        }
    }
    assert forall|p: Seq<usize>, i: usize, j: usize|
        #![trigger n1.dom().contains(p.push(i)), p.push(j)]
        n1.dom().contains(p.push(i)) && j < i implies n1.dom().contains(p.push(j)) by {
        if p.push(i) == c1 {
            assert(p =~= p.push(i).take(p.len() as int));
            assert(p == c0);
            assert(i == c1.last());
            assert(n0.dom().contains(c0.push((c1.last() - 1) as usize)));
            if j < i - 1 {
                assert(n0.dom().contains(p.push(j)));
            }
        } else {
            assert(n0.dom().contains(p.push(j)));
        }
    }
}

/// A copy of an optional patch list.
fn clone_patch_list(o: &Option<Vec<TextPatch>>) -> (r: Option<Vec<TextPatch>>)
    ensures
        opt_vec_views(r) == opt_vec_views(*o),
{
    match o {
        Some(v) => {
            let c = v.clone();
            assert(patch_views(c@) =~= patch_views(v@)) by {
                assert forall|i: int| 0 <= i < v@.len() implies #[trigger] c@[i]@ == v@[i]@ by {
                    assert(cloned::<TextPatch>(v[i], c[i]));
                }
            }
            Some(c)
        },
        None => None,
    }
}


/// `h1` is `h0` after recording, as node `id`, the reversible edit `forward`
/// of `text` labelled `label`: a new newest child of the current node that
/// holds the forward patches, their inverse, a checkpoint when the edit
/// counter reaches the interval, and the open group.
pub open spec fn edit_recorded(
    h0: EditHistory,
    h1: EditHistory,
    id: u64,
    label: Seq<char>,
    text: Seq<u8>,
    forward: Seq<PatchView>,
) -> bool {
    let e = h1.spec_current();
    &&& h1.wf()
    &&& child_pushed(h0.spec_nodes(), h0.spec_cursor(), h1.spec_nodes(), h1.spec_cursor(), id, e)
    &&& e.spec_label() == label
    &&& e.spec_kind() == EntryKind::Reversible
    &&& opt_views(e.spec_forward_patches()) == Some(forward)
    &&& opt_views(e.spec_inverse_patches()) == Some(spec_inverse(text, forward))
    &&& e.spec_snapshot() is None
    &&& e.spec_checkpoint() == h0.expected_checkpoint(text, forward)
    &&& e.spec_group_id() == h0.spec_active_group()
    &&& h1.spec_edits_since_checkpoint() == if h0.spec_edits_since_checkpoint() + 1
        >= h0.spec_checkpoint_interval() {
        0
    } else {
        (h0.spec_edits_since_checkpoint() + 1) as u32
    }
    &&& h1.spec_checkpoint_interval() == h0.spec_checkpoint_interval()
    &&& h1.spec_active_group() == h0.spec_active_group()
    &&& h1.spec_group_counter() == h0.spec_group_counter()
}

/// An edit pushed outside a group is undone alone: undo reports exactly the
/// pushed entry and returns the cursor to where the edit was pushed from.
pub proof fn lemma_undo_after_push(
    n0: Map<Seq<usize>, (u64, HistoryEntry)>,
    c0: Seq<usize>,
    n1: Map<Seq<usize>, (u64, HistoryEntry)>,
    c1: Seq<usize>,
    id: u64,
    e: HistoryEntry,
    m: int,
)
    requires
        tree_wf(n0, c0),
        child_pushed(n0, c0, n1, c1, id, e),
        e.spec_group_id() is None,
        undo_run(n1, c1, m),
    ensures
        m == 1,
        c1.take(c1.len() - m) == c0,
        n1[c1] == (id, e),
{
}

/// The node an edit was pushed as is the newest child of the node it was
/// pushed from, so redo from there goes back to it first.
pub proof fn lemma_redo_after_undo(
    n0: Map<Seq<usize>, (u64, HistoryEntry)>,
    c0: Seq<usize>,
    n1: Map<Seq<usize>, (u64, HistoryEntry)>,
    c1: Seq<usize>,
    id: u64,
    e: HistoryEntry,
    c2: Seq<usize>,
    m: int,
)
    requires
        tree_wf(n0, c0),
        child_pushed(n0, c0, n1, c1, id, e),
        redo_run(n1, c0, c2, m),
    ensures
        c2.take(c0.len() + 1int) == c1,
        n1[c2.take(c0.len() + 1int)] == (id, e),
{
    let k = c0.len() as int;
    assert(newest_child(n1, c2.take(k), c2[k]));
    assert(c2.take(k) == c0);
    assert(c1 =~= c0.push(c1.last()));
    let j = c2[k];
    if j != c1.last() {
        if j < c1.last() {
            assert(n1.dom().contains(c0.push((j + 1) as usize)));
            if j + 1 < c1.last() {
                assert(n0.dom().contains(c0.push((c1.last() - 1) as usize)));
                assert(n0.dom().contains(c0.push((j + 1) as usize)));
            }
        } else {
            assert(n1.dom().contains(c0.push(j)));
            assert(n0.dom().contains(c0.push(j)));
            assert(n0.dom().contains(c0.push(c1.last())));
        }
    }
    assert(c2.take(k + 1) =~= c0.push(j));
}

// ---------------------------------------------------------------------------
// EditHistory
// ---------------------------------------------------------------------------

/// Tree-structured edit history with cursor-based undo and redo.
///
/// The root node holds the initial text as a snapshot; each later node holds
/// reversible patches or a full snapshot. The cursor is the current state.
pub struct EditHistory {
    tree: CursoredTree<HistoryEntry>,
    checkpoint_interval: u32,
    edits_since_checkpoint: u32,
    active_group_id: Option<u64>,
    group_counter: u64,
}

impl EditHistory {
    /// The history's nodes, by index path from the root.
    pub closed spec fn spec_nodes(self) -> Map<Seq<usize>, (u64, HistoryEntry)> {
        history_nodes(self.tree)
    }

    /// The index path of the current node.
    pub closed spec fn spec_cursor(self) -> Seq<usize> {
        history_cursor(self.tree)
    }

    pub closed spec fn spec_checkpoint_interval(self) -> u32 {
        self.checkpoint_interval
    }

    pub closed spec fn spec_edits_since_checkpoint(self) -> u32 {
        self.edits_since_checkpoint
    }

    pub closed spec fn spec_active_group(self) -> Option<u64> {
        self.active_group_id
    }

    pub closed spec fn spec_group_counter(self) -> u64 {
        self.group_counter
    }

    /// The entry of the current node.
    pub open spec fn spec_current(self) -> HistoryEntry {
        self.spec_nodes()[self.spec_cursor()].1
    }

    /// The history is a well-formed tree with the cursor on a node, and the
    /// edit counter stays below its maximum.
    pub open spec fn wf(self) -> bool {
        &&& tree_wf(self.spec_nodes(), self.spec_cursor())
        &&& self.spec_cursor().len() <= usize::MAX
        &&& self.spec_edits_since_checkpoint() < u32::MAX
    }

    /// Create a history whose root holds `initial_text` as snapshot and checkpoint.
    pub fn new(initial_text: &str) -> (h: Self)
        ensures
            h.wf(),
            h.spec_nodes().dom() == set![Seq::<usize>::empty()],
            h.spec_nodes()[Seq::<usize>::empty()].0 == 0,
            h.spec_cursor() == Seq::<usize>::empty(),
            h.spec_current().spec_label() == Seq::<char>::empty(),
            h.spec_current().spec_kind() == EntryKind::Snapshot,
            h.spec_current().spec_forward_patches() is None,
            h.spec_current().spec_inverse_patches() is None,
            h.spec_current().spec_snapshot() == Some(initial_text@),
            h.spec_current().spec_checkpoint() == Some(initial_text@),
            h.spec_current().spec_group_id() is None,
            h.spec_checkpoint_interval() == 20,
            h.spec_edits_since_checkpoint() == 0,
            h.spec_active_group() is None,
            h.spec_group_counter() == 0,
    {
        let root_entry = HistoryEntry {
            label: String::new(),
            kind: EntryKind::Snapshot,
            forward_patches: None,
            inverse_patches: None,
            snapshot: Some(initial_text.to_owned()),
            checkpoint: Some(initial_text.to_owned()),
            group_id: None,
        };
        let tree = ct_new(root_entry);
        let h = EditHistory {
            tree,
            checkpoint_interval: 20,
            edits_since_checkpoint: 0,
            active_group_id: None,
            group_counter: 0,
        };
        proof {
            let n = h.spec_nodes();
            assert(n.dom() =~= set![Seq::<usize>::empty()]);
            assert forall|p: Seq<usize>, k: int|
                #![trigger n.dom().contains(p), p.take(k)]
                n.dom().contains(p) && 0 <= k <= p.len() implies n.dom().contains(p.take(k)) by {
                assert(p.take(k) =~= Seq::<usize>::empty());
            }
            assert forall|p: Seq<usize>, i: usize, j: usize|
                #![trigger n.dom().contains(p.push(i)), p.push(j)]
                n.dom().contains(p.push(i)) && j < i implies n.dom().contains(p.push(j)) by {
                assert(p.push(i).len() > 0);
            }
        }
        h
    }

    /// The text a checkpoint records when the edit counter reaches the interval.
    pub open spec fn expected_checkpoint(
        self,
        current_text: Seq<u8>,
        forward: Seq<PatchView>,
    ) -> Option<Seq<char>> {
        if self.spec_edits_since_checkpoint() + 1 >= self.spec_checkpoint_interval() {
            Some(decode_utf8(spec_apply(current_text, forward)))
        } else {
            None
        }
    }

    fn maybe_checkpoint(&mut self, current_text: &str, forward: &[TextPatch]) -> (r: Option<String>)
        requires
            old(self).wf(),
            spec_validate(current_text.spec_bytes(), patch_views(forward@)) is Ok,
        ensures
            final(self).wf(),
            opt_chars(r) == old(self).expected_checkpoint(current_text.spec_bytes(), patch_views(forward@)),
            final(self).spec_edits_since_checkpoint() == if old(self).spec_edits_since_checkpoint() + 1
                >= old(self).spec_checkpoint_interval() {
                0
            } else {
                (old(self).spec_edits_since_checkpoint() + 1) as u32
            },
            final(self).tree == old(self).tree,
            final(self).checkpoint_interval == old(self).checkpoint_interval,
            final(self).active_group_id == old(self).active_group_id,
            final(self).group_counter == old(self).group_counter,
    {
        self.edits_since_checkpoint = self.edits_since_checkpoint + 1;
        if self.edits_since_checkpoint >= self.checkpoint_interval {
            self.edits_since_checkpoint = 0;
            match apply_patches(current_text, forward) {
                Ok(s) => {
                    proof {
                        vstd::utf8::encode_utf8_decode_utf8(s@);
                    }
                    Some(s)
                },
                Err(_) => None,
            }
        } else {
            None
        }
    }

    /// Record a reversible edit: `forward` applied to `current_text`. The
    /// inverse patches are computed from `current_text`. Returns the new node's id.
    pub fn push_edit(&mut self, label: &str, current_text: &str, forward: Vec<TextPatch>) -> (r: u64)
        requires
            old(self).wf(),
            spec_validate(current_text.spec_bytes(), patch_views(forward@)) is Ok,
            spec_apply(current_text.spec_bytes(), patch_views(forward@)).len() <= usize::MAX,
        ensures
            edit_recorded(
                *old(self),
                *final(self),
                r,
                label@,
                current_text.spec_bytes(),
                patch_views(forward@),
            ),
    {
        let inverse = inverse_patches(current_text, forward.as_slice());
        let checkpoint = self.maybe_checkpoint(current_text, forward.as_slice());
        let entry = HistoryEntry {
            label: label.to_owned(),
            kind: EntryKind::Reversible,
            forward_patches: Some(forward),
            inverse_patches: Some(inverse),
            snapshot: None,
            checkpoint,
            group_id: self.active_group_id,
        };
        let ghost n0 = history_nodes(self.tree);
        let ghost c0 = history_cursor(self.tree);
        let id = ct_push(&mut self.tree, entry);
        proof {
            lemma_push_wf(n0, c0, history_cursor(self.tree), id, entry);
        }
        id
    }

    /// Record an edit by the full text it leaves. Returns the new node's id.
    pub fn push_snapshot(&mut self, label: &str, full_text: String) -> (r: u64)
        requires
            old(self).wf(),
        ensures
            final(self).wf(),
            child_pushed(
                old(self).spec_nodes(),
                old(self).spec_cursor(),
                final(self).spec_nodes(),
                final(self).spec_cursor(),
                r,
                final(self).spec_current(),
            ),
            final(self).spec_current().spec_label() == label@,
            final(self).spec_current().spec_kind() == EntryKind::Snapshot,
            final(self).spec_current().spec_forward_patches() is None,
            final(self).spec_current().spec_inverse_patches() is None,
            final(self).spec_current().spec_snapshot() == Some(full_text@),
            final(self).spec_current().spec_checkpoint() == Some(full_text@),
            final(self).spec_current().spec_group_id() == old(self).spec_active_group(),
            final(self).spec_edits_since_checkpoint() == 0,
            final(self).spec_checkpoint_interval() == old(self).spec_checkpoint_interval(),
            final(self).spec_active_group() == old(self).spec_active_group(),
            final(self).spec_group_counter() == old(self).spec_group_counter(),
    {
        self.edits_since_checkpoint = 0;
        let entry = HistoryEntry {
            label: label.to_owned(),
            kind: EntryKind::Snapshot,
            forward_patches: None,
            inverse_patches: None,
            snapshot: Some(full_text.clone()),
            checkpoint: Some(full_text),
            group_id: self.active_group_id,
        };
        let ghost n0 = history_nodes(self.tree);
        let ghost c0 = history_cursor(self.tree);
        let id = ct_push(&mut self.tree, entry);
        proof {
            lemma_push_wf(n0, c0, history_cursor(self.tree), id, entry);
        }
        id
    }

    /// Begin a group of edits that undo and redo together. A call while a
    /// group is open changes nothing.
    pub fn begin_group(&mut self, _label: &str)
        requires
            old(self).spec_active_group() is None ==> old(self).spec_group_counter() < u64::MAX,
        ensures
            final(self).spec_nodes() == old(self).spec_nodes(),
            final(self).spec_cursor() == old(self).spec_cursor(),
            final(self).spec_checkpoint_interval() == old(self).spec_checkpoint_interval(),
            final(self).spec_edits_since_checkpoint() == old(self).spec_edits_since_checkpoint(),
            old(self).spec_active_group() is None ==> final(self).spec_group_counter()
                == old(self).spec_group_counter() + 1 && final(self).spec_active_group() == Some(
                final(self).spec_group_counter(),
            ),
            old(self).spec_active_group() is Some ==> final(self).spec_group_counter()
                == old(self).spec_group_counter() && final(self).spec_active_group()
                == old(self).spec_active_group(),
    {
        if self.active_group_id.is_none() {
            self.group_counter = self.group_counter + 1;
            self.active_group_id = Some(self.group_counter);
        }
    }

    /// End the current edit group, if any.
    pub fn end_group(&mut self)
        ensures
            final(self).spec_nodes() == old(self).spec_nodes(),
            final(self).spec_cursor() == old(self).spec_cursor(),
            final(self).spec_checkpoint_interval() == old(self).spec_checkpoint_interval(),
            final(self).spec_edits_since_checkpoint() == old(self).spec_edits_since_checkpoint(),
            final(self).spec_group_counter() == old(self).spec_group_counter(),
            final(self).spec_active_group() is None,
    {
        self.active_group_id = None;
    }

    /// The latest snapshot or checkpoint on the way from the root along the
    /// first `upto` indices of `path`, or `None` when that path leaves the tree.
    fn resolve_snapshot_at_path(&self, path: &[usize], upto: usize) -> (r: Option<String>)
        requires
            self.wf(),
            upto <= path@.len(),
        ensures
            opt_chars(r) == if self.spec_nodes().dom().contains(path@.take(upto as int)) {
                text_along(self.spec_nodes(), path@.take(upto as int), upto as int)
            } else {
                None
            },
    {
        let ghost n = self.spec_nodes();
        let ghost pth = path@.take(upto as int);
        let tree = ct_tree(&self.tree);
        let mut node = tree_root(tree);
        proof {
            assert(n.dom().contains(history_cursor(self.tree).take(0)));
            assert(history_cursor(self.tree).take(0) =~= Seq::<usize>::empty());
            assert(subtree(n, Seq::<usize>::empty()) =~= n) by {
                assert forall|q: Seq<usize>| #![auto] Seq::<usize>::empty() + q == q by {
                    assert(Seq::<usize>::empty() + q =~= q);
                }
            }
            assert(pth.take(0) =~= Seq::<usize>::empty());
        }
        let root = node_value(node);
        let mut latest: Option<&String> = match &root.snapshot {
            Some(s) => Some(s),
            None => match &root.checkpoint {
                Some(c) => Some(c),
                None => None,
            },
        };
        let mut k: usize = 0;
        while k < upto
            invariant
                self.wf(),
                n == self.spec_nodes(),
                pth == path@.take(upto as int),
                upto <= path@.len(),
                0 <= k <= upto,
                n.dom().contains(pth.take(k as int)),
                node_nodes(*node) == subtree(n, pth.take(k as int)),
                match latest {
                    Some(s) => Some(s@),
                    None => None::<Seq<char>>,
                } == text_along(n, pth, k as int),
            decreases upto - k,
        {
            let children = node_children(node);
            let index = path[k];
            assert(pth[k as int] == index);
            proof {
                lemma_subtree_child(n, pth.take(k as int), index);
                assert(pth.take(k as int).push(index) =~= pth.take(k + 1));
            }
            if index >= children.len() {
                proof {
                    assert(!n.dom().contains(pth.take(k + 1)));
                    if n.dom().contains(pth) {
                        assert(pth.take(k + 1) =~= pth.take(k + 1));
                        assert(n.dom().contains(pth.take(k + 1)));
                    }
                }
                return None;
            }
            node = &children[index];
            let e = node_value(node);
            proof {
                lemma_subtree_root(n, pth.take(k + 1));
            }
            if e.snapshot.is_some() {
                latest = e.snapshot.as_ref();
            } else if e.checkpoint.is_some() {
                latest = e.checkpoint.as_ref();
            }
            k = k + 1;
        }
        proof {
            assert(pth.take(upto as int) =~= pth);
        }
        match latest {
            Some(s) => Some(s.clone()),
            None => None,
        }
    }

    /// The text to restore when undoing the current node: the latest snapshot
    /// at or above its parent.
    fn find_parent_snapshot(&self) -> (r: Option<String>)
        requires
            self.wf(),
        ensures
            self.spec_cursor().len() > 0 ==> opt_chars(r) == text_along(
                self.spec_nodes(),
                self.spec_cursor(),
                self.spec_cursor().len() - 1,
            ),
            self.spec_cursor().len() == 0 ==> r is None,
    {
        let path = ct_cursor_path(&self.tree);
        if path.len() == 0 {
            return None;
        }
        let ghost c = self.spec_cursor();
        let r = self.resolve_snapshot_at_path(path, path.len() - 1);
        proof {
            let m = (c.len() - 1) as int;
            assert(self.spec_nodes().dom().contains(c.take(m)));
            lemma_text_along_prefix(self.spec_nodes(), c, m, m);
        }
        r
    }

    /// Undo the current node: report it and move to its parent.
    fn undo_one(&mut self) -> (r: Option<(Option<u64>, UndoResult)>)
        requires
            old(self).wf(),
        ensures
            final(self).wf(),
            final(self).spec_nodes() == old(self).spec_nodes(),
            final(self).checkpoint_interval == old(self).checkpoint_interval,
            final(self).edits_since_checkpoint == old(self).edits_since_checkpoint,
            final(self).active_group_id == old(self).active_group_id,
            final(self).group_counter == old(self).group_counter,
            r is None <==> old(self).spec_cursor().len() == 0,
            r is None ==> final(self).spec_cursor() == old(self).spec_cursor(),
            r is None ==> *final(self) == *old(self),
            r matches Some((g, u)) ==> {
                &&& g == old(self).spec_current().spec_group_id()
                &&& undo_matches(old(self).spec_nodes(), old(self).spec_cursor(), u)
                &&& final(self).spec_cursor() == old(self).spec_cursor().take(
                    old(self).spec_cursor().len() - 1,
                )
            },
    {
        if !ct_has_parent(&self.tree) {
            return None;
        }
        let ghost n = self.spec_nodes();
        let ghost c = self.spec_cursor();
        let entry = node_value(ct_current(&self.tree));
        proof {
            lemma_subtree_root(n, c);
        }
        let group_id = entry.group_id;
        let result = UndoResult {
            kind: entry.kind,
            inverse_patches: clone_patch_list(&entry.inverse_patches),
            snapshot: self.find_parent_snapshot(),
            label: entry.label.clone(),
        };
        ct_go_parent(&mut self.tree);
        proof {
            assert(n.dom().contains(c.take(c.len() - 1)));
        }
        Some((group_id, result))
    }

    /// Move to child `child_index` of the current node and report it.
    fn redo_child(&mut self, child_index: usize) -> (r: Option<(Option<u64>, RedoResult)>)
        requires
            old(self).wf(),
        ensures
            final(self).wf(),
            final(self).spec_nodes() == old(self).spec_nodes(),
            final(self).checkpoint_interval == old(self).checkpoint_interval,
            final(self).edits_since_checkpoint == old(self).edits_since_checkpoint,
            final(self).active_group_id == old(self).active_group_id,
            final(self).group_counter == old(self).group_counter,
            r is None <==> !old(self).spec_nodes().dom().contains(old(self).spec_cursor().push(child_index)),
            r is None ==> final(self).spec_cursor() == old(self).spec_cursor(),
            r matches Some((g, x)) ==> {
                &&& final(self).spec_cursor() == old(self).spec_cursor().push(child_index)
                &&& g == final(self).spec_current().spec_group_id()
                &&& redo_matches(old(self).spec_nodes(), final(self).spec_cursor(), x)
            },
    {
        if !ct_go_child(&mut self.tree, child_index) {
            return None;
        }
        let ghost n = self.spec_nodes();
        let ghost c = self.spec_cursor();
        let entry = node_value(ct_current(&self.tree));
        proof {
            lemma_subtree_root(n, c);
        }
        Some((
            entry.group_id,
            RedoResult {
                kind: entry.kind,
                forward_patches: clone_patch_list(&entry.forward_patches),
                snapshot: entry.snapshot.clone(),
                label: entry.label.clone(),
            },
        ))
    }

    /// The index of the newest child of the current node, if it has children.
    fn newest_child_index(&self) -> (r: Option<usize>)
        requires
            self.wf(),
        ensures
            r is None <==> !self.spec_nodes().dom().contains(self.spec_cursor().push(0)),
            r matches Some(j) ==> newest_child(self.spec_nodes(), self.spec_cursor(), j),
    {
        let ghost n = self.spec_nodes();
        let ghost c = self.spec_cursor();
        let children = node_children(ct_current(&self.tree));
        proof {
            lemma_subtree_child(n, c, 0);
        }
        if children.len() == 0 {
            return None;
        }
        let j = children.len() - 1;
        proof {
            lemma_subtree_child(n, c, j);
            lemma_subtree_child(n, c, (j + 1) as usize);
        }
        Some(j)
    }

    /// Redo into the newest child of the current node.
    fn redo_one(&mut self) -> (r: Option<(Option<u64>, RedoResult)>)
        requires
            old(self).wf(),
        ensures
            final(self).wf(),
            final(self).spec_nodes() == old(self).spec_nodes(),
            final(self).checkpoint_interval == old(self).checkpoint_interval,
            final(self).edits_since_checkpoint == old(self).edits_since_checkpoint,
            final(self).active_group_id == old(self).active_group_id,
            final(self).group_counter == old(self).group_counter,
            r is None <==> !old(self).spec_nodes().dom().contains(old(self).spec_cursor().push(0)),
            r is None ==> final(self).spec_cursor() == old(self).spec_cursor(),
            r is None ==> *final(self) == *old(self),
            r matches Some((g, x)) ==> {
                &&& final(self).spec_cursor().len() == old(self).spec_cursor().len() + 1
                &&& final(self).spec_cursor().take(old(self).spec_cursor().len() as int) == old(self).spec_cursor()
                &&& newest_child(old(self).spec_nodes(), old(self).spec_cursor(), final(self).spec_cursor().last())
                &&& g == final(self).spec_current().spec_group_id()
                &&& redo_matches(old(self).spec_nodes(), final(self).spec_cursor(), x)
            },
    {
        let ghost c = self.spec_cursor();
        match self.newest_child_index() {
            None => None,
            Some(j) => {
                let r = self.redo_child(j);
                proof {
                    assert(self.spec_cursor().take(c.len() as int) =~= c);
                }
                r
            },
        }
    }

    /// Undo the current edit, and with it the rest of its group: report each
    /// undone node and move the cursor above them. `None` at the root.
    pub fn undo(&mut self) -> (r: Option<Vec<UndoResult>>)
        requires
            old(self).wf(),
        ensures
            final(self).wf(),
            final(self).spec_nodes() == old(self).spec_nodes(),
            final(self).spec_checkpoint_interval() == old(self).spec_checkpoint_interval(),
            final(self).spec_edits_since_checkpoint() == old(self).spec_edits_since_checkpoint(),
            final(self).spec_active_group() == old(self).spec_active_group(),
            final(self).spec_group_counter() == old(self).spec_group_counter(),
            r is None <==> old(self).spec_cursor().len() == 0,
            r is None ==> *final(self) == *old(self),
            r matches Some(v) ==> {
                &&& undo_reports(old(self).spec_nodes(), old(self).spec_cursor(), v@)
                &&& final(self).spec_cursor() == old(self).spec_cursor().take(
                    old(self).spec_cursor().len() - v@.len(),
                )
            },
    {
        let ghost n = self.spec_nodes();
        let ghost c = self.spec_cursor();
        let mut results: Vec<UndoResult> = Vec::new();
        let (first_group_id, first_result) = match self.undo_one() {
            Some(x) => x,
            None => return None,
        };
        proof {
            assert(c.take(c.len() - 0) =~= c);
        }
        results.push(first_result);
        if let Some(group_id) = first_group_id {
            while ct_has_parent(&self.tree)
                invariant_except_break
                    self.wf(),
                    n == self.spec_nodes(),
                    1 <= results@.len() <= c.len(),
                    self.spec_cursor() == c.take(c.len() - results@.len()),
                    n[c].1.spec_group_id() == Some(group_id),
                    forall|i: int| 0 <= i < results@.len() ==> (#[trigger] n[c.take(c.len() - i)]).1.spec_group_id()
                        == Some(group_id),
                    forall|i: int|
                        0 <= i < results@.len() ==> undo_matches(n, c.take(c.len() - i), #[trigger] results@[i]),
                    self.checkpoint_interval == old(self).checkpoint_interval,
                    self.edits_since_checkpoint == old(self).edits_since_checkpoint,
                    self.active_group_id == old(self).active_group_id,
                    self.group_counter == old(self).group_counter,
                ensures
                    self.wf(),
                    n == self.spec_nodes(),
                    1 <= results@.len() <= c.len(),
                    self.spec_cursor() == c.take(c.len() - results@.len()),
                    forall|i: int| 0 <= i < results@.len() ==> (#[trigger] n[c.take(c.len() - i)]).1.spec_group_id()
                        == Some(group_id),
                    results@.len() == c.len() || n[c.take(c.len() - results@.len())].1.spec_group_id() != Some(group_id),
                    forall|i: int|
                        0 <= i < results@.len() ==> undo_matches(n, c.take(c.len() - i), #[trigger] results@[i]),
                    self.checkpoint_interval == old(self).checkpoint_interval,
                    self.edits_since_checkpoint == old(self).edits_since_checkpoint,
                    self.active_group_id == old(self).active_group_id,
                    self.group_counter == old(self).group_counter,
                decreases self.spec_cursor().len(),
            {
                let ghost cur = self.spec_cursor();
                let entry = node_value(ct_current(&self.tree));
                proof {
                    lemma_subtree_root(n, cur);
                }
                let same = match entry.group_id {
                    Some(g) => g == group_id,
                    None => false,
                };
                if !same {
                    break;
                }
                let (_, result) = match self.undo_one() {
                    Some(x) => x,
                    None => return None,
                };
                proof {
                    let m = results@.len() as int;
                    assert(cur.take(cur.len() - 1) =~= c.take(c.len() - (m + 1)));
                }
                results.push(result);
            }
        }
        Some(results)
    }

    /// Redo into the newest child, and on through the rest of its group: report
    /// each redone node. `None` when the current node has no children.
    pub fn redo(&mut self) -> (r: Option<Vec<RedoResult>>)
        requires
            old(self).wf(),
        ensures
            final(self).wf(),
            final(self).spec_nodes() == old(self).spec_nodes(),
            final(self).spec_checkpoint_interval() == old(self).spec_checkpoint_interval(),
            final(self).spec_edits_since_checkpoint() == old(self).spec_edits_since_checkpoint(),
            final(self).spec_active_group() == old(self).spec_active_group(),
            final(self).spec_group_counter() == old(self).spec_group_counter(),
            r is None <==> !old(self).spec_nodes().dom().contains(old(self).spec_cursor().push(0)),
            r is None ==> *final(self) == *old(self),
            r matches Some(v) ==> redo_reports(
                old(self).spec_nodes(),
                old(self).spec_cursor(),
                final(self).spec_cursor(),
                v@,
            ),
    {
        let ghost n = self.spec_nodes();
        let ghost c = self.spec_cursor();
        let mut results: Vec<RedoResult> = Vec::new();
        let (first_group_id, first_result) = match self.redo_one() {
            Some(x) => x,
            None => return None,
        };
        proof {
            let c1 = self.spec_cursor();
            assert(c1.take(c.len() + 1int) =~= c1);
        }
        results.push(first_result);
        if let Some(group_id) = first_group_id {
            while ct_has_children(&self.tree)
                invariant_except_break
                    self.wf(),
                    n == self.spec_nodes(),
                    results@.len() >= 1,
                    self.spec_cursor().len() == c.len() + results@.len(),
                    self.spec_cursor().take(c.len() as int) == c,
                    forall|i: int|
                        c.len() <= i < self.spec_cursor().len() ==> #[trigger] newest_child(
                            n,
                            self.spec_cursor().take(i),
                            self.spec_cursor()[i],
                        ),
                    n[self.spec_cursor().take(c.len() + 1int)].1.spec_group_id() == Some(group_id),
                    forall|i: int|
                        c.len() < i <= self.spec_cursor().len() ==> (#[trigger] n[self.spec_cursor().take(
                            i,
                        )]).1.spec_group_id() == Some(group_id),
                    forall|i: int|
                        0 <= i < results@.len() ==> redo_matches(
                            n,
                            self.spec_cursor().take(c.len() + i + 1),
                            #[trigger] results@[i],
                        ),
                    self.checkpoint_interval == old(self).checkpoint_interval,
                    self.edits_since_checkpoint == old(self).edits_since_checkpoint,
                    self.active_group_id == old(self).active_group_id,
                    self.group_counter == old(self).group_counter,
                ensures
                    self.wf(),
                    n == self.spec_nodes(),
                    redo_run(n, c, self.spec_cursor(), results@.len() as int),
                    forall|i: int|
                        0 <= i < results@.len() ==> redo_matches(
                            n,
                            self.spec_cursor().take(c.len() + i + 1),
                            #[trigger] results@[i],
                        ),
                    self.checkpoint_interval == old(self).checkpoint_interval,
                    self.edits_since_checkpoint == old(self).edits_since_checkpoint,
                    self.active_group_id == old(self).active_group_id,
                    self.group_counter == old(self).group_counter,
                decreases usize::MAX - self.spec_cursor().len(),
            {
                let ghost cur = self.spec_cursor();
                let next_index = match self.newest_child_index() {
                    Some(j) => j,
                    None => break,
                };
                let children = node_children(ct_current(&self.tree));
                proof {
                    lemma_subtree_child(n, cur, next_index);
                    lemma_subtree_root(n, cur.push(next_index));
                    lemma_subtree_root(subtree(n, cur), seq![next_index]);
                }
                let next_entry = node_value(&children[next_index]);
                let same = match next_entry.group_id {
                    Some(g) => g == group_id,
                    None => false,
                };
                if !same {
                    proof {
                        assert forall|j: usize| #[trigger] newest_child(n, cur, j) implies n[cur.push(j)].1.spec_group_id()
                            != Some(group_id) by {
                            if j < next_index {
                                assert(n.dom().contains(cur.push((j + 1) as usize)));
                            } else if j > next_index {
                                assert(n.dom().contains(cur.push((next_index + 1) as usize)));
                            }
                        }
                    }
                    break;
                }
                let (_, result) = match self.redo_one() {
                    Some(x) => x,
                    None => return None,
                };
                proof {
                    let c1 = self.spec_cursor();
                    assert(c1 =~= cur.push(c1.last()));
                    assert forall|i: int| 0 <= i <= cur.len() implies #[trigger] c1.take(i) == cur.take(i) by {
                        assert(c1.take(i) =~= cur.take(i));
                    }
                    assert(c1.take(c1.len() as int) =~= c1);
                }
                results.push(result);
            }
            proof {
                let c1 = self.spec_cursor();
                if !n.dom().contains(c1.push(0)) {
                    assert forall|j: usize| #[trigger] newest_child(n, c1, j) implies n[c1.push(j)].1.spec_group_id()
                        != Some(group_id) by {
                        assert(n.dom().contains(c1.push(0)));
                    }
                }
            }
        } else {
            proof {
                let c1 = self.spec_cursor();
                assert(c1.take(c.len() + 1int) =~= c1);
            }
        }
        Some(results)
    }

    /// Jump to the node with id `id`: undo up to the lowest common ancestor
    /// of the current node and the target, then redo down to the target, and
    /// report each step. `None` when no node has that id.
    pub fn jump_to(&mut self, id: u64) -> (r: Option<Vec<JumpStep>>)
        requires
            old(self).wf(),
        ensures
            final(self).wf(),
            final(self).spec_nodes() == old(self).spec_nodes(),
            final(self).spec_checkpoint_interval() == old(self).spec_checkpoint_interval(),
            final(self).spec_edits_since_checkpoint() == old(self).spec_edits_since_checkpoint(),
            final(self).spec_active_group() == old(self).spec_active_group(),
            final(self).spec_group_counter() == old(self).spec_group_counter(),
            r is None <==> !has_id(old(self).spec_nodes(), id),
            r is None ==> final(self).spec_cursor() == old(self).spec_cursor(),
            r matches Some(steps) ==> {
                &&& final(self).spec_cursor() == path_of(old(self).spec_nodes(), id)
                &&& jump_matches(old(self).spec_nodes(), old(self).spec_cursor(), final(self).spec_cursor(), steps@)
            },
    {
        let ghost n = self.spec_nodes();
        let ghost c = self.spec_cursor();
        let current_id = ct_current_id(&self.tree);
        let current_path = match tree_find_path_to(ct_tree(&self.tree), current_id) {
            Some(p) => p,
            None => {
                return None;
            },
        };
        let target_path = match tree_find_path_to(ct_tree(&self.tree), id) {
            Some(p) => p,
            None => {
                return None;
            },
        };
        let ghost t = target_path@;
        proof {
            assert(current_path@ == c);
            assert(has_id(n, id));
            let q = path_of(n, id);
            assert(n.dom().contains(q) && n[q].0 == id);
            assert(q == t);
        }
        let mut lca_depth: usize = 0;
        while lca_depth < current_path.len() && lca_depth < target_path.len()
            && current_path[lca_depth] == target_path[lca_depth]
            invariant
                current_path@ == c,
                target_path@ == t,
                0 <= lca_depth <= c.len(),
                lca_depth <= t.len(),
                common_from(c, t, 0) == common_from(c, t, lca_depth as int),
            decreases c.len() - lca_depth,
        {
            lca_depth = lca_depth + 1;
        }
        let ghost l = lca_depth as int;
        proof {
            assert(common_from(c, t, l) == l);
            assert(c.take(0) =~= t.take(0));
            lemma_common_prefix(c, t, 0);
        }
        let mut steps: Vec<JumpStep> = Vec::new();
        let undo_count = current_path.len() - lca_depth;
        let mut done: usize = 0;
        while done < undo_count
            invariant
                self.wf(),
                n == self.spec_nodes(),
                undo_count == c.len() - l,
                0 <= l,
                0 <= done <= undo_count,
                self.spec_cursor() == c.take(c.len() - done),
                steps@.len() == done,
                forall|i: int|
                    0 <= i < done ==> (#[trigger] steps@[i] matches JumpStep::Undo(u) && undo_matches(
                        n,
                        c.take(c.len() - i),
                        u,
                    )),
                self.checkpoint_interval == old(self).checkpoint_interval,
                self.edits_since_checkpoint == old(self).edits_since_checkpoint,
                self.active_group_id == old(self).active_group_id,
                self.group_counter == old(self).group_counter,
            decreases undo_count - done,
        {
            let ghost cur = self.spec_cursor();
            if let Some((_, result)) = self.undo_one() {
                proof {
                    assert(cur.take(cur.len() - 1) =~= c.take(c.len() - (done + 1)));
                }
                steps.push(JumpStep::Undo(result));
            }
            done = done + 1;
        }
        proof {
            assert(self.spec_cursor() =~= t.take(l));
        }
        let mut k: usize = lca_depth;
        while k < target_path.len()
            invariant
                self.wf(),
                n == self.spec_nodes(),
                target_path@ == t,
                n.dom().contains(t),
                0 <= l <= c.len(),
                l <= k <= t.len(),
                self.spec_cursor() == t.take(k as int),
                steps@.len() == (c.len() - l) + (k - l),
                forall|i: int|
                    0 <= i < c.len() - l ==> (#[trigger] steps@[i] matches JumpStep::Undo(u) && undo_matches(
                        n,
                        c.take(c.len() - i),
                        u,
                    )),
                forall|j: int|
                    0 <= j < k - l ==> (#[trigger] steps@[(c.len() - l) + j] matches JumpStep::Redo(x)
                        && redo_matches(n, t.take(l + j + 1), x)),
                self.checkpoint_interval == old(self).checkpoint_interval,
                self.edits_since_checkpoint == old(self).edits_since_checkpoint,
                self.active_group_id == old(self).active_group_id,
                self.group_counter == old(self).group_counter,
            decreases t.len() - k,
        {
            let child_index = target_path[k];
            proof {
                assert(t.take(k as int).push(child_index) =~= t.take(k + 1));
                assert(n.dom().contains(t.take(k + 1)));
            }
            let ghost before = steps@;
            if let Some((_, result)) = self.redo_child(child_index) {
                steps.push(JumpStep::Redo(result));
                proof {
                    assert(steps@[(c.len() - l) + (k - l)] == JumpStep::Redo(result));
                    assert forall|i: int| 0 <= i < before.len() implies #[trigger] steps@[i] == before[i] by {}
                }
            }
            k = k + 1;
        }
        proof {
            assert(t.take(t.len() as int) =~= t);
        }
        Some(steps)
    }

    /// Whether undo is possible (the current node is not the root).
    pub fn can_undo(&self) -> (r: bool)
        ensures
            r == (self.spec_cursor().len() > 0),
    {
        ct_has_parent(&self.tree)
    }

    /// Whether redo is possible (the current node has children).
    pub fn can_redo(&self) -> (r: bool)
        ensures
            r == self.spec_nodes().dom().contains(self.spec_cursor().push(0)),
    {
        ct_has_children(&self.tree)
    }

    /// Id of the current node.
    pub fn current_id(&self) -> (r: u64)
        ensures
            r == self.spec_nodes()[self.spec_cursor()].0,
    {
        ct_current_id(&self.tree)
    }

    /// Label of the current node.
    pub fn current_label(&self) -> (r: &str)
        requires
            self.wf(),
        ensures
            r@ == self.spec_current().spec_label(),
    {
        let entry = node_value(ct_current(&self.tree));
        proof {
            lemma_subtree_root(self.spec_nodes(), self.spec_cursor());
        }
        entry.label()
    }

    /// Entry of the current node.
    pub fn current_entry(&self) -> (r: &HistoryEntry)
        requires
            self.wf(),
        ensures
            *r == self.spec_current(),
    {
        let entry = node_value(ct_current(&self.tree));
        proof {
            lemma_subtree_root(self.spec_nodes(), self.spec_cursor());
        }
        entry
    }

    /// Set the number of edits between automatic checkpoints (20 by default).
    pub fn set_checkpoint_interval(&mut self, interval: u32)
        ensures
            final(self).spec_nodes() == old(self).spec_nodes(),
            final(self).spec_cursor() == old(self).spec_cursor(),
            final(self).spec_checkpoint_interval() == interval,
            final(self).spec_edits_since_checkpoint() == old(self).spec_edits_since_checkpoint(),
            final(self).spec_active_group() == old(self).spec_active_group(),
            final(self).spec_group_counter() == old(self).spec_group_counter(),
    {
        self.checkpoint_interval = interval;
    }

    /// Prune old branches as `policy` says: keep the newest `n` children of
    /// every node, or the nodes less than `d` steps below the root. The root
    /// stays.
    pub fn prune(&mut self, policy: PruneRule)
        requires
            old(self).wf(),
        ensures
            final(self).wf(),
            final(self).spec_nodes() == pruned_nodes(old(self).spec_nodes(), prune_rule(policy)),
            final(self).spec_nodes()[Seq::<usize>::empty()] == old(self).spec_nodes()[Seq::<usize>::empty()],
            final(self).spec_checkpoint_interval() == old(self).spec_checkpoint_interval(),
            final(self).spec_edits_since_checkpoint() == old(self).spec_edits_since_checkpoint(),
            final(self).spec_active_group() == old(self).spec_active_group(),
            final(self).spec_group_counter() == old(self).spec_group_counter(),
    {
        ct_prune(&mut self.tree, policy);
        proof {
            let n0 = old(self).spec_nodes();
            let root = Seq::<usize>::empty();
            assert(old(self).spec_cursor().take(0) =~= root);
            assert(n0.dom().contains(root));
            assert(kept_origin(n0, root, prune_rule(policy).1) == root);
            assert(kept_last(n0, root, prune_rule(policy).1));
        }
    }

    /// Read-only access to the underlying tree.
    pub fn tree(&self) -> (r: &Tree<HistoryEntry>)
        ensures
            tree_nodes(*r) == self.spec_nodes(),
    {
        ct_tree(&self.tree)
    }

    /// Read-only access to the underlying cursored tree.
    pub fn cursored_tree(&self) -> (r: &CursoredTree<HistoryEntry>)
        ensures
            history_nodes(*r) == self.spec_nodes(),
            history_cursor(*r) == self.spec_cursor(),
    {
        &self.tree
    }
}

} // verus!
