use vstd::prelude::*;
use crate::style::Style;

verus! {

/// Failure of a child-list operation. A failed operation leaves the tree as it was.
#[derive(Debug, Clone, PartialEq, Eq, Hash)]
pub enum ChildAddError {
    /// The node cannot hold children.
    ChildrenNotSupported,
    /// The insertion index lies past the end of the child list.
    OutOfBounds,
    /// A described failure, such as an anchor child that is not present.
    GenericError(String),
}

/// Identifier of a node: its index in the tree's arena.
pub type NodeId = usize;

/// Abstract state of one node.
pub struct NodeView {
    pub children: Seq<NodeId>,
    pub parent: Option<NodeId>,
    pub holds: bool,
    pub style: Style,
}

struct TreeNode {
    style: Style,
    supports_children: bool,
    children: Vec<NodeId>,
    parent: Option<NodeId>,
}

/// The retained scene tree: an arena of nodes addressed by `NodeId`,
/// each with an ordered child list and a non-owning parent link.
pub struct NodeTree {
    nodes: Vec<TreeNode>,
}

/// Position of `c` in `s` (meaningful when `s` holds `c`).
pub open spec fn index_in(s: Seq<NodeId>, c: NodeId) -> int {
    choose|i: int| 0 <= i < s.len() && s[i] == c
}

/// `s` with its occurrence of `c` taken out, if any.
#[verifier::opaque]
pub open spec fn without(s: Seq<NodeId>, c: NodeId) -> Seq<NodeId> {
    if s.contains(c) {
        s.remove(index_in(s, c))
    } else {
        s
    }
}

/// The list after `c` is put at `index` of `s`: an earlier occurrence of `c`
/// is taken out first, and `index` counts positions of `s` itself, so that
/// `c` lands just before the element that was at `index`.
#[verifier::opaque]
pub open spec fn placed(s: Seq<NodeId>, c: NodeId, index: int) -> Seq<NodeId> {
    let at = if s.contains(c) && index_in(s, c) < index {
        index - 1
    } else {
        index
    };
    without(s, c).insert(at, c)
}

/// Consistency of the links of an abstract tree: ids are in range, child lists hold no
/// duplicates, nodes without child support hold none, and every child link
/// agrees with the parent link of the child, both ways.
#[verifier::opaque]
pub open spec fn links_wf(v: Seq<NodeView>) -> bool {
    &&& v.len() <= usize::MAX
    &&& forall|n: int, j: int|
        0 <= n < v.len() && 0 <= j < v[n].children.len() ==> (#[trigger] v[n].children[j] as int)
            < v.len() && v[v[n].children[j] as int].parent == Some(n as NodeId)
    &&& forall|n: int| 0 <= n < v.len() ==> (#[trigger] v[n].children).no_duplicates()
    &&& forall|n: int| 0 <= n < v.len() && !(#[trigger] v[n].holds) ==> v[n].children.len() == 0
    &&& forall|c: int|
        0 <= c < v.len() && (#[trigger] v[c].parent).is_some() ==> (v[c].parent.unwrap() as int)
            < v.len() && v[v[c].parent.unwrap() as int].children.contains(c as NodeId)
}

/// Following parent links from `n` reaches a node without parent within
/// `k` steps.
pub open spec fn reaches_root(v: Seq<NodeView>, n: NodeId, k: nat) -> bool
    decreases k,
{
    (n as int) < v.len() && match v[n as int].parent {
        None => true,
        Some(p) => k > 0 && reaches_root(v, p, (k - 1) as nat),
    }
}

/// The parent links from `n` end at a node without parent.
pub open spec fn rooted(v: Seq<NodeView>, n: NodeId) -> bool {
    exists|k: nat| #[trigger] reaches_root(v, n, k)
}

/// No node is its own ancestor.
pub open spec fn acyclic(v: Seq<NodeView>) -> bool {
    forall|n: NodeId| (n as int) < v.len() ==> #[trigger] rooted(v, n)
}

/// `c` is met following parent links from `a` (`a` itself included) within
/// `k` steps.
pub open spec fn on_chain(v: Seq<NodeView>, a: NodeId, c: NodeId, k: nat) -> bool
    decreases k,
{
    a == c || ((a as int) < v.len() && match v[a as int].parent {
        None => false,
        Some(p) => k > 0 && on_chain(v, p, c, (k - 1) as nat),
    })
}

/// `c` is `a` or one of its ancestors.
pub open spec fn above(v: Seq<NodeView>, c: NodeId, a: NodeId) -> bool {
    exists|k: nat| #[trigger] on_chain(v, a, c, k)
}

/// A well-formed tree: consistent links and no cycle.
pub open spec fn tree_wf(v: Seq<NodeView>) -> bool {
    links_wf(v) && acyclic(v)
}

proof fn lemma_rooted_keep(v: Seq<NodeView>, w: Seq<NodeView>, n: NodeId, k: nat)
    requires
        v.len() <= w.len(),
        forall|m: int| 0 <= m < v.len() ==> (#[trigger] w[m]).parent == v[m].parent || w[m].parent is None,
        reaches_root(v, n, k),
    ensures
        reaches_root(w, n, k),
    decreases k,
{
    if let Some(p) = w[n as int].parent {
        lemma_rooted_keep(v, w, p, (k - 1) as nat);
    }
}

proof fn lemma_acyclic_keep(v: Seq<NodeView>, w: Seq<NodeView>)
    requires
        acyclic(v),
        v.len() <= w.len(),
        forall|m: int| 0 <= m < v.len() ==> (#[trigger] w[m]).parent == v[m].parent || w[m].parent is None,
        forall|m: int| v.len() <= m < w.len() ==> (#[trigger] w[m]).parent is None,
    ensures
        acyclic(w),
{
    assert forall|n: NodeId| (n as int) < w.len() implies #[trigger] rooted(w, n) by {
        if (n as int) < v.len() {
            assert(rooted(v, n));
            let k = choose|k: nat| #[trigger] reaches_root(v, n, k);
            lemma_rooted_keep(v, w, n, k);
        } else {
            assert(w[n as int].parent is None);
            assert(reaches_root(w, n, 0));
        }
    }
}

proof fn lemma_chain_bound(v: Seq<NodeView>, a: NodeId, c: NodeId, k: nat, kr: nat)
    requires
        reaches_root(v, a, kr),
        on_chain(v, a, c, k),
    ensures
        on_chain(v, a, c, kr),
    decreases k,
{
    if a != c {
        let p = v[a as int].parent.unwrap();
        lemma_chain_bound(v, p, c, (k - 1) as nat, (kr - 1) as nat);
    }
}

proof fn lemma_rooted_off_chain(v: Seq<NodeView>, w: Seq<NodeView>, child: NodeId, m: NodeId, k: nat)
    requires
        w.len() == v.len(),
        parents_kept(v, w, child as int),
        reaches_root(v, m, k),
        !on_chain(v, m, child, k),
    ensures
        reaches_root(w, m, k),
    decreases k,
{
    assert(m != child);
    assert(w[m as int].parent == v[m as int].parent);
    if let Some(p) = v[m as int].parent {
        lemma_rooted_off_chain(v, w, child, p, (k - 1) as nat);
    }
}

proof fn lemma_rooted_moved(v: Seq<NodeView>, w: Seq<NodeView>, parent: NodeId, child: NodeId, n: NodeId, k: nat, kp: nat)
    requires
        w.len() == v.len(),
        parents_kept(v, w, child as int),
        (child as int) < v.len(),
        w[child as int].parent == Some(parent),
        reaches_root(w, parent, kp),
        reaches_root(v, n, k),
    ensures
        rooted(w, n),
    decreases k,
{
    if n == child {
        assert(reaches_root(w, n, kp + 1));
    } else {
        assert(w[n as int].parent == v[n as int].parent);
        match v[n as int].parent {
            None => {
                assert(reaches_root(w, n, 0));
            },
            Some(p) => {
                lemma_rooted_moved(v, w, parent, child, p, (k - 1) as nat, kp);
                let k2 = choose|k2: nat| #[trigger] reaches_root(w, p, k2);
                assert(reaches_root(w, n, k2 + 1));
            },
        }
    }
}

/// Linking `child` under `parent`, where `child` is neither `parent` nor one
/// of its ancestors, keeps the tree free of cycles.
proof fn lemma_acyclic_move(v: Seq<NodeView>, w: Seq<NodeView>, parent: NodeId, child: NodeId)
    requires
        acyclic(v),
        w.len() == v.len(),
        (parent as int) < v.len(),
        (child as int) < v.len(),
        parents_kept(v, w, child as int),
        w[child as int].parent == Some(parent),
        !above(v, child, parent),
    ensures
        acyclic(w),
{
    assert(rooted(v, parent));
    let kp = choose|k: nat| #[trigger] reaches_root(v, parent, k);
    assert(!on_chain(v, parent, child, kp));
    lemma_rooted_off_chain(v, w, child, parent, kp);
    assert forall|n: NodeId| (n as int) < w.len() implies #[trigger] rooted(w, n) by {
        assert(rooted(v, n));
        let k = choose|k: nat| #[trigger] reaches_root(v, n, k);
        lemma_rooted_moved(v, w, parent, child, n, k, kp);
    }
}

/// Every node other than `a` and `b` keeps its children, and every node keeps
/// its child support and style.
pub open spec fn frame(old: Seq<NodeView>, new: Seq<NodeView>, a: int, b: int) -> bool {
    &&& new.len() == old.len()
    &&& forall|n: int| 0 <= n < old.len() && n != a && n != b ==> #[trigger] new[n].children == old[n].children
    &&& forall|n: int| 0 <= n < old.len() ==> #[trigger] new[n].holds == old[n].holds && new[n].style == old[n].style
}

/// `new` is `old` after `child` was put at `index` of the list of `parent`:
/// taken out of the list of its former parent, if that is another node,
/// placed in the list of `parent`, and linked back to it; nothing else changes.
pub open spec fn moved_to(old: Seq<NodeView>, new: Seq<NodeView>, parent: NodeId, child: NodeId, index: int) -> bool {
    let former = old[child as int].parent;
    &&& new[parent as int].children == placed(old[parent as int].children, child, index)
    &&& new[child as int].parent == Some(parent)
    &&& parents_kept(old, new, child as int)
    &&& frame(old, new, parent as int, former.unwrap_or(parent) as int)
    &&& (former is Some && former.unwrap() != parent ==> new[former.unwrap() as int].children
        == without(old[former.unwrap() as int].children, child))
    &&& sole_parent(new, child, parent)
}

/// `c` sits in the child list of `p` and of no other node, and its parent
/// link names `p`.
pub open spec fn sole_parent(v: Seq<NodeView>, c: NodeId, p: NodeId) -> bool {
    &&& v[c as int].parent == Some(p)
    &&& v[p as int].children.contains(c)
    &&& forall|n: int| 0 <= n < v.len() && n != p ==> !#[trigger] v[n].children.contains(c)
}

/// `new` is `old` after `child` was taken out of the list of `parent` and
/// its parent link cleared; nothing else changes.
pub open spec fn removed_from(old: Seq<NodeView>, new: Seq<NodeView>, parent: NodeId, child: NodeId) -> bool {
    &&& new[parent as int].children == without(old[parent as int].children, child)
    &&& new[child as int].parent is None
    &&& parents_kept(old, new, child as int)
    &&& frame(old, new, parent as int, parent as int)
}

/// Every node other than `c` keeps its parent link.
pub open spec fn parents_kept(old: Seq<NodeView>, new: Seq<NodeView>, c: int) -> bool {
    forall|n: int| 0 <= n < old.len() && n != c ==> #[trigger] new[n].parent == old[n].parent
}

impl View for TreeNode {
    type V = NodeView;

    closed spec fn view(&self) -> NodeView {
        NodeView {
            children: self.children@,
            parent: self.parent,
            holds: self.supports_children,
            style: self.style,
        }
    }
}

impl View for NodeTree {
    type V = Seq<NodeView>;

    closed spec fn view(&self) -> Seq<NodeView> {
        self.nodes@.map_values(|n: TreeNode| n@)
    }
}


proof fn lemma_wf_child(v: Seq<NodeView>, n: int, x: NodeId)
    requires
        links_wf(v),
        0 <= n < v.len(),
        v[n].children.contains(x),
    ensures
        (x as int) < v.len(),
        v[x as int].parent == Some(n as NodeId),
{
    reveal(links_wf);
    let k = choose|k: int| 0 <= k < v[n].children.len() && v[n].children[k] == x;
    assert(v[n].children[k] == x);
}

proof fn lemma_wf_node(v: Seq<NodeView>, n: int)
    requires
        links_wf(v),
        0 <= n < v.len(),
    ensures
        v.len() <= usize::MAX,
        v[n].children.no_duplicates(),
        !v[n].holds ==> v[n].children.len() == 0,
        v[n].parent is Some ==> (v[n].parent.unwrap() as int) < v.len() && v[v[n].parent.unwrap() as int].children.contains(n as NodeId),
{
    reveal(links_wf);
    assert(v[n].children.no_duplicates());
}

/// In a list without duplicates, `index_in` finds the position of each element.
pub proof fn lemma_index_in(s: Seq<NodeId>, i: int)
    requires
        s.no_duplicates(),
        0 <= i < s.len(),
    ensures
        index_in(s, s[i]) == i,
        s.contains(s[i]),
{
    let c = s[i];
    assert(s.contains(c));
    let k = index_in(s, c);
    assert(0 <= k < s.len() && s[k] == c);
}

proof fn lemma_remove_props(s: Seq<NodeId>, i: int)
    requires
        s.no_duplicates(),
        0 <= i < s.len(),
    ensures
        s.remove(i).no_duplicates(),
        !s.remove(i).contains(s[i]),
        forall|x: NodeId| x != s[i] ==> (s.contains(x) <==> s.remove(i).contains(x)),
{
    let r = s.remove(i);
    assert forall|a: int, b: int| 0 <= a < b < r.len() implies r[a] != r[b] by {
        let a2 = if a < i { a } else { a + 1 };
        let b2 = if b < i { b } else { b + 1 };
        assert(r[a] == s[a2] && r[b] == s[b2]);
    }
    assert forall|x: NodeId| x != s[i] implies (s.contains(x) <==> r.contains(x)) by {
        if s.contains(x) {
            let k = choose|k: int| 0 <= k < s.len() && s[k] == x;
            if k < i {
                assert(r[k] == x);
            } else {
                assert(k != i);
                assert(r[k - 1] == x);
            }
        }
        if r.contains(x) {
            let k = choose|k: int| 0 <= k < r.len() && r[k] == x;
            if k < i {
                assert(s[k] == x);
            } else {
                assert(s[k + 1] == x);
            }
        }
    }
    assert forall|k: int| 0 <= k < r.len() implies r[k] != s[i] by {
        if k < i {
            assert(r[k] == s[k]);
        } else {
            assert(r[k] == s[k + 1]);
        }
    }
}

proof fn lemma_insert_props(s: Seq<NodeId>, at: int, c: NodeId)
    requires
        s.no_duplicates(),
        !s.contains(c),
        0 <= at <= s.len(),
    ensures
        s.insert(at, c).no_duplicates(),
        s.insert(at, c).contains(c),
        forall|x: NodeId| x != c ==> (s.contains(x) <==> s.insert(at, c).contains(x)),
        s.insert(at, c).len() == s.len() + 1,
{
    let r = s.insert(at, c);
    s.insert_ensures(at, c);
    assert(r[at] == c);
    assert forall|a: int, b: int| 0 <= a < b < r.len() implies r[a] != r[b] by {
        if a == at {
            assert(r[b] == s[b - 1]);
        } else if b == at {
            assert(r[a] == s[a]);
        } else {
            let a2 = if a < at { a } else { a - 1 };
            let b2 = if b < at { b } else { b - 1 };
            assert(r[a] == s[a2] && r[b] == s[b2]);
        }
    }
    assert forall|x: NodeId| x != c implies (s.contains(x) <==> r.contains(x)) by {
        if s.contains(x) {
            let k = choose|k: int| 0 <= k < s.len() && s[k] == x;
            if k < at {
                assert(r[k] == x);
            } else {
                assert(r[k + 1] == x);
            }
        }
        if r.contains(x) {
            let k = choose|k: int| 0 <= k < r.len() && r[k] == x;
            if k < at {
                assert(s[k] == x);
            } else {
                assert(k != at);
                assert(s[k - 1] == x);
            }
        }
    }
}

/// Single parent: a node that appears in the child lists of two nodes
/// appears in one list only, and its parent link names that node.
pub proof fn lemma_single_parent(v: Seq<NodeView>, c: NodeId, p: NodeId, q: NodeId)
    requires
        tree_wf(v),
        p < v.len(),
        q < v.len(),
        v[p as int].children.contains(c),
        v[q as int].children.contains(c),
    ensures
        p == q,
        v[c as int].parent == Some(p),
{
    reveal(links_wf);
    let i = choose|i: int| 0 <= i < v[p as int].children.len() && v[p as int].children[i] == c;
    let j = choose|j: int| 0 <= j < v[q as int].children.len() && v[q as int].children[j] == c;
    assert(v[p as int].children[i] == c);
    assert(v[q as int].children[j] == c);
}

/// A change that keeps every node's children, parent link and child support
/// keeps the tree well formed.
proof fn lemma_same_shape(v0: Seq<NodeView>, v: Seq<NodeView>)
    requires
        links_wf(v0),
        v.len() == v0.len(),
        forall|n: int|
            0 <= n < v0.len() ==> (#[trigger] v[n]).children == v0[n].children && v[n].parent
                == v0[n].parent && v[n].holds == v0[n].holds,
    ensures
        links_wf(v),
{
    reveal(links_wf);
    assert forall|n: int, j: int|
        0 <= n < v.len() && 0 <= j < v[n].children.len() implies (#[trigger] v[n].children[j] as int)
        < v.len() && v[v[n].children[j] as int].parent == Some(n as NodeId) by {
        assert(v0[n].children[j] == v[n].children[j]);
        assert(v[v[n].children[j] as int] == v[v0[n].children[j] as int]);
    }
    assert forall|n: int| 0 <= n < v.len() implies (#[trigger] v[n].children).no_duplicates() by {
        assert(v[n].children == v0[n].children);
    }
    assert forall|n: int| 0 <= n < v.len() && !(#[trigger] v[n].holds) implies v[n].children.len()
        == 0 by {
        assert(v[n].children == v0[n].children);
    }
    assert forall|c: int| 0 <= c < v.len() && (#[trigger] v[c].parent).is_some() implies (
    v[c].parent.unwrap() as int) < v.len() && v[v[c].parent.unwrap() as int].children.contains(
        c as NodeId,
    ) by {
        assert(v0[c].parent == v[c].parent);
        assert(v[v[c].parent.unwrap() as int].children == v0[v0[c].parent.unwrap() as int].children);
    }
}


proof fn lemma_without(s: Seq<NodeId>, c: NodeId)
    requires
        s.no_duplicates(),
    ensures
        without(s, c).no_duplicates(),
        !without(s, c).contains(c),
        forall|x: NodeId| x != c ==> (s.contains(x) <==> #[trigger] without(s, c).contains(x)),
        s.contains(c) ==> without(s, c).len() == s.len() - 1,
        !s.contains(c) ==> without(s, c) == s,
        s.contains(c) ==> without(s, c) == s.remove(index_in(s, c)),
{
    reveal(without);
    if s.contains(c) {
        let i = index_in(s, c);
        lemma_remove_props(s, i);
    }
}

proof fn lemma_placed(s: Seq<NodeId>, c: NodeId, index: int)
    requires
        s.no_duplicates(),
        0 <= index <= s.len(),
    ensures
        placed(s, c, index).no_duplicates(),
        placed(s, c, index).contains(c),
        forall|x: NodeId| x != c ==> (s.contains(x) <==> #[trigger] placed(s, c, index).contains(x)),
        s.contains(c) ==> placed(s, c, index).len() == s.len(),
        !s.contains(c) ==> placed(s, c, index).len() == s.len() + 1,
{
    lemma_without(s, c);
    reveal(placed);
    let at = if s.contains(c) && index_in(s, c) < index {
        index - 1
    } else {
        index
    };
    if s.contains(c) {
        let i = index_in(s, c);
        assert(0 <= i < s.len());
    }
    assert(0 <= at <= without(s, c).len());
    lemma_insert_props(without(s, c), at, c);
    assert(placed(s, c, index) == without(s, c).insert(at, c));
    assert forall|x: NodeId| x != c implies (s.contains(x) <==> #[trigger] placed(s, c, index).contains(
        x,
    )) by {
        assert(s.contains(x) <==> without(s, c).contains(x));
        assert(without(s, c).contains(x) <==> without(s, c).insert(at, c).contains(x));
    }
}

spec fn move_rel(v0: Seq<NodeView>, v: Seq<NodeView>, parent: NodeId, child: NodeId, index: int) -> bool {
    &&& links_wf(v0)
    &&& parent < v0.len()
    &&& child < v0.len()
    &&& v0[parent as int].holds
    &&& 0 <= index <= v0[parent as int].children.len()
    &&& v.len() == v0.len()
    &&& v[parent as int].children == placed(v0[parent as int].children, child, index)
    &&& v[child as int].parent == Some(parent)
    &&& parents_kept(v0, v, child as int)
    &&& frame(v0, v, parent as int, v0[child as int].parent.unwrap_or(parent) as int)
    &&& (v0[child as int].parent is Some && v0[child as int].parent.unwrap() != parent ==> v[v0[child as int].parent.unwrap() as int].children
        == without(v0[v0[child as int].parent.unwrap() as int].children, child))
}

proof fn lemma_move_lists(v0: Seq<NodeView>, v: Seq<NodeView>, parent: NodeId, child: NodeId, index: int)
    requires
        move_rel(v0, v, parent, child, index),
    ensures
        forall|n: int, x: NodeId|
            0 <= n < v.len() && x != child ==> (#[trigger] v[n].children.contains(x) <==> v0[n].children.contains(x)),
        forall|n: int| 0 <= n < v.len() ==> (#[trigger] v[n].children).no_duplicates(),
        v[parent as int].children.contains(child),
        forall|n: int| 0 <= n < v.len() && n != parent ==> !(#[trigger] v[n].children.contains(child)),
{
    let q = v0[child as int].parent.unwrap_or(parent);
    let moved = v0[child as int].parent is Some && v0[child as int].parent.unwrap() != parent;
    lemma_wf_node(v0, child as int);
    lemma_wf_node(v0, parent as int);
    lemma_placed(v0[parent as int].children, child, index);
    if moved {
        lemma_wf_node(v0, q as int);
        lemma_without(v0[q as int].children, child);
    }
    assert forall|n: int| 0 <= n < v.len() implies (#[trigger] v[n].children).no_duplicates() by {
        lemma_wf_node(v0, n);
    }
    assert forall|n: int| 0 <= n < v.len() && n != parent implies !(#[trigger] v[n].children.contains(child)) by {
        lemma_wf_node(v0, n);
        if moved && n == q as int {
            assert(!without(v0[q as int].children, child).contains(child));
        } else {
            assert(v[n].children == v0[n].children);
            if v0[n].children.contains(child) {
                lemma_wf_child(v0, n, child);
                assert(v0[child as int].parent == Some(n as NodeId));
            }
        }
    }
    assert forall|n: int, x: NodeId|
        0 <= n < v.len() && x != child implies (#[trigger] v[n].children.contains(x) <==> v0[n].children.contains(x)) by {
        if n == parent as int {
        } else if moved && n == q as int {
        } else {
            assert(v[n].children == v0[n].children);
        }
    }
}


proof fn lemma_remove_wf(v0: Seq<NodeView>, v: Seq<NodeView>, parent: NodeId, child: NodeId)
    requires
        links_wf(v0),
        parent < v0.len(),
        child < v0.len(),
        v0[parent as int].children.contains(child),
        removed_from(v0, v, parent, child),
    ensures
        links_wf(v),
{
    lemma_wf_node(v0, parent as int);
    lemma_without(v0[parent as int].children, child);
    lemma_wf_child(v0, parent as int, child);
    reveal(links_wf);
    assert forall|n: int, x: NodeId|
        0 <= n < v.len() && #[trigger] v[n].children.contains(x) implies x != child && v0[n].children.contains(x) by {
        if n != parent as int {
            assert(v[n].children == v0[n].children);
            if x == child {
                lemma_wf_child(v0, n, child);
            }
        }
    }
    assert forall|n: int, j: int|
        0 <= n < v.len() && 0 <= j < v[n].children.len() implies (#[trigger] v[n].children[j] as int)
        < v.len() && v[v[n].children[j] as int].parent == Some(n as NodeId) by {
        let x = v[n].children[j];
        assert(v[n].children.contains(x));
        lemma_wf_child(v0, n, x);
    }
    assert forall|n: int| 0 <= n < v.len() implies (#[trigger] v[n].children).no_duplicates() by {
        lemma_wf_node(v0, n);
    }
    assert forall|n: int| 0 <= n < v.len() && !(#[trigger] v[n].holds) implies v[n].children.len()
        == 0 by {
        lemma_wf_node(v0, n);
        if v[n].children.len() > 0 {
            assert(v[n].children.contains(v[n].children[0]));
        }
    }
    assert forall|c: int| 0 <= c < v.len() && (#[trigger] v[c].parent).is_some() implies (
    v[c].parent.unwrap() as int) < v.len() && v[v[c].parent.unwrap() as int].children.contains(
        c as NodeId,
    ) by {
        lemma_wf_node(v0, c);
        let p = v0[c].parent.unwrap();
        assert(v0[p as int].children.contains(c as NodeId));
        if p != parent {
            assert(v[p as int].children == v0[p as int].children);
        }
    }
}

/// Moving `child` into the list of `parent` (and out of the list of its
/// former parent) keeps the tree well formed.
proof fn lemma_move_wf(v0: Seq<NodeView>, v: Seq<NodeView>, parent: NodeId, child: NodeId, index: int)
    requires
        move_rel(v0, v, parent, child, index),
    ensures
        links_wf(v),
{
    lemma_move_lists(v0, v, parent, child, index);
    reveal(links_wf);
    assert forall|n: int, j: int|
        0 <= n < v.len() && 0 <= j < v[n].children.len() implies (#[trigger] v[n].children[j] as int)
        < v.len() && v[v[n].children[j] as int].parent == Some(n as NodeId) by {
        let x = v[n].children[j];
        assert(v[n].children.contains(x));
        if x != child {
            assert(v0[n].children.contains(x));
            lemma_wf_child(v0, n, x);
        }
    }
    assert forall|n: int| 0 <= n < v.len() && !(#[trigger] v[n].holds) implies v[n].children.len()
        == 0 by {
        lemma_wf_node(v0, n);
        if v[n].children.len() > 0 {
            let x = v[n].children[0];
            assert(v[n].children.contains(x));
            if x != child {
                assert(v0[n].children.contains(x));
            }
        }
    }
    assert forall|c: int| 0 <= c < v.len() && (#[trigger] v[c].parent).is_some() implies (
    v[c].parent.unwrap() as int) < v.len() && v[v[c].parent.unwrap() as int].children.contains(
        c as NodeId,
    ) by {
        if c != child as int {
            lemma_wf_node(v0, c);
            let p = v0[c].parent.unwrap();
            assert(v0[p as int].children.contains(c as NodeId));
            assert(v[p as int].children.contains(c as NodeId));
        }
    }
}

fn position_of(kids: &Vec<NodeId>, c: NodeId) -> (r: Option<usize>)
    requires
        kids@.no_duplicates(),
    ensures
        match r {
            Some(i) => i < kids@.len() && kids@[i as int] == c && index_in(kids@, c) == i,
            None => !kids@.contains(c),
        },
{
    let mut i: usize = 0;
    while i < kids.len()
        invariant
            i <= kids@.len(),
            kids@.no_duplicates(),
            forall|k: int| 0 <= k < i ==> kids@[k] != c,
        decreases kids@.len() - i,
    {
        if kids[i] == c {
            proof {
                lemma_index_in(kids@, i as int);
            }
            return Some(i);
        }
        i += 1;
    }
    None
}

impl NodeTree {
    /// An empty tree.
    pub fn new() -> (r: NodeTree)
        ensures
            r@.len() == 0,
            tree_wf(r@),
    {
        let r = NodeTree { nodes: Vec::new() };
        proof {
            reveal(links_wf);
        }
        r
    }

    /// Number of nodes created so far.
    pub fn node_count(&self) -> (r: usize)
        ensures
            r == self@.len(),
    {
        self.nodes.len()
    }

    /// Creates a detached node and returns its id.
    pub fn create_node(&mut self, supports_children: bool, style: Style) -> (r: NodeId)
        requires
            tree_wf(old(self)@),
            old(self)@.len() < usize::MAX,
        ensures
            tree_wf(final(self)@),
            r == old(self)@.len(),
            final(self)@ == old(self)@.push(
                NodeView { children: Seq::empty(), parent: None, holds: supports_children, style },
            ),
    {
        let ghost v0 = self@;
        let r = self.nodes.len();
        self.nodes.push(TreeNode { style, supports_children, children: Vec::new(), parent: None });
        proof {
            reveal(links_wf);
            let v = self@;
            assert(v.len() == v0.len() + 1);
            assert forall|n: int| 0 <= n < v0.len() implies #[trigger] v[n] == v0[n] by {}
            assert(v[r as int].children =~= Seq::<NodeId>::empty());
            assert(v =~= v0.push(
                NodeView { children: Seq::empty(), parent: None, holds: supports_children, style },
            ));
            lemma_acyclic_keep(v0, v);
        }
        r
    }

    /// Ordered child list of `n`, or `None` when `n` cannot hold children.
    pub fn children(&self, n: NodeId) -> (r: Option<&Vec<NodeId>>)
        requires
            n < self@.len(),
        ensures
            self@[n as int].holds ==> r is Some && r.unwrap()@ == self@[n as int].children,
            !self@[n as int].holds ==> r is None,
    {
        if self.nodes[n].supports_children {
            Some(&self.nodes[n].children)
        } else {
            None
        }
    }

    /// The node whose child list holds `n`, if any.
    pub fn parent(&self, n: NodeId) -> (r: Option<NodeId>)
        requires
            n < self@.len(),
        ensures
            r == self@[n as int].parent,
    {
        self.nodes[n].parent
    }

    pub fn style(&self, n: NodeId) -> (r: Style)
        requires
            n < self@.len(),
        ensures
            r == self@[n as int].style,
    {
        self.nodes[n].style
    }

    /// Replaces the style of `n`; nothing else changes.
    pub fn set_style(&mut self, n: NodeId, style: Style)
        requires
            tree_wf(old(self)@),
            n < old(self)@.len(),
        ensures
            tree_wf(final(self)@),
            final(self)@ == old(self)@.update(
                n as int,
                NodeView { style, ..old(self)@[n as int] },
            ),
    {
        let ghost v0 = self@;
        self.nodes[n].style = style;
        proof {
            let v = self@;
            assert(v =~= v0.update(n as int, NodeView { style, ..v0[n as int] }));
            lemma_same_shape(v0, v);
            lemma_acyclic_keep(v0, v);
        }
    }

    /// Whether `c` is `a` or one of its ancestors.
    pub fn is_above(&self, c: NodeId, a: NodeId) -> (r: bool)
        requires
            tree_wf(self@),
            a < self@.len(),
        ensures
            r == above(self@, c, a),
    {
        let ghost v = self@;
        assert(rooted(v, a));
        let ghost kr = choose|k: nat| #[trigger] reaches_root(v, a, k);
        let mut cur = a;
        let ghost kc = kr;
        loop
            invariant
                v == self@,
                reaches_root(v, a, kr),
                reaches_root(v, cur, kc),
                on_chain(v, a, c, kr) == on_chain(v, cur, c, kc),
            decreases kc,
        {
            if cur == c {
                proof {
                    assert(on_chain(v, a, c, kr));
                }
                return true;
            }
            match self.nodes[cur].parent {
                None => {
                    proof {
                        assert(!on_chain(v, a, c, kr));
                        assert forall|k: nat| !#[trigger] on_chain(v, a, c, k) by {
                            if on_chain(v, a, c, k) {
                                lemma_chain_bound(v, a, c, k, kr);
                            }
                        }
                    }
                    return false;
                },
                Some(p) => {
                    cur = p;
                    proof {
                        kc = (kc - 1) as nat;
                    }
                },
            }
        }
    }

    /// Puts `child` at `index` of the child list of `parent`.
    ///
    /// A child that is already in the list is moved, not duplicated: `index`
    /// counts positions of the list before the move. A child that belongs to
    /// another node is first taken out of that node's list. The parent link
    /// of `child` is set to `parent`.
    pub fn add_child_at(&mut self, parent: NodeId, child: NodeId, index: usize) -> (r: Result<(), ChildAddError>)
        requires
            tree_wf(old(self)@),
            parent < old(self)@.len(),
            child < old(self)@.len(),
        ensures
            tree_wf(final(self)@),
            !old(self)@[parent as int].holds ==> r == Err::<(), ChildAddError>(ChildAddError::ChildrenNotSupported)
                && final(self)@ == old(self)@,
            old(self)@[parent as int].holds && index > old(self)@[parent as int].children.len() ==> r
                == Err::<(), ChildAddError>(ChildAddError::OutOfBounds) && final(self)@ == old(self)@,
            old(self)@[parent as int].holds && index <= old(self)@[parent as int].children.len() && above(old(self)@, child, parent)
                ==> (r matches Err(ChildAddError::GenericError(m)) && m@ == "Child is an ancestor of the parent"@)
                && final(self)@ == old(self)@,
            old(self)@[parent as int].holds && index <= old(self)@[parent as int].children.len() && !above(old(self)@, child, parent)
                ==> r is Ok && moved_to(old(self)@, final(self)@, parent, child, index as int),
    {
        if !self.nodes[parent].supports_children {
            return Err(ChildAddError::ChildrenNotSupported);
        }
        if index > self.nodes[parent].children.len() {
            return Err(ChildAddError::OutOfBounds);
        }
        if self.is_above(child, parent) {
            return Err(ChildAddError::GenericError("Child is an ancestor of the parent".to_owned()));
        }
        let ghost v0 = self@;
        proof {
            lemma_wf_node(v0, child as int);
            lemma_wf_node(v0, parent as int);
        }
        match self.nodes[child].parent {
            Some(q) => {
                if q != parent {
                    proof {
                        lemma_wf_node(v0, q as int);
                        lemma_without(v0[q as int].children, child);
                    }
                    match position_of(&self.nodes[q].children, child) {
                        Some(j) => {
                            self.nodes[q].children.remove(j);
                        },
                        None => {},
                    }
                    assert(self.nodes@[q as int]@.children == without(v0[q as int].children, child));
                }
            },
            None => {},
        }
        let ghost v1 = self@;
        assert(v1[parent as int] == v0[parent as int]);
        let mut at = index;
        proof {
            lemma_without(v0[parent as int].children, child);
            reveal(placed);
        }
        match position_of(&self.nodes[parent].children, child) {
            Some(i) => {
                self.nodes[parent].children.remove(i);
                if i < at {
                    at = at - 1;
                }
            },
            None => {},
        }
        assert(self.nodes@[parent as int]@.children == without(v0[parent as int].children, child));
        self.nodes[parent].children.insert(at, child);
        self.nodes[child].parent = Some(parent);
        proof {
            let v = self@;
            assert(v[parent as int].children == placed(v0[parent as int].children, child, index as int));
            assert(parents_kept(v0, v, child as int));
            assert(frame(v0, v, parent as int, v0[child as int].parent.unwrap_or(parent) as int));
            lemma_move_wf(v0, v, parent, child, index as int);
            lemma_move_lists(v0, v, parent, child, index as int);
            lemma_acyclic_move(v0, v, parent, child);
        }
        Ok(())
    }

    /// Appends `child` to the children of `parent` (moving it to the end if it
    /// is already there).
    pub fn add_child(&mut self, parent: NodeId, child: NodeId) -> (r: Result<(), ChildAddError>)
        requires
            tree_wf(old(self)@),
            parent < old(self)@.len(),
            child < old(self)@.len(),
        ensures
            tree_wf(final(self)@),
            !old(self)@[parent as int].holds ==> r == Err::<(), ChildAddError>(ChildAddError::ChildrenNotSupported)
                && final(self)@ == old(self)@,
            old(self)@[parent as int].holds && above(old(self)@, child, parent) ==> (r matches Err(ChildAddError::GenericError(m)) && m@ == "Child is an ancestor of the parent"@)
                && final(self)@ == old(self)@,
            old(self)@[parent as int].holds && !above(old(self)@, child, parent) ==> r is Ok && moved_to(
                old(self)@,
                final(self)@,
                parent,
                child,
                old(self)@[parent as int].children.len() as int,
            ),
    {
        if self.nodes[parent].supports_children {
            let len = self.nodes[parent].children.len();
            self.add_child_at(parent, child, len)
        } else {
            Err(ChildAddError::ChildrenNotSupported)
        }
    }

    /// Puts `child` just after `after` in the children of `parent`.
    pub fn add_child_after(&mut self, parent: NodeId, child: NodeId, after: NodeId) -> (r: Result<(), ChildAddError>)
        requires
            tree_wf(old(self)@),
            parent < old(self)@.len(),
            child < old(self)@.len(),
        ensures
            tree_wf(final(self)@),
            !old(self)@[parent as int].holds ==> r == Err::<(), ChildAddError>(ChildAddError::ChildrenNotSupported)
                && final(self)@ == old(self)@,
            old(self)@[parent as int].holds && !old(self)@[parent as int].children.contains(after) ==> (r matches Err(
                ChildAddError::GenericError(m),
            ) && m@ == "Child not found"@) && final(self)@ == old(self)@,
            old(self)@[parent as int].holds && old(self)@[parent as int].children.contains(after) && above(old(self)@, child, parent)
                ==> (r matches Err(ChildAddError::GenericError(m)) && m@ == "Child is an ancestor of the parent"@)
                && final(self)@ == old(self)@,
            old(self)@[parent as int].holds && old(self)@[parent as int].children.contains(after) && !above(old(self)@, child, parent)
                ==> r is Ok && moved_to(
                old(self)@,
                final(self)@,
                parent,
                child,
                index_in(old(self)@[parent as int].children, after) + 1,
            ),
    {
        if !self.nodes[parent].supports_children {
            return Err(ChildAddError::ChildrenNotSupported);
        }
        match self.has_child(parent, after) {
            Some(i) => {
                if i < self.nodes[parent].children.len() {
                    self.add_child_at(parent, child, i + 1)
                } else {
                    Err(ChildAddError::OutOfBounds)
                }
            },
            None => Err(ChildAddError::GenericError("Child not found".to_owned())),
        }
    }

    /// Puts `child` just before `before` in the children of `parent`.
    pub fn add_child_before(&mut self, parent: NodeId, child: NodeId, before: NodeId) -> (r: Result<(), ChildAddError>)
        requires
            tree_wf(old(self)@),
            parent < old(self)@.len(),
            child < old(self)@.len(),
        ensures
            tree_wf(final(self)@),
            !old(self)@[parent as int].holds ==> r == Err::<(), ChildAddError>(ChildAddError::ChildrenNotSupported)
                && final(self)@ == old(self)@,
            old(self)@[parent as int].holds && !old(self)@[parent as int].children.contains(before) ==> (r matches Err(
                ChildAddError::GenericError(m),
            ) && m@ == "Child not found"@) && final(self)@ == old(self)@,
            old(self)@[parent as int].holds && old(self)@[parent as int].children.contains(before) && above(old(self)@, child, parent)
                ==> (r matches Err(ChildAddError::GenericError(m)) && m@ == "Child is an ancestor of the parent"@)
                && final(self)@ == old(self)@,
            old(self)@[parent as int].holds && old(self)@[parent as int].children.contains(before) && !above(old(self)@, child, parent)
                ==> r is Ok && moved_to(
                old(self)@,
                final(self)@,
                parent,
                child,
                index_in(old(self)@[parent as int].children, before),
            ),
    {
        if !self.nodes[parent].supports_children {
            return Err(ChildAddError::ChildrenNotSupported);
        }
        match self.has_child(parent, before) {
            Some(i) => self.add_child_at(parent, child, i),
            None => Err(ChildAddError::GenericError("Child not found".to_owned())),
        }
    }

    /// Takes `child` out of the children of `parent` and clears its parent
    /// link. A child that is not there is left alone.
    pub fn remove_child(&mut self, parent: NodeId, child: NodeId) -> (r: Result<(), ChildAddError>)
        requires
            tree_wf(old(self)@),
            parent < old(self)@.len(),
            child < old(self)@.len(),
        ensures
            tree_wf(final(self)@),
            !old(self)@[parent as int].holds ==> r == Err::<(), ChildAddError>(ChildAddError::ChildrenNotSupported)
                && final(self)@ == old(self)@,
            old(self)@[parent as int].holds && !old(self)@[parent as int].children.contains(child) ==> r is Ok
                && final(self)@ == old(self)@,
            old(self)@[parent as int].holds && old(self)@[parent as int].children.contains(child) ==> r is Ok
                && removed_from(old(self)@, final(self)@, parent, child),
    {
        if !self.nodes[parent].supports_children {
            return Err(ChildAddError::ChildrenNotSupported);
        }
        let ghost v0 = self@;
        proof {
            lemma_wf_node(v0, parent as int);
            lemma_without(v0[parent as int].children, child);
        }
        match position_of(&self.nodes[parent].children, child) {
            Some(i) => {
                self.nodes[parent].children.remove(i);
                self.nodes[child].parent = None;
                proof {
                    let v = self@;
                    lemma_wf_child(v0, parent as int, child);
                    assert(v[parent as int].children == without(v0[parent as int].children, child));
                    lemma_remove_wf(v0, v, parent, child);
                    lemma_acyclic_keep(v0, v);
                }
                Ok(())
            },
            None => Ok(()),
        }
    }

    /// Position of `child` in the child list of `parent`, found by identity.
    /// `None` when it is not there or `parent` cannot hold children.
    pub fn has_child(&self, parent: NodeId, child: NodeId) -> (r: Option<usize>)
        requires
            tree_wf(self@),
            parent < self@.len(),
        ensures
            match r {
                Some(i) => i < self@[parent as int].children.len() && self@[parent as int].children[i as int] == child
                    && index_in(self@[parent as int].children, child) == i,
                None => !self@[parent as int].children.contains(child),
            },
    {
        let ghost v = self@;
        proof {
            lemma_wf_node(v, parent as int);
        }
        position_of(&self.nodes[parent].children, child)
    }
}

/// Adding a node that is already a child of the same parent moves it: the
/// list keeps its length and still holds the node exactly once.
pub proof fn lemma_reinsertion_moves(old: Seq<NodeView>, new: Seq<NodeView>, parent: NodeId, child: NodeId, index: int)
    requires
        tree_wf(old),
        parent < old.len(),
        child < old.len(),
        0 <= index <= old[parent as int].children.len(),
        old[parent as int].children.contains(child),
        moved_to(old, new, parent, child, index),
    ensures
        new[parent as int].children.len() == old[parent as int].children.len(),
        new[parent as int].children.contains(child),
        new[parent as int].children.no_duplicates(),
        forall|x: NodeId| #[trigger] new[parent as int].children.contains(x) <==> old[parent as int].children.contains(x),
{
    lemma_wf_node(old, parent as int);
    lemma_placed(old[parent as int].children, child, index);
}

proof fn lemma_placed_idempotent(s: Seq<NodeId>, c: NodeId, index: int)
    requires
        s.no_duplicates(),
        0 <= index <= s.len(),
    ensures
        placed(placed(s, c, index), c, index) == placed(s, c, index),
{
    lemma_placed(s, c, index);
    lemma_without(s, c);
    let p = placed(s, c, index);
    reveal(placed);
    let at = if s.contains(c) && index_in(s, c) < index {
        index - 1
    } else {
        index
    };
    if s.contains(c) {
        assert(0 <= index_in(s, c) < s.len());
    }
    let w = without(s, c);
    assert(p == w.insert(at, c));
    w.insert_ensures(at, c);
    assert(p[at] == c);
    lemma_index_in(p, at);
    lemma_without(p, c);
    assert(without(p, c) == p.remove(at));
    assert(p.remove(at) =~= w);
}

/// Adding a child a second time at the same index changes nothing.
pub proof fn lemma_same_index_idempotent(
    v0: Seq<NodeView>,
    v1: Seq<NodeView>,
    v2: Seq<NodeView>,
    parent: NodeId,
    child: NodeId,
    index: int,
)
    requires
        tree_wf(v0),
        parent < v0.len(),
        child < v0.len(),
        0 <= index <= v0[parent as int].children.len(),
        moved_to(v0, v1, parent, child, index),
        moved_to(v1, v2, parent, child, index),
    ensures
        v2 == v1,
{
    lemma_wf_node(v0, parent as int);
    lemma_placed_idempotent(v0[parent as int].children, child, index);
    assert(v1[child as int].parent == Some(parent));
    assert(v2[parent as int].children == v1[parent as int].children);
    assert forall|n: int| 0 <= n < v1.len() implies #[trigger] v2[n] == v1[n] by {
        assert(v2[n].children == v1[n].children);
        assert(v2[n].parent == v1[n].parent);
        assert(v2[n].holds == v1[n].holds && v2[n].style == v1[n].style);
    }
    assert(v2 =~= v1);
}

/// Adding a node that belongs to `from` into `to` takes it out of the list of
/// `from` (which shrinks by one and no longer holds it) and puts it once into
/// the list of `to` (which grows by one), and the node's parent becomes `to`.
pub proof fn lemma_cross_parent_move(
    old: Seq<NodeView>,
    new: Seq<NodeView>,
    from: NodeId,
    to: NodeId,
    child: NodeId,
    index: int,
)
    requires
        tree_wf(old),
        from < old.len(),
        to < old.len(),
        child < old.len(),
        from != to,
        old[child as int].parent == Some(from),
        0 <= index <= old[to as int].children.len(),
        moved_to(old, new, to, child, index),
    ensures
        !new[from as int].children.contains(child),
        new[from as int].children.len() == old[from as int].children.len() - 1,
        new[to as int].children.contains(child),
        new[to as int].children.no_duplicates(),
        new[to as int].children.len() == old[to as int].children.len() + 1,
        new[child as int].parent == Some(to),
{
    lemma_wf_node(old, child as int);
    lemma_wf_node(old, from as int);
    lemma_wf_node(old, to as int);
    lemma_without(old[from as int].children, child);
    if old[to as int].children.contains(child) {
        lemma_wf_child(old, to as int, child);
    }
    lemma_placed(old[to as int].children, child, index);
}

/// Takes `node` out of the children of its parent, if it has one.
pub fn detach(tree: &mut NodeTree, node: NodeId)
    requires
        tree_wf(old(tree)@),
        node < old(tree)@.len(),
    ensures
        tree_wf(final(tree)@),
        old(tree)@[node as int].parent is None ==> final(tree)@ == old(tree)@,
        old(tree)@[node as int].parent is Some ==> removed_from(
            old(tree)@,
            final(tree)@,
            old(tree)@[node as int].parent.unwrap(),
            node,
        ),
{
    proof {
        lemma_wf_node(tree@, node as int);
    }
    match tree.parent(node) {
        Some(p) => {
            proof {
                let v = tree@;
                lemma_wf_child(v, p as int, node);
                if !v[p as int].holds {
                    lemma_wf_node(v, p as int);
                }
            }
            let _ = tree.remove_child(p, node);
        },
        None => {},
    }
}

/// Appends `node` to the children of `parent`, taking it out of the children
/// of its former parent.
pub fn append(tree: &mut NodeTree, parent: NodeId, node: NodeId)
    requires
        tree_wf(old(tree)@),
        parent < old(tree)@.len(),
        node < old(tree)@.len(),
        old(tree)@[parent as int].holds,
        !above(old(tree)@, node, parent),
    ensures
        tree_wf(final(tree)@),
        moved_to(old(tree)@, final(tree)@, parent, node, old(tree)@[parent as int].children.len() as int),
{
    let _ = tree.add_child(parent, node);
}

/// Puts `node` into the children of `parent`: just before `before` when given,
/// else at the end.
pub fn insert(tree: &mut NodeTree, parent: NodeId, node: NodeId, before: Option<NodeId>)
    requires
        tree_wf(old(tree)@),
        parent < old(tree)@.len(),
        node < old(tree)@.len(),
        old(tree)@[parent as int].holds,
        before is Some ==> old(tree)@[parent as int].children.contains(before.unwrap()),
        !above(old(tree)@, node, parent),
    ensures
        tree_wf(final(tree)@),
        before is Some ==> moved_to(
            old(tree)@,
            final(tree)@,
            parent,
            node,
            index_in(old(tree)@[parent as int].children, before.unwrap()),
        ),
        before is None ==> moved_to(old(tree)@, final(tree)@, parent, node, old(tree)@[parent as int].children.len() as int),
{
    match before {
        Some(b) => {
            let _ = tree.add_child_before(parent, node, b);
        },
        None => append(tree, parent, node),
    }
}

/// A child id of a node of a well-formed tree names a node of the tree.
pub proof fn lemma_child_in_range(v: Seq<NodeView>, n: int, j: int)
    requires
        tree_wf(v),
        0 <= n < v.len(),
        0 <= j < v[n].children.len(),
    ensures
        (v[n].children[j] as int) < v.len(),
        v[v[n].children[j] as int].parent == Some(n as NodeId),
{
    reveal(links_wf);
}

/// A node without child support has no children.
pub proof fn lemma_no_children(v: Seq<NodeView>, n: int)
    requires
        tree_wf(v),
        0 <= n < v.len(),
        !v[n].holds,
    ensures
        v[n].children.len() == 0,
{
    lemma_wf_node(v, n);
}

/// A child of a node of a well-formed tree is linked back to that node.
pub proof fn lemma_child_link(v: Seq<NodeView>, n: int, c: NodeId)
    requires
        tree_wf(v),
        0 <= n < v.len(),
        v[n].children.contains(c),
    ensures
        (c as int) < v.len(),
        v[c as int].parent == Some(n as NodeId),
{
    lemma_wf_child(v, n, c);
}

} // verus!
