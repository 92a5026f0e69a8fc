use vstd::prelude::*;
use crate::tree::{reaches_root, rooted, tree_wf, NodeId, NodeTree, NodeView};

verus! {

/// `p` walks down the tree: each entry is a child of the one before.
pub open spec fn is_chain(t: Seq<NodeView>, p: Seq<NodeId>) -> bool {
    &&& p.len() >= 1
    &&& forall|i: int| 0 <= i < p.len() - 1 ==> #[trigger] step(t, p[i], p[i + 1])
}

/// `b` is a child of `a`.
pub open spec fn step(t: Seq<NodeView>, a: NodeId, b: NodeId) -> bool {
    (a as int) < t.len() && t[a as int].children.contains(b)
}

/// `x` can be reached from `root` by following child links.
pub open spec fn reachable(t: Seq<NodeView>, root: NodeId, x: NodeId) -> bool {
    exists|p: Seq<NodeId>| #[trigger] is_chain(t, p) && p[0] == root && p.last() == x
}

/// Number of marked entries.
proof fn lemma_none_marked(s: Seq<bool>)
    requires
        forall|i: int| 0 <= i < s.len() ==> !s[i],
    ensures
        num_marked(s) == 0,
    decreases s.len(),
{
    if s.len() > 0 {
        lemma_none_marked(s.drop_last());
    }
}

pub open spec fn num_marked(s: Seq<bool>) -> nat
    decreases s.len(),
{
    if s.len() == 0 {
        0
    } else {
        num_marked(s.drop_last()) + if s.last() {
            1nat
        } else {
            0nat
        }
    }
}

proof fn lemma_num_marked_bound(s: Seq<bool>)
    ensures
        num_marked(s) <= s.len(),
    decreases s.len(),
{
    if s.len() > 0 {
        lemma_num_marked_bound(s.drop_last());
    }
}

proof fn lemma_num_marked_set(s: Seq<bool>, i: int)
    requires
        0 <= i < s.len(),
        !s[i],
    ensures
        num_marked(s.update(i, true)) == num_marked(s) + 1,
    decreases s.len(),
{
    let u = s.update(i, true);
    if i == s.len() - 1 {
        assert(u.drop_last() =~= s.drop_last());
    } else {
        assert(u.drop_last() =~= s.drop_last().update(i, true));
        lemma_num_marked_set(s.drop_last(), i);
    }
}

proof fn lemma_chain_extend(t: Seq<NodeView>, p: Seq<NodeId>, c: NodeId)
    requires
        is_chain(t, p),
        (p.last() as int) < t.len(),
        t[p.last() as int].children.contains(c),
    ensures
        is_chain(t, p.push(c)),
        p.push(c)[0] == p[0],
        p.push(c).last() == c,
{
    let q = p.push(c);
    assert forall|i: int| 0 <= i < q.len() - 1 implies #[trigger] step(t, q[i], q[i + 1]) by {
        if i < p.len() - 1 {
            assert(q[i] == p[i] && q[i + 1] == p[i + 1]);
            assert(step(t, p[i], p[i + 1]));
        } else {
            assert(q[i] == p.last());
            assert(q[i + 1] == c);
        }
    }
    assert(q.len() >= 1);
    assert(is_chain(t, q));
}

proof fn lemma_closed_reaches(t: Seq<NodeView>, m: Seq<bool>, p: Seq<NodeId>)
    requires
        is_chain(t, p),
        m.len() == t.len(),
        (p[0] as int) < m.len(),
        m[p[0] as int],
        forall|x: int, c: NodeId| 0 <= x < m.len() && m[x] && #[trigger] t[x].children.contains(c) ==> (c as int) < m.len() && m[c as int],
    ensures
        (p.last() as int) < m.len(),
        m[p.last() as int],
    decreases p.len(),
{
    if p.len() > 1 {
        let q = p.drop_last();
        assert forall|i: int| 0 <= i < q.len() - 1 implies #[trigger] step(t, q[i], q[i + 1]) by {
            assert(q[i] == p[i] && q[i + 1] == p[i + 1]);
            assert(step(t, p[i], p[i + 1]));
        }
        assert(q.len() >= 1);
        assert(is_chain(t, q));
        lemma_closed_reaches(t, m, q);
        let k = p.len() - 2;
        assert(step(t, p[k], p[k + 1]));
        assert(q.last() == p[k]);
    }
}

/// For each node id, whether the node can be reached from `root`.
pub fn live_nodes(tree: &NodeTree, root: NodeId) -> (r: Vec<bool>)
    requires
        tree_wf(tree@),
        root < tree@.len(),
    ensures
        r@.len() == tree@.len(),
        forall|x: NodeId| x < tree@.len() ==> (r@[x as int] <==> reachable(tree@, root, x)),
{
    let ghost t = tree@;
    let n = tree.node_count();
    let mut marks: Vec<bool> = Vec::new();
    let mut k: usize = 0;
    while k < n
        invariant
            k <= n,
            n == t.len(),
            marks@.len() == k,
            forall|x: int| 0 <= x < k ==> !marks@[x],
        decreases n - k,
    {
        marks.push(false);
        k += 1;
    }
    proof {
        assert(num_marked(marks@) == 0) by {
            lemma_none_marked(marks@);
        }
        let p = seq![root];
        assert(is_chain(t, p));
        lemma_num_marked_set(marks@, root as int);
        lemma_num_marked_bound(marks@.update(root as int, true));
    }
    marks.set(root, true);
    let mut stack: Vec<NodeId> = Vec::new();
    stack.push(root);
    proof {
        assert(is_chain(t, seq![root]) && seq![root][0] == root && seq![root].last() == root);
    }
    while stack.len() > 0
        invariant
            t == tree@,
            tree_wf(t),
            n == t.len(),
            root < n,
            marks@.len() == n,
            marks@[root as int],
            forall|i: int| 0 <= i < stack@.len() ==> (stack@[i] as int) < n && marks@[stack@[i] as int],
            forall|x: NodeId| x < n && #[trigger] marks@[x as int] ==> reachable(t, root, x),
            forall|x: int, c: NodeId|
                0 <= x < n && marks@[x] && !stack@.contains(x as NodeId) && #[trigger] t[x].children.contains(c)
                    ==> (c as int) < n && marks@[c as int],
            num_marked(marks@) <= n,
        decreases n + 1 - num_marked(marks@) + stack@.len(),
    {
        let ghost before = stack@;
        let x = stack.pop().unwrap();
        let ghost rest = stack@;
        assert(before == rest.push(x));
        let ghost d0 = stack@.len() - num_marked(marks@);
        let kids = tree.children(x);
        match kids {
            None => {
                proof {
                    crate::tree::lemma_no_children(t, x as int);
                    assert forall|y: int, c2: NodeId|
                        0 <= y < n && marks@[y] && !stack@.contains(y as NodeId) && #[trigger] t[y].children.contains(c2)
                            implies (c2 as int) < n && marks@[c2 as int] by {
                        if y != x as int {
                            if before.contains(y as NodeId) {
                                let k = choose|k: int| 0 <= k < before.len() && before[k] == y as NodeId;
                                assert(k < rest.len());
                                assert(stack@[k] == y as NodeId);
                            }
                        }
                    }
                }
            },
            Some(kids) => {
                proof {
                    assert forall|y: int, c2: NodeId|
                        0 <= y < n && y != x && marks@[y] && !stack@.contains(y as NodeId) && #[trigger] t[y].children.contains(c2)
                            implies (c2 as int) < n && marks@[c2 as int] by {
                        if before.contains(y as NodeId) {
                            let k = choose|k: int| 0 <= k < before.len() && before[k] == y as NodeId;
                            assert(k < rest.len());
                            assert(stack@[k] == y as NodeId);
                        }
                    }
                }
                let mut j: usize = 0;
                while j < kids.len()
                    invariant
                        t == tree@,
                        tree_wf(t),
                        n == t.len(),
                        root < n,
                        x < n,
                        marks@[x as int],
                        kids@ == t[x as int].children,
                        j <= kids@.len(),
                        marks@.len() == n,
                        marks@[root as int],
                        reachable(t, root, x),
                        rest.len() <= stack@.len(),
                        forall|i: int| 0 <= i < rest.len() ==> stack@[i] == rest[i],
                        forall|i: int| 0 <= i < stack@.len() ==> (stack@[i] as int) < n && marks@[stack@[i] as int],
                        forall|y: NodeId| y < n && #[trigger] marks@[y as int] ==> reachable(t, root, y),
                        forall|i: int| 0 <= i < j ==> marks@[kids@[i] as int],
                        forall|y: int, c: NodeId|
                            0 <= y < n && y != x && marks@[y] && !stack@.contains(y as NodeId) && #[trigger] t[y].children.contains(c)
                                ==> (c as int) < n && marks@[c as int],
                        num_marked(marks@) <= n,
                        stack@.len() - num_marked(marks@) == d0,
                    decreases kids@.len() - j,
                {
                    proof {
                        assert forall|i: int| 0 <= i < j implies marks@[kids@[i] as int] by {}
                    }
                    let c = kids[j];
                    proof {
                        crate::tree::lemma_child_in_range(t, x as int, j as int);
                    }
                    let ghost m0 = marks@;
                    let ghost s0 = stack@;
                    if !marks[c] {
                        proof {
                            lemma_num_marked_set(marks@, c as int);
                            lemma_num_marked_bound(marks@.update(c as int, true));
                            let p = choose|p: Seq<NodeId>| #[trigger] is_chain(t, p) && p[0] == root && p.last() == x;
                            assert(t[x as int].children.contains(c)) by {
                                assert(t[x as int].children[j as int] == c);
                            }
                            lemma_chain_extend(t, p, c);
                        }
                        marks.set(c, true);
                        stack.push(c);
                        proof {
                            assert(stack@.last() == c);
                            assert(stack@.contains(c));
                            assert forall|y: int, c2: NodeId|
                                0 <= y < n && y != x && marks@[y] && !stack@.contains(y as NodeId) && #[trigger] t[y].children.contains(c2)
                                    implies (c2 as int) < n && marks@[c2 as int] by {
                                assert(y != c as int);
                                assert(m0[y]);
                                if s0.contains(y as NodeId) {
                                    let k = choose|k: int| 0 <= k < s0.len() && s0[k] == y as NodeId;
                                    assert(stack@[k] == y as NodeId);
                                }
                            }
                            assert forall|i: int| 0 <= i < stack@.len() implies (stack@[i] as int) < n && marks@[stack@[i] as int] by {
                                if i < s0.len() {
                                    assert(stack@[i] == s0[i]);
                                }
                            }
                            assert forall|i: int| 0 <= i < j implies marks@[kids@[i] as int] by {
                                crate::tree::lemma_child_in_range(t, x as int, i);
                                assert(m0[kids@[i] as int]);
                            }
                            assert forall|y: NodeId| y < n && #[trigger] marks@[y as int] implies reachable(t, root, y) by {
                                if y != c {
                                    assert(m0[y as int]);
                                }
                            }
                        }
                    }
                    assert(marks@[kids@[j as int] as int]);
                    j += 1;
                }
                proof {
                    assert forall|y: int, c2: NodeId|
                        0 <= y < n && marks@[y] && !stack@.contains(y as NodeId) && #[trigger] t[y].children.contains(c2)
                            implies (c2 as int) < n && marks@[c2 as int] by {
                        if y == x as int {
                            let i = choose|i: int| 0 <= i < kids@.len() && kids@[i] == c2;
                            assert(marks@[kids@[i] as int]);
                            crate::tree::lemma_child_in_range(t, x as int, i);
                        }
                    }
                }
            },
        }
    }
    proof {
        assert forall|x: NodeId| x < n implies (marks@[x as int] <==> reachable(t, root, x)) by {
            if reachable(t, root, x) {
                let p = choose|p: Seq<NodeId>| #[trigger] is_chain(t, p) && p[0] == root && p.last() == x;
                lemma_closed_reaches(t, marks@, p);
            }
        }
    }
    marks
}

/// `a` is reached from `d` by following `k` parent links.
pub open spec fn ancestor(t: Seq<NodeView>, d: NodeId, a: NodeId, k: nat) -> bool
    decreases k,
{
    if k == 0 {
        d == a
    } else {
        (d as int) < t.len() && match t[d as int].parent {
            Some(p) => ancestor(t, p, a, (k - 1) as nat),
            None => false,
        }
    }
}

/// Every node after the first on a chain is linked back to the one before.
proof fn lemma_chain_parent(t: Seq<NodeView>, p: Seq<NodeId>, i: int)
    requires
        tree_wf(t),
        is_chain(t, p),
        0 < i < p.len(),
    ensures
        (p[i] as int) < t.len(),
        t[p[i] as int].parent == Some(p[i - 1]),
{
    let j = i - 1;
    assert(step(t, p[j], p[j + 1]));
    assert(j + 1 == i);
    crate::tree::lemma_child_link(t, p[i - 1] as int, p[i]);
}

proof fn lemma_no_chain_into_detached(t: Seq<NodeView>, p: Seq<NodeId>, root: NodeId, b: NodeId, k: nat)
    requires
        tree_wf(t),
        is_chain(t, p),
        p[0] == root,
        (root as int) < t.len(),
        t[root as int].parent is None,
        (b as int) < t.len(),
        t[b as int].parent is None,
        b != root,
    ensures
        !ancestor(t, p.last(), b, k),
    decreases k,
{
    if p.len() > 1 {
        lemma_chain_parent(t, p, p.len() - 1);
    }
    if k > 0 && p.len() > 1 && ancestor(t, p.last(), b, k) {
        let q = p.drop_last();
        assert forall|i: int| 0 <= i < q.len() - 1 implies #[trigger] step(t, q[i], q[i + 1]) by {
            assert(step(t, p[i], p[i + 1]));
        }
        assert(q.last() == p[p.len() - 2]);
        lemma_no_chain_into_detached(t, q, root, b, (k - 1) as nat);
    }
}

/// A node below a detached node (one without parent link, other than the
/// root) cannot be reached from a root that has no parent link either.
pub proof fn lemma_detached_unreachable(t: Seq<NodeView>, root: NodeId, b: NodeId, d: NodeId, k: nat)
    requires
        tree_wf(t),
        (root as int) < t.len(),
        t[root as int].parent is None,
        (b as int) < t.len(),
        t[b as int].parent is None,
        b != root,
        ancestor(t, d, b, k),
    ensures
        !reachable(t, root, d),
{
    if reachable(t, root, d) {
        let p = choose|p: Seq<NodeId>| #[trigger] is_chain(t, p) && p[0] == root && p.last() == d;
        lemma_no_chain_into_detached(t, p, root, b, k);
    }
}

/// The children of a reachable node are reachable.
pub proof fn lemma_child_reachable(t: Seq<NodeView>, root: NodeId, x: NodeId, c: NodeId)
    requires
        reachable(t, root, x),
        (x as int) < t.len(),
        t[x as int].children.contains(c),
    ensures
        reachable(t, root, c),
{
    let p = choose|p: Seq<NodeId>| #[trigger] is_chain(t, p) && p[0] == root && p.last() == x;
    lemma_chain_extend(t, p, c);
}

/// Parent steps compose.
pub proof fn lemma_ancestor_trans(t: Seq<NodeView>, x: NodeId, y: NodeId, z: NodeId, k: nat, j: nat)
    requires
        ancestor(t, x, y, k),
        ancestor(t, y, z, j),
    ensures
        ancestor(t, x, z, k + j),
    decreases k,
{
    if k > 0 {
        let p = t[x as int].parent.unwrap();
        lemma_ancestor_trans(t, p, y, z, (k - 1) as nat, j);
        assert((k + j - 1) as nat == (k - 1) as nat + j);
    }
}

proof fn lemma_ancestor_rooted(t: Seq<NodeView>, n: NodeId, a: NodeId, j: nat, kr: nat)
    requires
        reaches_root(t, n, kr),
        ancestor(t, n, a, j),
    ensures
        j <= kr,
        reaches_root(t, a, (kr - j) as nat),
    decreases j,
{
    if j > 0 {
        let p = t[n as int].parent.unwrap();
        lemma_ancestor_rooted(t, p, a, (j - 1) as nat, (kr - 1) as nat);
    }
}

proof fn lemma_no_self_ancestor(t: Seq<NodeView>, n: NodeId, j: nat, kr: nat)
    requires
        reaches_root(t, n, kr),
        j >= 1,
    ensures
        !ancestor(t, n, n, j),
    decreases kr,
{
    if ancestor(t, n, n, j) {
        lemma_ancestor_rooted(t, n, n, j, kr);
        lemma_no_self_ancestor(t, n, j, (kr - j) as nat);
    }
}

/// In a tree without cycles, a node strictly below `root` is not above it.
pub proof fn lemma_below_not_above(t: Seq<NodeView>, root: NodeId, m: NodeId, j: nat, k: nat)
    requires
        tree_wf(t),
        (root as int) < t.len(),
        j >= 1,
        ancestor(t, m, root, j),
        k >= 1,
    ensures
        !ancestor(t, root, m, k),
{
    if ancestor(t, root, m, k) {
        lemma_ancestor_trans(t, root, m, root, k, j);
        assert(rooted(t, root));
        let kr = choose|kr: nat| #[trigger] reaches_root(t, root, kr);
        lemma_no_self_ancestor(t, root, k + j, kr);
    }
}

} // verus!
