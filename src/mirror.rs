use vstd::prelude::*;
use crate::reach::{ancestor, lemma_child_reachable, lemma_detached_unreachable, live_nodes, reachable};
use crate::tree::{tree_wf, NodeId, NodeTree, NodeView};

verus! {

/// The solver node that mirrors scene node `x`, if any.
pub open spec fn mapped(m: Seq<Option<u64>>, x: int) -> Option<u64> {
    if 0 <= x < m.len() {
        m[x]
    } else {
        None
    }
}

/// No solver node mirrors two scene nodes.
pub open spec fn mirror_wf(m: Seq<Option<u64>>) -> bool {
    forall|x: int, y: int|
        0 <= x < m.len() && 0 <= y < m.len() && x != y && (#[trigger] m[x]) is Some ==> m[x] != #[trigger] m[y]
}

/// Some scene node is mirrored by `id`.
pub open spec fn in_use(m: Seq<Option<u64>>, id: u64) -> bool {
    exists|x: int| 0 <= x < m.len() && #[trigger] m[x] == Some(id)
}

/// `after` is `before` once the entries of the scene nodes that cannot be
/// reached from `root` are dropped.
pub open spec fn swept(t: Seq<NodeView>, root: NodeId, before: Seq<Option<u64>>, after: Seq<Option<u64>>) -> bool {
    forall|x: NodeId|
        #[trigger] mapped(after, x as int) == if (x as int) < t.len() && reachable(t, root, x) {
            mapped(before, x as int)
        } else {
            None
        }
}

/// The solver children of scene node `x`: the solver nodes of its children, in order.
pub open spec fn solver_children(t: Seq<NodeView>, m: Seq<Option<u64>>, x: NodeId) -> Seq<u64> {
    t[x as int].children.map_values(|c: NodeId| mapped(m, c as int).unwrap())
}

/// The children lists to hand to the solver for the scene nodes below `k`,
/// in id order: one for each reachable node that holds children.
pub open spec fn plan_upto(t: Seq<NodeView>, m: Seq<Option<u64>>, root: NodeId, k: nat) -> Seq<(u64, Seq<u64>)>
    decreases k,
{
    if k == 0 {
        Seq::empty()
    } else {
        let x = (k - 1) as NodeId;
        plan_upto(t, m, root, (k - 1) as nat) + if reachable(t, root, x) && t[x as int].holds {
            seq![(mapped(m, x as int).unwrap(), solver_children(t, m, x))]
        } else {
            Seq::empty()
        }
    }
}

/// The map from scene nodes to the nodes of the box-layout solver that
/// mirror them. Entries are created when a node is first synchronised and
/// dropped once the node can no longer be reached from the root.
pub struct LayoutMirror {
    solver_of: Vec<Option<u64>>,
}

impl View for LayoutMirror {
    type V = Seq<Option<u64>>;

    closed spec fn view(&self) -> Seq<Option<u64>> {
        self.solver_of@
    }
}

impl LayoutMirror {
    pub fn new() -> (r: LayoutMirror)
        ensures
            r@.len() == 0,
            mirror_wf(r@),
    {
        LayoutMirror { solver_of: Vec::new() }
    }

    /// The solver node of scene node `n`.
    pub fn solver_node(&self, n: NodeId) -> (r: Option<u64>)
        ensures
            r == mapped(self@, n as int),
    {
        if n < self.solver_of.len() {
            self.solver_of[n]
        } else {
            None
        }
    }

    /// Whether `id` mirrors some scene node.
    pub fn uses(&self, id: u64) -> (r: bool)
        ensures
            r == in_use(self@, id),
    {
        let mut i: usize = 0;
        while i < self.solver_of.len()
            invariant
                i <= self@.len(),
                forall|k: int| 0 <= k < i ==> self@[k] != Some(id),
            decreases self@.len() - i,
        {
            if self.solver_of[i] == Some(id) {
                assert(self@[i as int] == Some(id));
                return true;
            }
            i += 1;
        }
        false
    }

    /// Records that solver node `id` mirrors scene node `n`. Refused (and
    /// `false` returned) when `n` is mirrored already or `id` is in use.
    pub fn register(&mut self, n: NodeId, id: u64) -> (r: bool)
        requires
            mirror_wf(old(self)@),
            n < usize::MAX,
        ensures
            mirror_wf(final(self)@),
            r == (mapped(old(self)@, n as int) is None && !in_use(old(self)@, id)),
            r ==> forall|x: int| #[trigger] mapped(final(self)@, x) == if x == n as int {
                Some(id)
            } else {
                mapped(old(self)@, x)
            },
            !r ==> final(self)@ == old(self)@,
    {
        if self.solver_node(n).is_some() || self.uses(id) {
            return false;
        }
        let ghost m0 = self@;
        while self.solver_of.len() <= n
            invariant
                n < usize::MAX,
                self@.len() >= m0.len(),
                forall|x: int| #[trigger] mapped(self@, x) == mapped(m0, x),
                forall|x: int| m0.len() <= x < self@.len() ==> self@[x] is None,
            decreases n + 1 - self@.len(),
        {
            let ghost s0 = self@;
            self.solver_of.push(None);
            proof {
                assert forall|x: int| #[trigger] mapped(self@, x) == mapped(m0, x) by {
                    if 0 <= x < s0.len() {
                        assert(self@[x] == s0[x]);
                        assert(mapped(s0, x) == mapped(m0, x));
                    }
                }
            }
        }
        let ghost s1 = self@;
        self.solver_of.set(n, Some(id));
        proof {
            let m = self@;
            assert forall|x: int| 0 <= x < m.len() && x != n as int implies m[x] == mapped(m0, x) by {
                assert(m[x] == s1[x]);
                assert(mapped(s1, x) == mapped(m0, x));
            }
            assert forall|x: int, y: int|
                0 <= x < m.len() && 0 <= y < m.len() && x != y && (#[trigger] m[x]) is Some implies m[x] != #[trigger] m[y] by {
                if x != n as int && y != n as int {
                    assert(m[x] == mapped(m0, x) && m[y] == mapped(m0, y));
                } else if x == n as int {
                    if m[y] == Some(id) {
                        assert(mapped(m0, y) == Some(id));
                        assert(m0[y] == Some(id));
                    }
                } else {
                    if m[x] == Some(id) {
                        assert(mapped(m0, x) == Some(id));
                        assert(m0[x] == Some(id));
                    }
                }
            }
            assert forall|x: int| #[trigger] mapped(m, x) == if x == n as int {
                Some(id)
            } else {
                mapped(m0, x)
            } by {}
        }
        true
    }

    /// The scene nodes reachable from `root` that no solver node mirrors yet,
    /// in id order: each needs a new solver leaf.
    pub fn unmapped_live(&self, tree: &NodeTree, root: NodeId) -> (r: Vec<NodeId>)
        requires
            tree_wf(tree@),
            root < tree@.len(),
        ensures
            r@.no_duplicates(),
            forall|x: NodeId| r@.contains(x) <==> ((x as int) < tree@.len() && reachable(tree@, root, x) && mapped(self@, x as int) is None),
    {
        let live = live_nodes(tree, root);
        let mut r: Vec<NodeId> = Vec::new();
        let mut x: usize = 0;
        while x < live.len()
            invariant
                live@.len() == tree@.len(),
                forall|y: NodeId| y < tree@.len() ==> (live@[y as int] <==> reachable(tree@, root, y)),
                x <= live@.len(),
                forall|i: int| 0 <= i < r@.len() ==> (r@[i] as int) < x,
                forall|i: int, j: int| 0 <= i < j < r@.len() ==> r@[i] < r@[j],
                forall|y: NodeId| r@.contains(y) <==> ((y as int) < x && reachable(tree@, root, y) && mapped(self@, y as int) is None),
            decreases live@.len() - x,
        {
            let ghost r0 = r@;
            if live[x] && self.solver_node(x).is_none() {
                r.push(x);
                proof {
                    assert forall|y: NodeId| r@.contains(y) <==> ((y as int) < x + 1 && reachable(tree@, root, y) && mapped(self@, y as int) is None) by {
                        if r@.contains(y) && y != x {
                            let i = choose|i: int| 0 <= i < r@.len() && r@[i] == y;
                            assert(r0[i] == y);
                        }
                        if r0.contains(y) {
                            let i = choose|i: int| 0 <= i < r0.len() && r0[i] == y;
                            assert(r@[i] == y);
                        }
                        if y == x {
                            assert(r@[r@.len() - 1] == y);
                        }
                    }
                }
            } else {
                proof {
                    assert forall|y: NodeId| r@.contains(y) <==> ((y as int) < x + 1 && reachable(tree@, root, y) && mapped(self@, y as int) is None) by {
                        if r@.contains(y) {
                            let i = choose|i: int| 0 <= i < r@.len() && r@[i] == y;
                            assert((r@[i] as int) < x);
                        }
                    }
                }
            }
            x += 1;
        }
        proof {
            assert forall|i: int, j: int| 0 <= i < r@.len() && 0 <= j < r@.len() && i != j implies r@[i] != r@[j] by {
                if i < j {
                    assert(r@[i] < r@[j]);
                } else {
                    assert(r@[j] < r@[i]);
                }
            }
        }
        r
    }

    /// For each scene node reachable from `root` that holds children, in id
    /// order: its solver node and the solver nodes of its children, in order.
    /// The caller sets these as the solver's children lists.
    pub fn children_plan(&self, tree: &NodeTree, root: NodeId) -> (r: Vec<(u64, Vec<u64>)>)
        requires
            tree_wf(tree@),
            root < tree@.len(),
            forall|x: NodeId| (x as int) < tree@.len() && reachable(tree@, root, x) ==> #[trigger] mapped(self@, x as int) is Some,
        ensures
            r@.len() == plan_upto(tree@, self@, root, tree@.len()).len(),
            forall|i: int| 0 <= i < r@.len() ==> (#[trigger] r@[i]).0 == plan_upto(tree@, self@, root, tree@.len())[i].0
                && r@[i].1@ == plan_upto(tree@, self@, root, tree@.len())[i].1,
    {
        let ghost t = tree@;
        let live = live_nodes(tree, root);
        let mut r: Vec<(u64, Vec<u64>)> = Vec::new();
        let mut x: usize = 0;
        while x < live.len()
            invariant
                t == tree@,
                tree_wf(t),
                live@.len() == t.len(),
                forall|y: NodeId| y < t.len() ==> (live@[y as int] <==> reachable(t, root, y)),
                forall|y: NodeId| (y as int) < t.len() && reachable(t, root, y) ==> #[trigger] mapped(self@, y as int) is Some,
                x <= live@.len(),
                r@.len() == plan_upto(t, self@, root, x as nat).len(),
                forall|i: int| 0 <= i < r@.len() ==> (#[trigger] r@[i]).0 == plan_upto(t, self@, root, x as nat)[i].0
                    && r@[i].1@ == plan_upto(t, self@, root, x as nat)[i].1,
            decreases live@.len() - x,
        {
            let ghost r0 = r@;
            if live[x] {
                match tree.children(x) {
                    Some(kids) => {
                        let mut ids: Vec<u64> = Vec::new();
                        let mut j: usize = 0;
                        while j < kids.len()
                            invariant
                                t == tree@,
                                tree_wf(t),
                                x < t.len(),
                                reachable(t, root, x as NodeId),
                                kids@ == t[x as int].children,
                                forall|y: NodeId| (y as int) < t.len() && reachable(t, root, y) ==> #[trigger] mapped(self@, y as int) is Some,
                                j <= kids@.len(),
                                ids@ == kids@.take(j as int).map_values(|c: NodeId| mapped(self@, c as int).unwrap()),
                            decreases kids@.len() - j,
                        {
                            let c = kids[j];
                            proof {
                                crate::tree::lemma_child_in_range(t, x as int, j as int);
                                assert(t[x as int].children.contains(c)) by {
                                    assert(t[x as int].children[j as int] == c);
                                }
                                lemma_child_reachable(t, root, x as NodeId, c);
                                assert(mapped(self@, c as int) is Some);
                            }
                            let id = self.solver_node(c).unwrap();
                            ids.push(id);
                            proof {
                                assert(ids@ =~= kids@.take(j as int + 1).map_values(|c: NodeId| mapped(self@, c as int).unwrap()));
                            }
                            j += 1;
                        }
                        proof {
                            assert(kids@.take(kids@.len() as int) =~= kids@);
                            assert(ids@ == solver_children(t, self@, x as NodeId));
                        }
                        let own = self.solver_node(x).unwrap();
                        r.push((own, ids));
                    },
                    None => {},
                }
            }
            proof {
                let p1 = plan_upto(t, self@, root, x as nat + 1);
                let p0 = plan_upto(t, self@, root, x as nat);
                assert(x as nat + 1 - 1 == x as nat);
                assert forall|i: int| 0 <= i < r@.len() implies (#[trigger] r@[i]).0 == p1[i].0 && r@[i].1@ == p1[i].1 by {
                    if i < r0.len() {
                        assert(r@[i] == r0[i]);
                        assert(p1[i] == p0[i]);
                    }
                }
            }
            x += 1;
        }
        r
    }

    /// Every (scene node, solver node) pair of the mirror, in scene id order.
    pub fn entries(&self) -> (r: Vec<(NodeId, u64)>)
        ensures
            forall|x: NodeId, id: u64| r@.contains((x, id)) <==> mapped(self@, x as int) == Some(id),
    {
        let mut r: Vec<(NodeId, u64)> = Vec::new();
        let mut x: usize = 0;
        while x < self.solver_of.len()
            invariant
                x <= self@.len(),
                forall|y: NodeId, id: u64| r@.contains((y, id)) <==> ((y as int) < x && mapped(self@, y as int) == Some(id)),
            decreases self@.len() - x,
        {
            let ghost r0 = r@;
            match self.solver_of[x] {
                Some(id) => {
                    r.push((x, id));
                },
                None => {},
            }
            proof {
                assert forall|y: NodeId, id: u64| r@.contains((y, id)) <==> ((y as int) < x + 1 && mapped(self@, y as int) == Some(id)) by {
                    if r@.contains((y, id)) {
                        let i = choose|i: int| 0 <= i < r@.len() && r@[i] == (y, id);
                        if i < r0.len() {
                            assert(r0[i] == (y, id));
                        }
                    }
                    if r0.contains((y, id)) {
                        let i = choose|i: int| 0 <= i < r0.len() && r0[i] == (y, id);
                        assert(r@[i] == (y, id));
                    }
                    if y == x && mapped(self@, y as int) == Some(id) {
                        assert(r@[r@.len() - 1] == (y, id));
                    }
                }
            }
            x += 1;
        }
        r
    }

    /// Drops the entries of the scene nodes that can no longer be reached from
    /// `root` and returns their solver nodes, which the caller removes from
    /// the solver.
    pub fn collect_garbage(&mut self, tree: &NodeTree, root: NodeId) -> (r: Vec<u64>)
        requires
            tree_wf(tree@),
            root < tree@.len(),
            mirror_wf(old(self)@),
        ensures
            mirror_wf(final(self)@),
            final(self)@.len() == old(self)@.len(),
            swept(tree@, root, old(self)@, final(self)@),
            r@.no_duplicates(),
            forall|x: NodeId|
                #[trigger] mapped(old(self)@, x as int) is Some && !((x as int) < tree@.len() && reachable(tree@, root, x))
                    ==> r@.contains(mapped(old(self)@, x as int).unwrap()),
            forall|id: u64| r@.contains(id) <==> (in_use(old(self)@, id) && !in_use(final(self)@, id)),
    {
        let live = live_nodes(tree, root);
        let ghost m0 = self@;
        let mut dropped: Vec<u64> = Vec::new();
        let mut x: usize = 0;
        while x < self.solver_of.len()
            invariant
                live@.len() == tree@.len(),
                forall|y: NodeId| y < tree@.len() ==> (live@[y as int] <==> reachable(tree@, root, y)),
                mirror_wf(m0),
                self@.len() == m0.len(),
                x <= self@.len(),
                forall|y: int| x <= y < m0.len() ==> #[trigger] self@[y] == m0[y],
                forall|y: int| 0 <= y < x ==> #[trigger] self@[y] == if y < tree@.len() && reachable(tree@, root, y as NodeId) {
                    m0[y]
                } else {
                    None
                },
                dropped@.no_duplicates(),
                forall|i: int| #![trigger dropped@[i]] 0 <= i < dropped@.len() ==> exists|y: int| 0 <= y < x && #[trigger] m0[y] == Some(dropped@[i]) && self@[y] is None,
                forall|y: int| 0 <= y < x && m0[y] is Some && #[trigger] self@[y] is None ==> dropped@.contains(m0[y].unwrap()),
            decreases m0.len() - x,
        {
            let ghost d0 = dropped@;
            let ghost s0 = self@;
            let keep = x < live.len() && live[x];
            if !keep {
                match self.solver_of[x] {
                    Some(id) => {
                        proof {
                            assert forall|i: int| 0 <= i < d0.len() implies d0[i] != id by {
                                let y = choose|y: int| 0 <= y < x && #[trigger] m0[y] == Some(d0[i]) && s0[y] is None;
                                assert(m0[x as int] == Some(id));
                                assert(m0[y] != m0[x as int]);
                            }
                        }
                        dropped.push(id);
                    },
                    None => {},
                }
                self.solver_of.set(x, None);
            }
            proof {
                assert forall|i: int| #![trigger dropped@[i]] 0 <= i < dropped@.len() implies exists|y: int| 0 <= y < x + 1 && #[trigger] m0[y] == Some(dropped@[i]) && self@[y] is None by {
                    if i < d0.len() {
                        assert(dropped@[i] == d0[i]);
                        let y = choose|y: int| 0 <= y < x && #[trigger] m0[y] == Some(d0[i]) && s0[y] is None;
                        assert(self@[y] == s0[y]);
                    } else {
                        assert(m0[x as int] == Some(dropped@[i]) && self@[x as int] is None);
                    }
                }
                assert forall|y: int| 0 <= y < x + 1 && m0[y] is Some && #[trigger] self@[y] is None implies dropped@.contains(m0[y].unwrap()) by {
                    if y < x {
                        assert(self@[y] == s0[y]);
                        assert(d0.contains(m0[y].unwrap()));
                        let i = choose|i: int| 0 <= i < d0.len() && d0[i] == m0[y].unwrap();
                        assert(dropped@[i] == d0[i]);
                    } else {
                        assert(dropped@[dropped@.len() - 1] == m0[y].unwrap());
                    }
                }
                assert forall|y: int| 0 <= y < x + 1 implies #[trigger] self@[y] == if y < tree@.len() && reachable(tree@, root, y as NodeId) {
                    m0[y]
                } else {
                    None
                } by {
                    if y < x {
                        assert(self@[y] == s0[y]);
                    }
                }
            }
            x += 1;
        }
        proof {
            let m = self@;
            assert forall|a: int, c: int|
                0 <= a < m.len() && 0 <= c < m.len() && a != c && (#[trigger] m[a]) is Some implies m[a] != #[trigger] m[c] by {
                assert(m[a] == m0[a]);
                if m[c] is Some {
                    assert(m[c] == m0[c]);
                }
            }
            assert forall|y: NodeId| #[trigger] mapped(m, y as int) == if (y as int) < tree@.len() && reachable(tree@, root, y) {
                mapped(m0, y as int)
            } else {
                None
            } by {
                if (y as int) < m.len() {
                    assert(m[y as int] == if (y as int) < tree@.len() && reachable(tree@, root, y) {
                        m0[y as int]
                    } else {
                        None
                    });
                }
            }
            assert forall|y: NodeId|
                #[trigger] mapped(m0, y as int) is Some && !((y as int) < tree@.len() && reachable(tree@, root, y))
                    implies dropped@.contains(mapped(m0, y as int).unwrap()) by {
                assert(m[y as int] is None);
            }
            assert forall|id: u64| dropped@.contains(id) <==> (in_use(m0, id) && !in_use(m, id)) by {
                if dropped@.contains(id) {
                    let i = choose|i: int| 0 <= i < dropped@.len() && dropped@[i] == id;
                    let y = choose|y: int| 0 <= y < x && #[trigger] m0[y] == Some(dropped@[i]) && m[y] is None;
                    assert(m0[y] == Some(id));
                    if in_use(m, id) {
                        let z = choose|z: int| 0 <= z < m.len() && #[trigger] m[z] == Some(id);
                        assert(m[z] == m0[z]);
                        assert(z != y);
                    }
                }
                if in_use(m0, id) && !in_use(m, id) {
                    let y = choose|y: int| 0 <= y < m0.len() && #[trigger] m0[y] == Some(id);
                    if m[y] is Some {
                        assert(m[y] == m0[y]);
                    }
                    assert(m[y] is None);
                }
            }
        }
        dropped
    }
}

/// Once a node is detached from the tree (its parent link cleared), one sweep
/// leaves no solver node mirroring it or anything below it.
pub proof fn lemma_sweep_clears_detached(
    t: Seq<NodeView>,
    root: NodeId,
    before: Seq<Option<u64>>,
    after: Seq<Option<u64>>,
    b: NodeId,
    d: NodeId,
    k: nat,
)
    requires
        tree_wf(t),
        (root as int) < t.len(),
        t[root as int].parent is None,
        (b as int) < t.len(),
        t[b as int].parent is None,
        b != root,
        ancestor(t, d, b, k),
        swept(t, root, before, after),
    ensures
        mapped(after, d as int) is None,
{
    lemma_detached_unreachable(t, root, b, d, k);
    assert(mapped(after, d as int) == if (d as int) < t.len() && reachable(t, root, d) {
        mapped(before, d as int)
    } else {
        None
    });
}

} // verus!
