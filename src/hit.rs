use vstd::prelude::*;
use crate::geometry::{contains_point, inside, layout_at, layout_of, strictly_outside, LayoutBox, Location};
use crate::reach::{ancestor, lemma_below_not_above};
use crate::tree::{tree_wf, NodeId, NodeTree, NodeView};

verus! {

/// The hit-test path below `n`: `n` itself when the point lies in its box,
/// followed by the paths of all of its children that the point hits, in
/// child order. `None` when `n` has no layout or the point misses it.
/// `fuel` bounds the depth of the walk.
pub open spec fn hit_path(t: Seq<NodeView>, ls: Seq<Option<LayoutBox>>, n: NodeId, p: Location, fuel: nat) -> Option<Seq<NodeId>>
    decreases fuel, 0nat,
{
    if fuel == 0 {
        None
    } else {
        match layout_at(ls, n as int) {
            None => None,
            Some(b) => if !inside(b, p) {
                None
            } else if !t[n as int].holds {
                Some(seq![n])
            } else {
                Some(seq![n] + hits_of(t, ls, t[n as int].children, p, (fuel - 1) as nat))
            },
        }
    }
}

/// The hit-test paths of the nodes in `kids`, concatenated in order.
pub open spec fn hits_of(t: Seq<NodeView>, ls: Seq<Option<LayoutBox>>, kids: Seq<NodeId>, p: Location, fuel: nat) -> Seq<NodeId>
    decreases fuel, kids.len(),
{
    if kids.len() == 0 {
        Seq::empty()
    } else {
        hits_of(t, ls, kids.drop_last(), p, fuel) + match hit_path(t, ls, kids.last(), p, fuel) {
            Some(q) => q,
            None => Seq::empty(),
        }
    }
}

fn hit_walk(tree: &NodeTree, layouts: &Vec<Option<LayoutBox>>, n: NodeId, location: &Location, fuel: usize) -> (r: Option<Vec<NodeId>>)
    requires
        tree_wf(tree@),
        n < tree@.len(),
    ensures
        match r {
            Some(v) => hit_path(tree@, layouts@, n, *location, fuel as nat) == Some(v@),
            None => hit_path(tree@, layouts@, n, *location, fuel as nat) is None,
        },
    decreases fuel,
{
    if fuel == 0 {
        return None;
    }
    let b = match layout_of(layouts, n) {
        None => return None,
        Some(b) => b,
    };
    if !contains_point(&b, location) {
        return None;
    }
    let mut result: Vec<NodeId> = Vec::new();
    result.push(n);
    match tree.children(n) {
        None => Some(result),
        Some(kids) => {
            let ghost t = tree@;
            let mut i: usize = 0;
            while i < kids.len()
                invariant
                    t == tree@,
                    tree_wf(t),
                    n < t.len(),
                    kids@ == t[n as int].children,
                    i <= kids@.len(),
                    fuel > 0,
                    result@ == seq![n] + hits_of(t, layouts@, kids@.take(i as int), *location, (fuel - 1) as nat),
                decreases kids@.len() - i,
            {
                let c = kids[i];
                proof {
                    crate::tree::lemma_child_in_range(t, n as int, i as int);
                    assert(kids@.take(i as int + 1).drop_last() == kids@.take(i as int));
                    assert(kids@.take(i as int + 1).last() == c);
                }
                match hit_walk(tree, layouts, c, location, fuel - 1) {
                    Some(mut sub) => {
                        result.append(&mut sub);
                    },
                    None => {},
                }
                proof {
                    assert(result@ =~= seq![n] + hits_of(t, layouts@, kids@.take(i as int + 1), *location, (fuel - 1) as nat));
                }
                i += 1;
            }
            proof {
                assert(kids@.take(kids@.len() as int) == kids@);
            }
            Some(result)
        },
    }
}

/// Path from `root` to the nodes under `location`, deepest last, computed
/// over the layout table (indexed by node id).
pub fn get_element_at(tree: &NodeTree, layouts: &Vec<Option<LayoutBox>>, root: NodeId, location: &Location) -> (r: Option<Vec<NodeId>>)
    requires
        tree_wf(tree@),
        root < tree@.len(),
    ensures
        match r {
            Some(v) => hit_path(tree@, layouts@, root, *location, tree@.len()) == Some(v@),
            None => hit_path(tree@, layouts@, root, *location, tree@.len()) is None,
        },
{
    hit_walk(tree, layouts, root, location, tree.node_count())
}

proof fn lemma_hits_of_member(t: Seq<NodeView>, ls: Seq<Option<LayoutBox>>, kids: Seq<NodeId>, p: Location, fuel: nat, m: NodeId)
    requires
        hits_of(t, ls, kids, p, fuel).contains(m),
    ensures
        exists|i: int| 0 <= i < kids.len() && #[trigger] hit_path(t, ls, kids[i], p, fuel) is Some && hit_path(t, ls, kids[i], p, fuel).unwrap().contains(m),
    decreases kids.len(),
{
    let pre = hits_of(t, ls, kids.drop_last(), p, fuel);
    let last = match hit_path(t, ls, kids.last(), p, fuel) {
        Some(q) => q,
        None => Seq::empty(),
    };
    assert(hits_of(t, ls, kids, p, fuel) == pre + last);
    let k = choose|k: int| 0 <= k < (pre + last).len() && (pre + last)[k] == m;
    if k < pre.len() {
        assert(pre[k] == m);
        lemma_hits_of_member(t, ls, kids.drop_last(), p, fuel, m);
        let i = choose|i: int| 0 <= i < kids.drop_last().len() && #[trigger] hit_path(t, ls, kids.drop_last()[i], p, fuel) is Some && hit_path(t, ls, kids.drop_last()[i], p, fuel).unwrap().contains(m);
        assert(kids.drop_last()[i] == kids[i]);
    } else {
        assert(last[k - pre.len()] == m);
        assert(kids.last() == kids[kids.len() - 1]);
    }
}

/// Every node on a hit-test path has a layout whose box holds the point; so a
/// node whose box the point lies strictly outside of is never on the path.
pub proof fn lemma_hit_path_contains_point(t: Seq<NodeView>, ls: Seq<Option<LayoutBox>>, n: NodeId, p: Location, fuel: nat, m: NodeId)
    requires
        hit_path(t, ls, n, p, fuel) is Some,
        hit_path(t, ls, n, p, fuel).unwrap().contains(m),
    ensures
        layout_at(ls, m as int) is Some,
        inside(layout_at(ls, m as int).unwrap(), p),
        !strictly_outside(layout_at(ls, m as int).unwrap(), p),
    decreases fuel,
{
    let path = hit_path(t, ls, n, p, fuel).unwrap();
    let k = choose|k: int| 0 <= k < path.len() && path[k] == m;
    if k == 0 {
        assert(path[0] == n);
    } else {
        let kids = t[n as int].children;
        let rest = hits_of(t, ls, kids, p, (fuel - 1) as nat);
        assert(path == seq![n] + rest);
        assert(rest[k - 1] == m);
        lemma_hits_of_member(t, ls, kids, p, (fuel - 1) as nat, m);
        let i = choose|i: int| 0 <= i < kids.len() && #[trigger] hit_path(t, ls, kids[i], p, (fuel - 1) as nat) is Some && hit_path(t, ls, kids[i], p, (fuel - 1) as nat).unwrap().contains(m);
        lemma_hit_path_contains_point(t, ls, kids[i], p, (fuel - 1) as nat, m);
    }
}

/// A point inside the box of a node without children gives the one-element
/// path of that node.
pub proof fn lemma_leaf_hit(t: Seq<NodeView>, ls: Seq<Option<LayoutBox>>, n: NodeId, p: Location, fuel: nat)
    requires
        fuel > 0,
        layout_at(ls, n as int) is Some,
        inside(layout_at(ls, n as int).unwrap(), p),
        t[n as int].children.len() == 0,
    ensures
        hit_path(t, ls, n, p, fuel) == Some(seq![n]),
{
    assert(hits_of(t, ls, t[n as int].children, p, (fuel - 1) as nat) == Seq::<NodeId>::empty());
    assert(seq![n] + Seq::<NodeId>::empty() =~= seq![n]);
}

/// A hit-test path starts at the node tested and is never empty.
pub proof fn lemma_hit_path_nonempty(t: Seq<NodeView>, ls: Seq<Option<LayoutBox>>, n: NodeId, p: Location, fuel: nat)
    requires
        hit_path(t, ls, n, p, fuel) is Some,
    ensures
        hit_path(t, ls, n, p, fuel).unwrap().len() > 0,
        hit_path(t, ls, n, p, fuel).unwrap()[0] == n,
{
}

proof fn lemma_hits_of_includes(t: Seq<NodeView>, ls: Seq<Option<LayoutBox>>, kids: Seq<NodeId>, p: Location, fuel: nat, i: int, m: NodeId)
    requires
        0 <= i < kids.len(),
        hit_path(t, ls, kids[i], p, fuel) is Some,
        hit_path(t, ls, kids[i], p, fuel).unwrap().contains(m),
    ensures
        hits_of(t, ls, kids, p, fuel).contains(m),
    decreases kids.len(),
{
    let pre = hits_of(t, ls, kids.drop_last(), p, fuel);
    let last = match hit_path(t, ls, kids.last(), p, fuel) {
        Some(q) => q,
        None => Seq::empty(),
    };
    assert(hits_of(t, ls, kids, p, fuel) == pre + last);
    if i == kids.len() - 1 {
        let k = choose|k: int| 0 <= k < last.len() && last[k] == m;
        assert((pre + last)[pre.len() + k] == m);
    } else {
        assert(kids.drop_last()[i] == kids[i]);
        lemma_hits_of_includes(t, ls, kids.drop_last(), p, fuel, i, m);
        let k = choose|k: int| 0 <= k < pre.len() && pre[k] == m;
        assert((pre + last)[k] == m);
    }
}

/// Every node of a hit-test path but the first has its parent on the path.
proof fn lemma_parent_on_path(t: Seq<NodeView>, ls: Seq<Option<LayoutBox>>, n: NodeId, p: Location, fuel: nat, d: NodeId)
    requires
        tree_wf(t),
        (n as int) < t.len(),
        hit_path(t, ls, n, p, fuel) is Some,
        hit_path(t, ls, n, p, fuel).unwrap().contains(d),
        d != n,
    ensures
        t[d as int].parent is Some,
        hit_path(t, ls, n, p, fuel).unwrap().contains(t[d as int].parent.unwrap()),
    decreases fuel,
{
    let path = hit_path(t, ls, n, p, fuel).unwrap();
    let kids = t[n as int].children;
    let rest = hits_of(t, ls, kids, p, (fuel - 1) as nat);
    let k = choose|k: int| 0 <= k < path.len() && path[k] == d;
    assert(path[0] == n);
    assert(path == seq![n] + rest);
    assert(rest[k - 1] == d);
    lemma_hits_of_member(t, ls, kids, p, (fuel - 1) as nat, d);
    let i = choose|i: int| 0 <= i < kids.len() && #[trigger] hit_path(t, ls, kids[i], p, (fuel - 1) as nat) is Some && hit_path(t, ls, kids[i], p, (fuel - 1) as nat).unwrap().contains(d);
    let c = kids[i];
    crate::tree::lemma_child_in_range(t, n as int, i);
    if d == c {
        assert(path[0] == n);
    } else {
        lemma_parent_on_path(t, ls, c, p, (fuel - 1) as nat, d);
        let q = t[d as int].parent.unwrap();
        lemma_hits_of_includes(t, ls, kids, p, (fuel - 1) as nat, i, q);
        let j = choose|j: int| 0 <= j < rest.len() && rest[j] == q;
        assert(path[j + 1] == q);
    }
}

/// When the point lies strictly outside the box of node `m` (or `m` has no
/// layout), neither `m` nor any node below it is on the hit-test path from
/// `root`, provided `m` is not a proper ancestor of `root`.
pub proof fn lemma_miss_excludes_subtree(
    t: Seq<NodeView>,
    ls: Seq<Option<LayoutBox>>,
    root: NodeId,
    p: Location,
    fuel: nat,
    m: NodeId,
    d: NodeId,
    k: nat,
)
    requires
        tree_wf(t),
        (root as int) < t.len(),
        forall|j: nat| j >= 1 ==> !#[trigger] ancestor(t, root, m, j),
        hit_path(t, ls, root, p, fuel) is Some,
        layout_at(ls, m as int) is Some ==> strictly_outside(layout_at(ls, m as int).unwrap(), p),
        ancestor(t, d, m, k),
    ensures
        !hit_path(t, ls, root, p, fuel).unwrap().contains(d),
    decreases k,
{
    let path = hit_path(t, ls, root, p, fuel).unwrap();
    if path.contains(d) {
        if k == 0 {
            lemma_hit_path_contains_point(t, ls, root, p, fuel, d);
        } else if d == root {
            assert(ancestor(t, root, m, k));
        } else {
            lemma_parent_on_path(t, ls, root, p, fuel, d);
            let q = t[d as int].parent.unwrap();
            lemma_miss_excludes_subtree(t, ls, root, p, fuel, m, q, (k - 1) as nat);
        }
    }
}

/// A hit-test path from `root` holds no node of the subtree of a node `m`
/// below `root` whose box the point lies strictly outside of (or that has no
/// layout).
pub proof fn lemma_miss_excludes_descendants(
    t: Seq<NodeView>,
    ls: Seq<Option<LayoutBox>>,
    root: NodeId,
    p: Location,
    fuel: nat,
    m: NodeId,
    j: nat,
    d: NodeId,
    k: nat,
)
    requires
        tree_wf(t),
        (root as int) < t.len(),
        j >= 1,
        ancestor(t, m, root, j),
        hit_path(t, ls, root, p, fuel) is Some,
        layout_at(ls, m as int) is Some ==> strictly_outside(layout_at(ls, m as int).unwrap(), p),
        ancestor(t, d, m, k),
    ensures
        !hit_path(t, ls, root, p, fuel).unwrap().contains(d),
{
    assert forall|i: nat| i >= 1 implies !#[trigger] ancestor(t, root, m, i) by {
        lemma_below_not_above(t, root, m, j, i);
    }
    lemma_miss_excludes_subtree(t, ls, root, p, fuel, m, d, k);
}

} // verus!
