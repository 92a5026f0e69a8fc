use vstd::prelude::*;
use crate::geometry::{layout_at, layout_of, LayoutBox};
use crate::style::Style;
use crate::tree::{tree_wf, NodeId, NodeTree, NodeView};

verus! {

/// One step of the per-frame paint walk, for the painter to carry out.
#[derive(Copy, Clone, Debug, PartialEq, Eq, Structural)]
pub enum RenderOp {
    /// Push the current transform and clip.
    Save,
    /// Move the origin.
    Translate { x: i128, y: i128 },
    /// Apply the scale and rotation of the node's transform.
    Transform(NodeId),
    /// Intersect the clip with `[0, 0, width, height]`; `None` is unbounded.
    Scissor { width: Option<i64>, height: Option<i64> },
    /// Paint the node before its children.
    PaintPre(NodeId, LayoutBox),
    /// Paint the node after its children.
    PaintPost(NodeId, LayoutBox),
    /// Pop the transform and clip pushed by the matching `Save`.
    Restore,
}

/// The scroll offset actually applied: the requested one, kept within
/// `[0, content - visible]` (and at 0 when the content fits).
pub open spec fn clamp_scroll(scroll: int, content: int, visible: int) -> int {
    let hi = if scroll < content - visible {
        scroll
    } else {
        content - visible
    };
    if hi < 0 {
        0
    } else {
        hi
    }
}

/// The origin of node `n`: its location, plus its explicit translation,
/// minus its clamped scroll offsets.
pub open spec fn origin_x(s: Style, b: LayoutBox) -> int {
    let off = match s.transform {
        Some(t) => t.x as int,
        None => 0,
    };
    b.x + off - clamp_scroll(s.scroll_x as int, b.content_width as int, b.width as int)
}

pub open spec fn origin_y(s: Style, b: LayoutBox) -> int {
    let off = match s.transform {
        Some(t) => t.y as int,
        None => 0,
    };
    b.y + off - clamp_scroll(s.scroll_y as int, b.content_height as int, b.height as int)
}

/// What is pushed before the children of `n` are painted.
pub open spec fn enter_ops(n: NodeId, s: Style, b: LayoutBox) -> Seq<RenderOp> {
    let moved = seq![
        RenderOp::Save,
        RenderOp::Translate { x: origin_x(s, b) as i128, y: origin_y(s, b) as i128 },
    ];
    let turned = if s.transform is Some {
        moved.push(RenderOp::Transform(n))
    } else {
        moved
    };
    let clipped = if s.overflow_x.spec_clips() || s.overflow_y.spec_clips() {
        turned.push(
            RenderOp::Scissor {
                width: if s.overflow_x.spec_clips() {
                    Some(b.width)
                } else {
                    None
                },
                height: if s.overflow_y.spec_clips() {
                    Some(b.height)
                } else {
                    None
                },
            },
        )
    } else {
        turned
    };
    clipped.push(RenderOp::PaintPre(n, b))
}

/// The paint walk below `n`: the state is pushed, the node painted, its
/// children walked in order, the node painted again and the state popped.
/// A node without layout is skipped with its subtree.
pub open spec fn render_seq(t: Seq<NodeView>, ls: Seq<Option<LayoutBox>>, n: NodeId, fuel: nat) -> Seq<RenderOp>
    decreases fuel, 0nat,
{
    if fuel == 0 {
        Seq::empty()
    } else {
        match layout_at(ls, n as int) {
            None => Seq::empty(),
            Some(b) => enter_ops(n, t[n as int].style, b) + (if t[n as int].holds {
                render_kids(t, ls, t[n as int].children, (fuel - 1) as nat)
            } else {
                Seq::empty()
            }) + seq![RenderOp::PaintPost(n, b), RenderOp::Restore],
        }
    }
}

pub open spec fn render_kids(t: Seq<NodeView>, ls: Seq<Option<LayoutBox>>, kids: Seq<NodeId>, fuel: nat) -> Seq<RenderOp>
    decreases fuel, kids.len(),
{
    if kids.len() == 0 {
        Seq::empty()
    } else {
        render_kids(t, ls, kids.drop_last(), fuel) + render_seq(t, ls, kids.last(), fuel)
    }
}

fn clamp_scroll_exec(scroll: i64, content: i64, visible: i64) -> (r: i128)
    ensures
        r == clamp_scroll(scroll as int, content as int, visible as int),
{
    let room = content as i128 - visible as i128;
    let hi = if (scroll as i128) < room {
        scroll as i128
    } else {
        room
    };
    if hi < 0 {
        0
    } else {
        hi
    }
}

fn push_enter(out: &mut Vec<RenderOp>, n: NodeId, s: Style, b: LayoutBox)
    ensures
        final(out)@ == old(out)@ + enter_ops(n, s, b),
{
    let (off_x, off_y) = match s.transform {
        Some(t) => (t.x as i128, t.y as i128),
        None => (0i128, 0i128),
    };
    let sx = clamp_scroll_exec(s.scroll_x, b.content_width, b.width);
    let sy = clamp_scroll_exec(s.scroll_y, b.content_height, b.height);
    let x = b.x as i128 + off_x - sx;
    let y = b.y as i128 + off_y - sy;
    let ghost start = out@;
    out.push(RenderOp::Save);
    out.push(RenderOp::Translate { x, y });
    if s.transform.is_some() {
        out.push(RenderOp::Transform(n));
    }
    let clip_x = s.overflow_x.clips();
    let clip_y = s.overflow_y.clips();
    if clip_x || clip_y {
        let width = if clip_x {
            Some(b.width)
        } else {
            None
        };
        let height = if clip_y {
            Some(b.height)
        } else {
            None
        };
        out.push(RenderOp::Scissor { width, height });
    }
    out.push(RenderOp::PaintPre(n, b));
    proof {
        assert(out@ =~= start + enter_ops(n, s, b));
    }
}

fn render_walk(tree: &NodeTree, layouts: &Vec<Option<LayoutBox>>, n: NodeId, fuel: usize, out: &mut Vec<RenderOp>)
    requires
        tree_wf(tree@),
        n < tree@.len(),
    ensures
        final(out)@ == old(out)@ + render_seq(tree@, layouts@, n, fuel as nat),
    decreases fuel,
{
    let ghost start = out@;
    if fuel == 0 {
        assert(out@ =~= start + render_seq(tree@, layouts@, n, fuel as nat));
        return;
    }
    let b = match layout_of(layouts, n) {
        None => {
            assert(out@ =~= start + render_seq(tree@, layouts@, n, fuel as nat));
            return;
        },
        Some(b) => b,
    };
    let s = tree.style(n);
    push_enter(out, n, s, b);
    let ghost entered = out@;
    let ghost t = tree@;
    match tree.children(n) {
        None => {},
        Some(kids) => {
            let mut i: usize = 0;
            while i < kids.len()
                invariant
                    t == tree@,
                    tree_wf(t),
                    n < t.len(),
                    kids@ == t[n as int].children,
                    i <= kids@.len(),
                    fuel > 0,
                    out@ == entered + render_kids(t, layouts@, kids@.take(i as int), (fuel - 1) as nat),
                decreases kids@.len() - i,
            {
                let c = kids[i];
                proof {
                    crate::tree::lemma_child_in_range(t, n as int, i as int);
                    assert(kids@.take(i as int + 1).drop_last() == kids@.take(i as int));
                    assert(kids@.take(i as int + 1).last() == c);
                }
                render_walk(tree, layouts, c, fuel - 1, out);
                proof {
                    assert(out@ =~= entered + render_kids(t, layouts@, kids@.take(i as int + 1), (fuel - 1) as nat));
                }
                i += 1;
            }
            proof {
                assert(kids@.take(kids@.len() as int) == kids@);
            }
        },
    }
    let ghost walked = out@;
    out.push(RenderOp::PaintPost(n, b));
    out.push(RenderOp::Restore);
    proof {
        let kids_ops = if t[n as int].holds {
            render_kids(t, layouts@, t[n as int].children, (fuel - 1) as nat)
        } else {
            Seq::empty()
        };
        assert(walked =~= entered + kids_ops);
        assert(out@ =~= start + render_seq(t, layouts@, n, fuel as nat));
    }
}

/// The paint walk of the whole tree from `root`, over the layout table
/// (indexed by node id).
pub fn render_ops(tree: &NodeTree, layouts: &Vec<Option<LayoutBox>>, root: NodeId) -> (r: Vec<RenderOp>)
    requires
        tree_wf(tree@),
        root < tree@.len(),
    ensures
        r@ == render_seq(tree@, layouts@, root, tree@.len()),
        nested(r@),
{
    proof {
        lemma_render_nested(tree@, layouts@, root, tree@.len());
    }
    let mut out: Vec<RenderOp> = Vec::new();
    render_walk(tree, layouts, root, tree.node_count(), &mut out);
    assert(out@ =~= render_seq(tree@, layouts@, root, tree@.len()));
    out
}

pub open spec fn op_depth(o: RenderOp) -> int {
    match o {
        RenderOp::Save => 1,
        RenderOp::Restore => -1,
        _ => 0,
    }
}

/// Number of `Save` less number of `Restore` in `s`.
pub open spec fn depth(s: Seq<RenderOp>) -> int
    decreases s.len(),
{
    if s.len() == 0 {
        0
    } else {
        depth(s.drop_last()) + op_depth(s.last())
    }
}

/// Every `Restore` pops a state that an earlier `Save` pushed, and every
/// pushed state is popped by the end.
pub open spec fn nested(s: Seq<RenderOp>) -> bool {
    &&& depth(s) == 0
    &&& forall|k: int| 0 <= k <= s.len() ==> depth(#[trigger] s.take(k)) >= 0
}

proof fn lemma_depth_add(a: Seq<RenderOp>, b: Seq<RenderOp>)
    ensures
        depth(a + b) == depth(a) + depth(b),
    decreases b.len(),
{
    if b.len() == 0 {
        assert(a + b =~= a);
    } else {
        assert((a + b).drop_last() =~= a + b.drop_last());
        assert((a + b).last() == b.last());
        lemma_depth_add(a, b.drop_last());
    }
}

proof fn lemma_take_concat(a: Seq<RenderOp>, b: Seq<RenderOp>, k: int)
    requires
        0 <= k <= a.len() + b.len(),
    ensures
        k <= a.len() ==> (a + b).take(k) == a.take(k),
        k > a.len() ==> (a + b).take(k) == a + b.take(k - a.len()),
{
    if k <= a.len() {
        assert((a + b).take(k) =~= a.take(k));
    } else {
        assert((a + b).take(k) =~= a + b.take(k - a.len()));
    }
}

proof fn lemma_nested_concat(a: Seq<RenderOp>, b: Seq<RenderOp>)
    requires
        nested(a),
        nested(b),
    ensures
        nested(a + b),
{
    lemma_depth_add(a, b);
    assert forall|k: int| 0 <= k <= (a + b).len() implies depth(#[trigger] (a + b).take(k)) >= 0 by {
        lemma_take_concat(a, b, k);
        if k > a.len() {
            lemma_depth_add(a, b.take(k - a.len()));
        }
    }
}

proof fn lemma_enter_depth(n: NodeId, s: Style, b: LayoutBox, k: int)
    requires
        0 <= k <= enter_ops(n, s, b).len(),
    ensures
        depth(enter_ops(n, s, b).take(k)) == if k == 0 {
            0int
        } else {
            1int
        },
    decreases k,
{
    let e = enter_ops(n, s, b);
    assert(e[0] == RenderOp::Save);
    assert(forall|i: int| 0 < i < e.len() ==> op_depth(#[trigger] e[i]) == 0);
    if k > 0 {
        assert(e.take(k).drop_last() =~= e.take(k - 1));
        lemma_enter_depth(n, s, b, k - 1);
    }
}

proof fn lemma_wrap_nested(e: Seq<RenderOp>, m: Seq<RenderOp>, tail: Seq<RenderOp>, n: NodeId, s: Style, b: LayoutBox)
    requires
        e == enter_ops(n, s, b),
        nested(m),
        tail == seq![RenderOp::PaintPost(n, b), RenderOp::Restore],
    ensures
        nested(e + m + tail),
{
    lemma_enter_depth(n, s, b, e.len() as int);
    assert(e.take(e.len() as int) =~= e);
    lemma_depth_add(e, m);
    lemma_depth_add(e + m, tail);
    assert(tail.drop_last() =~= seq![RenderOp::PaintPost(n, b)]);
    assert(tail.drop_last().drop_last() =~= Seq::<RenderOp>::empty());
    assert(depth(Seq::<RenderOp>::empty()) == 0);
    assert(tail.drop_last().last() == RenderOp::PaintPost(n, b));
    assert(depth(tail.drop_last()) == 0);
    assert(tail.last() == RenderOp::Restore);
    assert(depth(tail) == -1);
    assert forall|k: int| 0 <= k <= (e + m + tail).len() implies depth(#[trigger] (e + m + tail).take(k)) >= 0 by {
        lemma_take_concat(e + m, tail, k);
        if k <= (e + m).len() {
            lemma_take_concat(e, m, k);
            if k <= e.len() {
                lemma_enter_depth(n, s, b, k);
            } else {
                lemma_depth_add(e, m.take(k - e.len()));
            }
        } else {
            let j = k - (e + m).len();
            lemma_depth_add(e + m, tail.take(j));
            if j == 1 {
                assert(tail.take(1).drop_last() =~= Seq::<RenderOp>::empty());
            } else if j == 2 {
                assert(tail.take(2) =~= tail);
            } else {
                assert(tail.take(0) =~= Seq::<RenderOp>::empty());
            }
        }
    }
}

proof fn lemma_empty_nested()
    ensures
        nested(Seq::<RenderOp>::empty()),
{
    assert forall|k: int| 0 <= k <= 0 implies depth(#[trigger] Seq::<RenderOp>::empty().take(k)) >= 0 by {
        assert(Seq::<RenderOp>::empty().take(k) =~= Seq::<RenderOp>::empty());
    }
}

/// The paint walk is strictly nested: every `Restore` closes an earlier
/// `Save`, and every `Save` is closed, so no transform or clip leaks from a
/// subtree to its siblings.
pub proof fn lemma_render_nested(t: Seq<NodeView>, ls: Seq<Option<LayoutBox>>, n: NodeId, fuel: nat)
    ensures
        nested(render_seq(t, ls, n, fuel)),
    decreases fuel, 0nat,
{
    if fuel == 0 {
        lemma_empty_nested();
    } else {
        match layout_at(ls, n as int) {
            None => lemma_empty_nested(),
            Some(b) => {
                let m = if t[n as int].holds {
                    render_kids(t, ls, t[n as int].children, (fuel - 1) as nat)
                } else {
                    Seq::empty()
                };
                if t[n as int].holds {
                    lemma_kids_nested(t, ls, t[n as int].children, (fuel - 1) as nat);
                } else {
                    lemma_empty_nested();
                }
                lemma_wrap_nested(
                    enter_ops(n, t[n as int].style, b),
                    m,
                    seq![RenderOp::PaintPost(n, b), RenderOp::Restore],
                    n,
                    t[n as int].style,
                    b,
                );
            },
        }
    }
}

proof fn lemma_kids_nested(t: Seq<NodeView>, ls: Seq<Option<LayoutBox>>, kids: Seq<NodeId>, fuel: nat)
    ensures
        nested(render_kids(t, ls, kids, fuel)),
    decreases fuel, kids.len(),
{
    if kids.len() == 0 {
        lemma_empty_nested();
    } else {
        lemma_kids_nested(t, ls, kids.drop_last(), fuel);
        lemma_render_nested(t, ls, kids.last(), fuel);
        lemma_nested_concat(render_kids(t, ls, kids.drop_last(), fuel), render_seq(t, ls, kids.last(), fuel));
    }
}

/// The nodes below `n` in depth-first order, each before its children: the
/// order in which nodes are prepared for a frame.
pub open spec fn preorder(t: Seq<NodeView>, n: NodeId, fuel: nat) -> Seq<NodeId>
    decreases fuel, 0nat,
{
    if fuel == 0 {
        Seq::empty()
    } else {
        seq![n] + preorder_kids(t, t[n as int].children, (fuel - 1) as nat)
    }
}

pub open spec fn preorder_kids(t: Seq<NodeView>, kids: Seq<NodeId>, fuel: nat) -> Seq<NodeId>
    decreases fuel, kids.len(),
{
    if kids.len() == 0 {
        Seq::empty()
    } else {
        preorder_kids(t, kids.drop_last(), fuel) + preorder(t, kids.last(), fuel)
    }
}

fn preorder_walk(tree: &NodeTree, n: NodeId, fuel: usize, out: &mut Vec<NodeId>)
    requires
        tree_wf(tree@),
        n < tree@.len(),
    ensures
        final(out)@ == old(out)@ + preorder(tree@, n, fuel as nat),
    decreases fuel,
{
    let ghost start = out@;
    if fuel == 0 {
        assert(out@ =~= start + preorder(tree@, n, fuel as nat));
        return;
    }
    out.push(n);
    let ghost entered = out@;
    let ghost t = tree@;
    match tree.children(n) {
        None => {
            proof {
                crate::tree::lemma_no_children(t, n as int);
                assert(preorder_kids(t, t[n as int].children, (fuel - 1) as nat) == Seq::<NodeId>::empty());
            }
        },
        Some(kids) => {
            let mut i: usize = 0;
            while i < kids.len()
                invariant
                    t == tree@,
                    tree_wf(t),
                    n < t.len(),
                    kids@ == t[n as int].children,
                    i <= kids@.len(),
                    fuel > 0,
                    out@ == entered + preorder_kids(t, kids@.take(i as int), (fuel - 1) as nat),
                decreases kids@.len() - i,
            {
                let c = kids[i];
                proof {
                    crate::tree::lemma_child_in_range(t, n as int, i as int);
                    assert(kids@.take(i as int + 1).drop_last() == kids@.take(i as int));
                    assert(kids@.take(i as int + 1).last() == c);
                }
                preorder_walk(tree, c, fuel - 1, out);
                proof {
                    assert(out@ =~= entered + preorder_kids(t, kids@.take(i as int + 1), (fuel - 1) as nat));
                }
                i += 1;
            }
            proof {
                assert(kids@.take(kids@.len() as int) == kids@);
            }
        },
    }
    proof {
        assert(out@ =~= start + preorder(t, n, fuel as nat));
    }
}

/// The nodes of the tree from `root`, each before its children.
pub fn prepare_order(tree: &NodeTree, root: NodeId) -> (r: Vec<NodeId>)
    requires
        tree_wf(tree@),
        root < tree@.len(),
    ensures
        r@ == preorder(tree@, root, tree@.len()),
{
    let mut out: Vec<NodeId> = Vec::new();
    preorder_walk(tree, root, tree.node_count(), &mut out);
    assert(out@ =~= preorder(tree@, root, tree@.len()));
    out
}

} // verus!
