use mangui::geometry::LayoutBox;
use mangui::mirror::LayoutMirror;
use mangui::reach::live_nodes;
use mangui::render::{render_ops, RenderOp};
use mangui::style::{Overflow, Style, Transform};
use mangui::tree::NodeTree;

fn lb(x: i64, y: i64, w: i64, h: i64, cw: i64, ch: i64) -> Option<LayoutBox> {
    Some(LayoutBox { x, y, width: w, height: h, content_width: cw, content_height: ch })
}

/// Gives every unmapped live node a fresh solver id, as the solver would.
fn sync_leaves(m: &mut LayoutMirror, t: &NodeTree, root: usize, next: &mut u64) {
    for n in m.unmapped_live(t, root) {
        assert!(m.register(n, *next));
        *next += 1;
    }
}

#[test]
fn mirror_maps_live_nodes_and_children() {
    let mut t = NodeTree::new();
    let root = t.create_node(true, Style::plain());
    let a = t.create_node(true, Style::plain());
    let b = t.create_node(false, Style::plain());
    let stray = t.create_node(false, Style::plain());
    t.add_child(root, a).unwrap();
    t.add_child(a, b).unwrap();
    let mut m = LayoutMirror::new();
    let mut next = 100;
    assert_eq!(m.unmapped_live(&t, root), vec![root, a, b]);
    sync_leaves(&mut m, &t, root, &mut next);
    assert_eq!(m.solver_node(root), Some(100));
    assert_eq!(m.solver_node(a), Some(101));
    assert_eq!(m.solver_node(b), Some(102));
    assert_eq!(m.solver_node(stray), None);
    assert!(m.unmapped_live(&t, root).is_empty());
    let plan = m.children_plan(&t, root);
    assert_eq!(plan, vec![(100, vec![101]), (101, vec![102])]);
    assert!(m.collect_garbage(&t, root).is_empty());
    let mut e = m.entries();
    e.sort();
    assert_eq!(e, vec![(root, 100), (a, 101), (b, 102)]);
}

#[test]
fn register_refuses_duplicates() {
    let mut m = LayoutMirror::new();
    assert!(m.register(0, 5));
    assert!(!m.register(0, 6));
    assert!(!m.register(1, 5));
    assert!(m.register(3, 6));
    assert_eq!(m.solver_node(1), None);
    assert_eq!(m.solver_node(3), Some(6));
    assert!(m.uses(6) && !m.uses(7));
}

#[test]
fn removed_subtree_leaves_the_mirror() {
    let mut t = NodeTree::new();
    let root = t.create_node(true, Style::plain());
    let a = t.create_node(true, Style::plain());
    let b = t.create_node(true, Style::plain());
    let l = t.create_node(false, Style::plain());
    let k = t.create_node(false, Style::plain());
    t.add_child(root, a).unwrap();
    t.add_child(a, b).unwrap();
    t.add_child(b, l).unwrap();
    t.add_child(root, k).unwrap();
    let mut m = LayoutMirror::new();
    let mut next = 1;
    sync_leaves(&mut m, &t, root, &mut next);
    let (sb, sl) = (m.solver_node(b).unwrap(), m.solver_node(l).unwrap());
    t.remove_child(a, b).unwrap();
    let mut gone = m.collect_garbage(&t, root);
    gone.sort();
    assert_eq!(gone, vec![sb, sl]);
    assert_eq!(m.solver_node(b), None);
    assert_eq!(m.solver_node(l), None);
    assert!(m.solver_node(a).is_some() && m.solver_node(k).is_some());
    let plan = m.children_plan(&t, root);
    let sa = m.solver_node(a).unwrap();
    assert!(plan.contains(&(sa, vec![])));
}

#[test]
fn reachability_marks() {
    let mut t = NodeTree::new();
    let root = t.create_node(true, Style::plain());
    let a = t.create_node(true, Style::plain());
    let b = t.create_node(false, Style::plain());
    t.add_child(root, a).unwrap();
    assert_eq!(live_nodes(&t, root), vec![true, true, false]);
    t.add_child(a, b).unwrap();
    assert_eq!(live_nodes(&t, root), vec![true, true, true]);
    assert_eq!(live_nodes(&t, a), vec![false, true, true]);
}

#[test]
fn render_walk_pushes_and_pops() {
    let mut t = NodeTree::new();
    let root = t.create_node(true, Style::plain());
    let mut s = Style::plain();
    s.overflow_y = Overflow::Hidden;
    s.transform = Some(Transform { x: 3, y: 4 });
    s.scroll_x = 50;
    s.scroll_y = -5;
    let panel = t.create_node(true, s);
    let leaf = t.create_node(false, Style::plain());
    t.add_child(root, panel).unwrap();
    t.add_child(panel, leaf).unwrap();
    let l = vec![lb(0, 0, 200, 200, 200, 200), lb(10, 20, 100, 80, 130, 300), lb(1, 2, 5, 5, 5, 5)];
    let ops = render_ops(&t, &l, root);
    let root_box = l[0].unwrap();
    let panel_box = l[1].unwrap();
    let leaf_box = l[2].unwrap();
    assert_eq!(
        ops,
        vec![
            RenderOp::Save,
            RenderOp::Translate { x: 0, y: 0 },
            RenderOp::PaintPre(root, root_box),
            RenderOp::Save,
            RenderOp::Translate { x: 10 + 3 - 30, y: 20 + 4 },
            RenderOp::Transform(panel),
            RenderOp::Scissor { width: None, height: Some(80) },
            RenderOp::PaintPre(panel, panel_box),
            RenderOp::Save,
            RenderOp::Translate { x: 1, y: 2 },
            RenderOp::PaintPre(leaf, leaf_box),
            RenderOp::PaintPost(leaf, leaf_box),
            RenderOp::Restore,
            RenderOp::PaintPost(panel, panel_box),
            RenderOp::Restore,
            RenderOp::PaintPost(root, root_box),
            RenderOp::Restore,
        ]
    );
}

#[test]
fn render_skips_nodes_without_layout() {
    let mut t = NodeTree::new();
    let root = t.create_node(true, Style::plain());
    let a = t.create_node(false, Style::plain());
    t.add_child(root, a).unwrap();
    let l = vec![lb(0, 0, 10, 10, 10, 10)];
    let ops = render_ops(&t, &l, root);
    assert_eq!(ops.len(), 5);
    let mut depth = 0i64;
    for op in ops.iter() {
        match op {
            RenderOp::Save => depth += 1,
            RenderOp::Restore => depth -= 1,
            _ => {},
        }
        assert!(depth >= 0);
    }
    assert_eq!(depth, 0);
}

#[test]
fn style_setter_changes_only_style() {
    let mut t = NodeTree::new();
    let root = t.create_node(true, Style::plain());
    let a = t.create_node(false, Style::plain());
    t.add_child(root, a).unwrap();
    let mut s = Style::plain();
    s.scroll_x = 9;
    t.set_style(a, s);
    assert_eq!(t.style(a).scroll_x, 9);
    assert_eq!(t.parent(a), Some(root));
    assert!(Overflow::Scroll.clips() && !Overflow::Visible.clips());
}

#[test]
fn prepare_walk_is_preorder() {
    let mut t = NodeTree::new();
    let root = t.create_node(true, Style::plain());
    let a = t.create_node(true, Style::plain());
    let b = t.create_node(false, Style::plain());
    let c = t.create_node(false, Style::plain());
    t.add_child(root, a).unwrap();
    t.add_child(a, b).unwrap();
    t.add_child(root, c).unwrap();
    assert_eq!(mangui::render::prepare_order(&t, root), vec![root, a, b, c]);
}
