use mangui::style::Style;
use mangui::tree::{append, detach, insert, ChildAddError, NodeTree};

fn container(t: &mut NodeTree) -> usize {
    t.create_node(true, Style::plain())
}

fn leaf(t: &mut NodeTree) -> usize {
    t.create_node(false, Style::plain())
}

fn kids(t: &NodeTree, n: usize) -> Vec<usize> {
    t.children(n).unwrap().clone()
}

#[test]
fn remove_child_clears_list_and_parent() {
    let mut t = NodeTree::new();
    let root = container(&mut t);
    let a = container(&mut t);
    let b = container(&mut t);
    let l = leaf(&mut t);
    t.add_child(root, a).unwrap();
    t.add_child(a, b).unwrap();
    t.add_child(b, l).unwrap();
    t.remove_child(a, b).unwrap();
    assert!(kids(&t, a).is_empty());
    assert_eq!(t.parent(b), None);
    assert_eq!(kids(&t, b), vec![l]);
    assert_eq!(t.parent(l), Some(b));
}

#[test]
fn reinsertion_moves_without_duplicating() {
    let mut t = NodeTree::new();
    let p = container(&mut t);
    let x = leaf(&mut t);
    let y = leaf(&mut t);
    let z = leaf(&mut t);
    t.add_child(p, x).unwrap();
    t.add_child(p, y).unwrap();
    t.add_child(p, z).unwrap();
    t.add_child(p, x).unwrap();
    assert_eq!(kids(&t, p), vec![y, z, x]);
    t.add_child_at(p, x, 0).unwrap();
    assert_eq!(kids(&t, p), vec![x, y, z]);
    t.add_child_at(p, x, 2).unwrap();
    assert_eq!(kids(&t, p), vec![y, x, z]);
    assert_eq!(kids(&t, p).len(), 3);
    assert_eq!(t.parent(x), Some(p));
}

#[test]
fn cross_parent_move_detaches_first() {
    let mut t = NodeTree::new();
    let a = container(&mut t);
    let b = container(&mut t);
    let c = leaf(&mut t);
    let d = leaf(&mut t);
    t.add_child(a, c).unwrap();
    t.add_child(a, d).unwrap();
    t.add_child(b, c).unwrap();
    assert_eq!(kids(&t, a), vec![d]);
    assert_eq!(kids(&t, b), vec![c]);
    assert_eq!(t.parent(c), Some(b));
}

#[test]
fn single_parent_after_many_operations() {
    let mut t = NodeTree::new();
    let nodes: Vec<usize> = (0..6).map(|_| container(&mut t)).collect();
    let ops = [(0, 1), (0, 2), (1, 3), (2, 3), (3, 4), (1, 4), (0, 4), (2, 5), (5, 1)];
    for (p, c) in ops.iter() {
        t.add_child(nodes[*p], nodes[*c]).unwrap();
    }
    t.remove_child(nodes[0], nodes[2]).unwrap();
    for &c in nodes.iter() {
        let owners: Vec<usize> = nodes.iter().copied().filter(|&p| kids(&t, p).contains(&c)).collect();
        assert!(owners.len() <= 1);
        match t.parent(c) {
            Some(p) => assert_eq!(owners, vec![p]),
            None => assert!(owners.is_empty()),
        }
    }
}

#[test]
fn children_not_supported_errors() {
    let mut t = NodeTree::new();
    let l = leaf(&mut t);
    let m = leaf(&mut t);
    assert!(t.children(l).is_none());
    assert_eq!(t.add_child(l, m), Err(ChildAddError::ChildrenNotSupported));
    assert_eq!(t.add_child_at(l, m, 0), Err(ChildAddError::ChildrenNotSupported));
    assert_eq!(t.add_child_after(l, m, m), Err(ChildAddError::ChildrenNotSupported));
    assert_eq!(t.add_child_before(l, m, m), Err(ChildAddError::ChildrenNotSupported));
    assert_eq!(t.remove_child(l, m), Err(ChildAddError::ChildrenNotSupported));
    assert_eq!(t.parent(m), None);
}

#[test]
fn out_of_bounds_index_errors() {
    let mut t = NodeTree::new();
    let p = container(&mut t);
    let x = leaf(&mut t);
    assert_eq!(t.add_child_at(p, x, 1), Err(ChildAddError::OutOfBounds));
    assert!(kids(&t, p).is_empty());
    assert_eq!(t.parent(x), None);
}

#[test]
fn missing_anchor_errors() {
    let mut t = NodeTree::new();
    let p = container(&mut t);
    let x = leaf(&mut t);
    let y = leaf(&mut t);
    assert_eq!(t.add_child_after(p, x, y), Err(ChildAddError::GenericError("Child not found".to_string())));
    assert_eq!(t.add_child_before(p, x, y), Err(ChildAddError::GenericError("Child not found".to_string())));
    assert!(kids(&t, p).is_empty());
}

#[test]
fn before_and_after_anchor() {
    let mut t = NodeTree::new();
    let p = container(&mut t);
    let a = leaf(&mut t);
    let b = leaf(&mut t);
    let c = leaf(&mut t);
    t.add_child(p, a).unwrap();
    t.add_child_after(p, c, a).unwrap();
    t.add_child_before(p, b, c).unwrap();
    assert_eq!(kids(&t, p), vec![a, b, c]);
    assert_eq!(t.has_child(p, b), Some(1));
    assert_eq!(t.has_child(p, p), None);
}

#[test]
fn removing_absent_child_is_noop() {
    let mut t = NodeTree::new();
    let p = container(&mut t);
    let x = leaf(&mut t);
    assert_eq!(t.remove_child(p, x), Ok(()));
    assert!(kids(&t, p).is_empty());
}

#[test]
fn detach_insert_append() {
    let mut t = NodeTree::new();
    let p = container(&mut t);
    let q = container(&mut t);
    let a = leaf(&mut t);
    let b = leaf(&mut t);
    append(&mut t, p, a);
    insert(&mut t, p, b, Some(a));
    assert_eq!(kids(&t, p), vec![b, a]);
    insert(&mut t, q, a, None);
    assert_eq!(kids(&t, p), vec![b]);
    assert_eq!(kids(&t, q), vec![a]);
    detach(&mut t, a);
    assert!(kids(&t, q).is_empty());
    assert_eq!(t.parent(a), None);
    detach(&mut t, a);
    assert_eq!(t.parent(a), None);
}

#[test]
fn ancestor_cannot_become_child() {
    let mut t = NodeTree::new();
    let root = container(&mut t);
    let a = container(&mut t);
    let b = container(&mut t);
    t.add_child(root, a).unwrap();
    t.add_child(a, b).unwrap();
    let err = ChildAddError::GenericError("Child is an ancestor of the parent".to_string());
    assert_eq!(t.add_child(b, root), Err(err.clone()));
    assert_eq!(t.add_child(b, a), Err(err.clone()));
    assert_eq!(t.add_child(a, a), Err(err));
    assert!(t.is_above(root, b) && t.is_above(b, b) && !t.is_above(b, root));
    assert_eq!(kids(&t, b), Vec::<usize>::new());
    assert_eq!(kids(&t, a), vec![b]);
    assert_eq!(t.parent(root), None);
    t.remove_child(a, b).unwrap();
    t.add_child(b, a).unwrap();
    assert_eq!(t.parent(a), Some(b));
    assert!(kids(&t, root).is_empty());
}

#[test]
fn same_index_twice_is_idempotent() {
    let mut t = NodeTree::new();
    let p = container(&mut t);
    let a = leaf(&mut t);
    let b = leaf(&mut t);
    let c = leaf(&mut t);
    t.add_child(p, a).unwrap();
    t.add_child(p, b).unwrap();
    t.add_child_at(p, c, 1).unwrap();
    let once = kids(&t, p);
    t.add_child_at(p, c, 1).unwrap();
    assert_eq!(kids(&t, p), once);
    t.add_child_at(p, a, 2).unwrap();
    let once = kids(&t, p);
    t.add_child_at(p, a, 2).unwrap();
    assert_eq!(kids(&t, p), once);
    assert_eq!(once, vec![c, a, b]);
}
