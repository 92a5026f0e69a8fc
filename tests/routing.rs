use mangui::events::{
    dispatch_order, focus_events, pointer_button, pointer_moved, InnerEvent, Modifiers, MouseButton, MouseEvent,
    MouseValue, PointerState,
};
use mangui::geometry::{LayoutBox, Location};
use mangui::handler::EventHandlerDatabase;
use mangui::hit::get_element_at;
use mangui::style::Style;
use mangui::tree::NodeTree;


fn lb(x: i64, y: i64, w: i64, h: i64) -> Option<LayoutBox> {
    Some(LayoutBox { x, y, width: w, height: h, content_width: w, content_height: h })
}

fn no_mods() -> Modifiers {
    Modifiers { shift: false, ctrl: false, alt: false, logo: false }
}

/// root (0,0,100,100) -> mid (10,10,50,50) -> leaf (20,20,10,10); side (70,70,20,20) under root.
fn scene() -> (NodeTree, Vec<Option<LayoutBox>>, usize, usize, usize, usize) {
    let mut t = NodeTree::new();
    let root = t.create_node(true, Style::plain());
    let mid = t.create_node(true, Style::plain());
    let leaf = t.create_node(false, Style::plain());
    let side = t.create_node(false, Style::plain());
    t.add_child(root, mid).unwrap();
    t.add_child(mid, leaf).unwrap();
    t.add_child(root, side).unwrap();
    let layouts = vec![lb(0, 0, 100, 100), lb(10, 10, 50, 50), lb(20, 20, 10, 10), lb(70, 70, 20, 20)];
    (t, layouts, root, mid, leaf, side)
}

#[test]
fn hit_test_path_root_to_leaf() {
    let (t, l, root, mid, leaf, _side) = scene();
    assert_eq!(get_element_at(&t, &l, root, &Location::new(25, 25)), Some(vec![root, mid, leaf]));
    assert_eq!(get_element_at(&t, &l, root, &Location::new(15, 15)), Some(vec![root, mid]));
}

#[test]
fn hit_test_outside_excludes_subtree() {
    let (t, l, root, mid, leaf, side) = scene();
    let p = get_element_at(&t, &l, root, &Location::new(80, 80)).unwrap();
    assert_eq!(p, vec![root, side]);
    assert!(!p.contains(&mid) && !p.contains(&leaf));
    assert_eq!(get_element_at(&t, &l, root, &Location::new(101, 5)), None);
    assert_eq!(get_element_at(&t, &l, root, &Location::new(-1, 5)), None);
}

#[test]
fn hit_test_leaf_alone() {
    let (t, l, _root, _mid, leaf, _side) = scene();
    assert_eq!(get_element_at(&t, &l, leaf, &Location::new(25, 25)), Some(vec![leaf]));
    assert_eq!(get_element_at(&t, &l, leaf, &Location::new(20, 30)), Some(vec![leaf]));
}

#[test]
fn hit_test_without_layout_misses() {
    let (t, _l, root, _mid, _leaf, _side) = scene();
    let empty: Vec<Option<LayoutBox>> = Vec::new();
    assert_eq!(get_element_at(&t, &empty, root, &Location::new(5, 5)), None);
}

#[test]
fn dispatch_runs_leaf_first() {
    assert_eq!(dispatch_order(&vec![1, 2, 3]), vec![3, 2, 1]);
    assert_eq!(dispatch_order(&vec![]), Vec::<usize>::new());
    let mut log: Vec<(usize, usize)> = Vec::new();
    let mut dbs: Vec<EventHandlerDatabase<usize>> = (0..3).map(|_| EventHandlerDatabase::empty()).collect();
    for (node, db) in dbs.iter_mut().enumerate() {
        db.add_handler(node * 10);
        db.add_handler(node * 10 + 1);
    }
    for n in dispatch_order(&vec![0, 1, 2]) {
        for (_, h) in dbs[n].handlers().iter() {
            log.push((n, *h));
        }
    }
    assert_eq!(log, vec![(2, 20), (2, 21), (1, 10), (1, 11), (0, 0), (0, 1)]);
}

#[test]
fn handler_tokens_and_removal() {
    let mut db = EventHandlerDatabase::new(vec!['a', 'b', 'c']);
    assert_eq!(db.len(), 3);
    let t = db.add_handler('d');
    assert_eq!(t, 3);
    db.remove_handler(1);
    let left: Vec<(usize, char)> = db.handlers().clone();
    assert_eq!(left, vec![(0, 'a'), (2, 'c'), (3, 'd')]);
    db.remove_handler(1);
    assert_eq!(db.len(), 3);
}

#[test]
fn pointer_move_first_then_delta() {
    let (t, l, root, mid, leaf, _side) = scene();
    let mut st = PointerState::new();
    let e = pointer_moved(&mut st, &t, &l, root, 7, Location::new(25, 25), no_mods()).unwrap();
    assert_eq!(e.target, leaf);
    assert_eq!(e.path, vec![root, mid, leaf]);
    match e.event {
        InnerEvent::MouseMove(m) => {
            assert_eq!(m.movement, Location::new(0, 0));
            assert_eq!(m.offset, Location::new(5, 5));
            assert_eq!(m.client, Location::new(25, 25));
            assert_eq!(m.buttons, 0);
            assert_eq!(m.button, None);
            assert_eq!(m.device, 7);
        },
        _ => panic!("expected a move"),
    }
    let e = pointer_moved(&mut st, &t, &l, root, 7, Location::new(15, 12), no_mods()).unwrap();
    assert_eq!(e.target, mid);
    match e.event {
        InnerEvent::MouseMove(m) => {
            assert_eq!(m.movement, Location::new(-10, -13));
            assert_eq!(m.offset, Location::new(5, 2));
        },
        _ => panic!("expected a move"),
    }
    assert_eq!(st.get(7), Some(MouseValue { last_location: Location::new(15, 12), buttons: 0 }));
}

#[test]
fn pointer_button_needs_a_move_first() {
    let (t, l, root, mid, _leaf, _side) = scene();
    let mut st = PointerState::new();
    assert!(pointer_button(&mut st, &t, &l, root, 3, MouseButton::Left, true, no_mods()).is_none());
    assert_eq!(st.get(3), None);
    pointer_moved(&mut st, &t, &l, root, 3, Location::new(15, 15), no_mods());
    let e = pointer_button(&mut st, &t, &l, root, 3, MouseButton::Right, true, no_mods()).unwrap();
    assert_eq!(e.target, mid);
    match e.event {
        InnerEvent::MouseDown(m) => {
            assert_eq!(m.buttons, 2);
            assert_eq!(m.button, Some(MouseButton::Right));
            assert_eq!(m.movement, Location::new(0, 0));
        },
        _ => panic!("expected a press"),
    }
    let e = pointer_button(&mut st, &t, &l, root, 3, MouseButton::Right, false, no_mods()).unwrap();
    match e.event {
        InnerEvent::MouseUp(m) => assert_eq!(m.buttons, 0),
        _ => panic!("expected a release"),
    }
}

#[test]
fn pointer_move_outside_gives_no_event() {
    let (t, l, root, _mid, _leaf, _side) = scene();
    let mut st = PointerState::new();
    assert!(pointer_moved(&mut st, &t, &l, root, 1, Location::new(500, 500), no_mods()).is_none());
    assert_eq!(st.get(1), Some(MouseValue { last_location: Location::new(500, 500), buttons: 0 }));
}

#[test]
fn button_bits() {
    assert_eq!(MouseEvent::button_to_buttons(MouseButton::Left), 1);
    assert_eq!(MouseEvent::button_to_buttons(MouseButton::Right), 2);
    assert_eq!(MouseEvent::button_to_buttons(MouseButton::Middle), 4);
    assert_eq!(MouseEvent::button_to_buttons(MouseButton::Other(5)), 32);
    let mut v = MouseValue { last_location: Location::new(0, 0), buttons: 0 };
    v.update_buttons(MouseButton::Left, true);
    v.update_buttons(MouseButton::Middle, true);
    assert_eq!(v.buttons, 5);
    v.update_buttons(MouseButton::Left, false);
    assert_eq!(v.buttons, 4);
}

#[test]
fn modifier_accessors() {
    let m = MouseEvent {
        button: None,
        buttons: 0,
        modifiers: Modifiers { shift: true, ctrl: false, alt: true, logo: false },
        client: Location::new(0, 0),
        movement: Location::new(0, 0),
        offset: Location::new(0, 0),
        device: 0,
    };
    assert!(m.shift() && !m.ctrl() && m.alt() && !m.logo());
}

#[test]
fn focus_change_events() {
    assert!(focus_events(&vec![], true).is_none());
    let (single, along) = focus_events(&vec![0, 4, 9], true).unwrap();
    assert_eq!(single.target, 9);
    assert_eq!(single.event, InnerEvent::Focus);
    assert_eq!(along.event, InnerEvent::FocusIn);
    assert_eq!(along.path, vec![0, 4, 9]);
    let (single, along) = focus_events(&vec![2], false).unwrap();
    assert_eq!(single.event, InnerEvent::Blur);
    assert_eq!(along.event, InnerEvent::FocusOut);
}

#[test]
fn handler_invocations_leaf_first() {
    let mut dbs: Vec<EventHandlerDatabase<char>> = (0..3).map(|_| EventHandlerDatabase::empty()).collect();
    dbs[0].add_handler('r');
    dbs[1].add_handler('m');
    dbs[1].add_handler('n');
    dbs[2].add_handler('l');
    dbs[1].remove_handler(0);
    let order = mangui::handler::invocation_order(&vec![0, 1, 2], &dbs);
    assert_eq!(order, vec![(2, 0), (1, 1), (0, 0)]);
}
