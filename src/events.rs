use vstd::prelude::*;
use crate::geometry::{layout_at, layout_of, LayoutBox, Location};
use crate::hit::{get_element_at, hit_path, lemma_hit_path_contains_point};
use crate::tree::{tree_wf, NodeId, NodeTree};

verus! {

broadcast use vstd::std_specs::hash::group_hash_axioms;

/// A pointer button.
#[derive(Copy, Clone, Debug, PartialEq, Eq, Structural)]
pub enum MouseButton {
    Left,
    Right,
    Middle,
    Other(u16),
}

/// The bit that stands for `b` in a pressed-buttons mask.
pub open spec fn button_bit(b: MouseButton) -> u8 {
    match b {
        MouseButton::Left => 1,
        MouseButton::Right => 2,
        MouseButton::Middle => 4,
        MouseButton::Other(n) => (1u8 << n as u8),
    }
}

/// Buttons that fit a mask of eight bits.
pub open spec fn button_fits(b: MouseButton) -> bool {
    match b {
        MouseButton::Other(n) => n < 8,
        _ => true,
    }
}

/// Modifier keys held.
#[derive(Copy, Clone, Debug, PartialEq, Eq, Structural)]
pub struct Modifiers {
    pub shift: bool,
    pub ctrl: bool,
    pub alt: bool,
    pub logo: bool,
}

/// Payload of a pointer event.
#[derive(Copy, Clone, Debug, PartialEq, Eq, Structural)]
pub struct MouseEvent {
    /// The button that fired the event, if any.
    pub button: Option<MouseButton>,
    /// The buttons held, as a mask (see `MouseEvent::button_to_buttons`).
    pub buttons: u8,
    pub modifiers: Modifiers,
    /// Position relative to the window.
    pub client: Location,
    /// Change of position since the device's last event.
    pub movement: Location,
    /// Position relative to the target's resolved location.
    pub offset: Location,
    /// Input device.
    pub device: u64,
}

impl MouseEvent {
    pub fn shift(&self) -> (r: bool)
        ensures
            r == self.modifiers.shift,
    {
        self.modifiers.shift
    }

    pub fn ctrl(&self) -> (r: bool)
        ensures
            r == self.modifiers.ctrl,
    {
        self.modifiers.ctrl
    }

    pub fn alt(&self) -> (r: bool)
        ensures
            r == self.modifiers.alt,
    {
        self.modifiers.alt
    }

    pub fn logo(&self) -> (r: bool)
        ensures
            r == self.modifiers.logo,
    {
        self.modifiers.logo
    }

    /// The mask bit of one button: 1, 2 and 4 for left, right and middle,
    /// `1 << n` for button `n`.
    pub fn button_to_buttons(button: MouseButton) -> (r: u8)
        requires
            button_fits(button),
        ensures
            r == button_bit(button),
    {
        match button {
            MouseButton::Left => 1,
            MouseButton::Right => 2,
            MouseButton::Middle => 4,
            MouseButton::Other(n) => 1u8 << (n as u8),
        }
    }
}

/// Payload of a key event.
#[derive(Copy, Clone, Debug, PartialEq, Eq, Structural)]
pub struct KeyboardEvent {
    /// Logical key, if known.
    pub key: Option<u32>,
    /// Physical key.
    pub code: u32,
    pub modifiers: Modifiers,
    pub device: u64,
}

/// What happened.
#[derive(Copy, Clone, Debug, PartialEq, Eq, Structural)]
pub enum InnerEvent {
    Wheel { delta_x: i64, delta_y: i64, mouse: MouseEvent },
    MouseEnter(MouseEvent),
    MouseOver(MouseEvent),
    MouseLeave(MouseEvent),
    MouseOut(MouseEvent),
    MouseMove(MouseEvent),
    MouseDown(MouseEvent),
    MouseUp(MouseEvent),
    Click(MouseEvent),
    ContextMenu(MouseEvent),
    AuxClick(MouseEvent),
    /// Fired on the target only.
    Focus,
    /// Fired on the target only.
    Blur,
    /// Fired along the path.
    FocusIn,
    /// Fired along the path.
    FocusOut,
    KeyDown(KeyboardEvent),
    KeyUp(KeyboardEvent),
}

/// An event with its target and the path from the root to the target.
pub struct NodeEvent {
    pub target: NodeId,
    pub path: Vec<NodeId>,
    pub event: InnerEvent,
}

/// The order in which the nodes of `path` see an event: target first, root last.
pub fn dispatch_order(path: &Vec<NodeId>) -> (r: Vec<NodeId>)
    ensures
        r@ == path@.reverse(),
{
    let mut r: Vec<NodeId> = Vec::new();
    let mut i: usize = path.len();
    while i > 0
        invariant
            i <= path@.len(),
            r@.len() == path@.len() - i,
            forall|k: int| 0 <= k < r@.len() ==> r@[k] == path@[path@.len() - 1 - k],
        decreases i,
    {
        i -= 1;
        r.push(path[i]);
    }
    proof {
        assert forall|k: int| 0 <= k < r@.len() implies r@[k] == path@.reverse()[k] by {}
        assert(r@ =~= path@.reverse());
    }
    r
}

/// Handlers of a path root, middle, leaf run at the leaf first, then the
/// middle, then the root.
pub proof fn lemma_dispatch_leaf_first(root: NodeId, mid: NodeId, leaf: NodeId)
    ensures
        seq![root, mid, leaf].reverse() == seq![leaf, mid, root],
{
    assert(seq![root, mid, leaf].reverse() =~= seq![leaf, mid, root]);
}

/// `a - b`, kept within the range of `i64`.
pub open spec fn sat_diff(a: i64, b: i64) -> i64 {
    let d = a - b;
    if d > i64::MAX {
        i64::MAX
    } else if d < i64::MIN {
        i64::MIN
    } else {
        d as i64
    }
}

fn diff(a: i64, b: i64) -> (r: i64)
    ensures
        r == sat_diff(a, b),
{
    let d = a as i128 - b as i128;
    if d > i64::MAX as i128 {
        i64::MAX
    } else if d < i64::MIN as i128 {
        i64::MIN
    } else {
        d as i64
    }
}

/// `a - b` on both axes.
pub open spec fn loc_diff(a: Location, b: Location) -> Location {
    Location { x: sat_diff(a.x, b.x), y: sat_diff(a.y, b.y) }
}

pub fn location_diff(a: Location, b: Location) -> (r: Location)
    ensures
        r == loc_diff(a, b),
{
    Location { x: diff(a.x, b.x), y: diff(a.y, b.y) }
}

/// Last known state of one pointer device.
#[derive(Copy, Clone, Debug, PartialEq, Eq, Structural)]
pub struct MouseValue {
    pub last_location: Location,
    pub buttons: u8,
}

impl MouseValue {
    /// Sets (pressed) or clears (released) the bit of `button`.
    pub fn update_buttons(&mut self, button: MouseButton, pressed: bool)
        requires
            button_fits(button),
        ensures
            final(self).last_location == old(self).last_location,
            final(self).buttons == if pressed {
                old(self).buttons | button_bit(button)
            } else {
                old(self).buttons & !button_bit(button)
            },
    {
        let bits = MouseEvent::button_to_buttons(button);
        if pressed {
            self.buttons = self.buttons | bits;
        } else {
            self.buttons = self.buttons & !bits;
        }
    }
}

/// Whether `d` has an entry in `m`.
pub open spec fn known(m: Map<u64, MouseValue>, d: u64) -> bool {
    m.contains_key(d)
}

/// The state recorded for `d` (meaningful when `known(m, d)`).
pub open spec fn value_of(m: Map<u64, MouseValue>, d: u64) -> MouseValue {
    m[d]
}

/// `new` holds `old` with the entry of `d` set to `v`.
pub open spec fn devices_set(old: Map<u64, MouseValue>, new: Map<u64, MouseValue>, d: u64, v: MouseValue) -> bool {
    new == old.insert(d, v)
}

/// The per-device pointer state of the event router.
pub struct PointerState {
    devices: std::collections::HashMap<u64, MouseValue>,
}

impl View for PointerState {
    type V = Map<u64, MouseValue>;

    closed spec fn view(&self) -> Map<u64, MouseValue> {
        self.devices@
    }
}

impl PointerState {
    pub fn new() -> (r: PointerState)
        ensures
            r@ == Map::<u64, MouseValue>::empty(),
    {
        PointerState { devices: std::collections::HashMap::new() }
    }

    /// The recorded state of `device`.
    pub fn get(&self, device: u64) -> (r: Option<MouseValue>)
        ensures
            r == if known(self@, device) {
                Some(value_of(self@, device))
            } else {
                None
            },
    {
        match self.devices.get(&device) {
            Some(v) => Some(*v),
            None => None,
        }
    }

    fn put(&mut self, device: u64, v: MouseValue)
        ensures
            devices_set(old(self)@, final(self)@, device, v),
    {
        self.devices.insert(device, v);
    }

    /// Records a move of `device` to `location`. Returns the movement since
    /// the device's last known position (zero on its first move) and the
    /// buttons it holds (none on its first move).
    pub fn cursor_moved(&mut self, device: u64, location: Location) -> (r: (Location, u8))
        requires
        ensures
            known(old(self)@, device) ==> r == (
                loc_diff(location, value_of(old(self)@, device).last_location),
                value_of(old(self)@, device).buttons,
            ),
            !known(old(self)@, device) ==> r == (Location { x: 0, y: 0 }, 0u8),
            devices_set(old(self)@, final(self)@, device, MouseValue { last_location: location, buttons: r.1 }),
    {
        let (movement, buttons) = match self.get(device) {
            Some(v) => (location_diff(location, v.last_location), v.buttons),
            None => (Location { x: 0, y: 0 }, 0u8),
        };
        self.put(device, MouseValue { last_location: location, buttons });
        (movement, buttons)
    }

    /// Records a button change of `device`. A device that never moved is
    /// unknown: the change is dropped and `None` returned. Otherwise returns
    /// the device's updated state.
    pub fn button_changed(&mut self, device: u64, button: MouseButton, pressed: bool) -> (r: Option<MouseValue>)
        requires
            button_fits(button),
        ensures
            !known(old(self)@, device) ==> r is None && final(self)@ == old(self)@,
            known(old(self)@, device) ==> r == Some(MouseValue {
                last_location: value_of(old(self)@, device).last_location,
                buttons: if pressed {
                    value_of(old(self)@, device).buttons | button_bit(button)
                } else {
                    value_of(old(self)@, device).buttons & !button_bit(button)
                },
            }) && devices_set(old(self)@, final(self)@, device, r.unwrap()),
    {
        match self.get(device) {
            None => None,
            Some(v) => {
                let mut v = v;
                v.update_buttons(button, pressed);
                self.put(device, v);
                Some(v)
            },
        }
    }
}

/// The pointer event for the nodes under `location`, with the target being
/// the last node of the hit-test path. `None` when the point hits nothing.
pub open spec fn pointer_event_spec(
    t: Seq<crate::tree::NodeView>,
    ls: Seq<Option<LayoutBox>>,
    root: NodeId,
    location: Location,
    mouse: MouseEvent,
    down: Option<bool>,
) -> Option<(NodeId, Seq<NodeId>, InnerEvent)> {
    match hit_path(t, ls, root, location, t.len()) {
        None => None,
        Some(p) => {
            let target = p.last();
            let b = layout_at(ls, target as int).unwrap();
            let m = MouseEvent { offset: loc_diff(location, Location { x: b.x, y: b.y }), ..mouse };
            Some((target, p, match down {
                None => InnerEvent::MouseMove(m),
                Some(true) => InnerEvent::MouseDown(m),
                Some(false) => InnerEvent::MouseUp(m),
            }))
        },
    }
}

pub open spec fn event_is(e: Option<NodeEvent>, s: Option<(NodeId, Seq<NodeId>, InnerEvent)>) -> bool {
    match s {
        None => e is None,
        Some(x) => e is Some && e.unwrap().target == x.0 && e.unwrap().path@ == x.1 && e.unwrap().event == x.2,
    }
}

fn pointer_event(
    tree: &NodeTree,
    layouts: &Vec<Option<LayoutBox>>,
    root: NodeId,
    location: Location,
    mouse: MouseEvent,
    down: Option<bool>,
) -> (r: Option<NodeEvent>)
    requires
        tree_wf(tree@),
        root < tree@.len(),
    ensures
        event_is(r, pointer_event_spec(tree@, layouts@, root, location, mouse, down)),
{
    match get_element_at(tree, layouts, root, &location) {
        None => None,
        Some(path) => {
            proof {
                assert(path@.len() > 0) by {
                    crate::hit::lemma_hit_path_nonempty(tree@, layouts@, root, location, tree@.len());
                }
                assert(path@.contains(path@.last())) by {
                    assert(path@[path@.len() - 1] == path@.last());
                }
                lemma_hit_path_contains_point(tree@, layouts@, root, location, tree@.len(), path@.last());
            }
            let target = path[path.len() - 1];
            match layout_of(layouts, target) {
                None => None,
                Some(b) => {
                    let m = MouseEvent { offset: location_diff(location, Location { x: b.x, y: b.y }), ..mouse };
                    let event = match down {
                        None => InnerEvent::MouseMove(m),
                        Some(true) => InnerEvent::MouseDown(m),
                        Some(false) => InnerEvent::MouseUp(m),
                    };
                    Some(NodeEvent { target, path, event })
                },
            }
        },
    }
}

/// Handles a pointer move of `device` to `location`: updates the device's
/// state and builds the move event for the nodes under the point.
pub fn pointer_moved(
    state: &mut PointerState,
    tree: &NodeTree,
    layouts: &Vec<Option<LayoutBox>>,
    root: NodeId,
    device: u64,
    location: Location,
    modifiers: Modifiers,
) -> (r: Option<NodeEvent>)
    requires
        tree_wf(tree@),
        root < tree@.len(),
    ensures
        ({
            let movement = if known(old(state)@, device) {
                loc_diff(location, value_of(old(state)@, device).last_location)
            } else {
                Location { x: 0, y: 0 }
            };
            let buttons = if known(old(state)@, device) {
                value_of(old(state)@, device).buttons
            } else {
                0u8
            };
            &&& devices_set(old(state)@, final(state)@, device, MouseValue { last_location: location, buttons })
            &&& event_is(r, pointer_event_spec(tree@, layouts@, root, location, MouseEvent {
                button: None,
                buttons,
                modifiers,
                client: location,
                movement,
                offset: Location { x: 0, y: 0 },
                device,
            }, None))
        }),
{
    let (movement, buttons) = state.cursor_moved(device, location);
    let mouse = MouseEvent {
        button: None,
        buttons,
        modifiers,
        client: location,
        movement,
        offset: Location { x: 0, y: 0 },
        device,
    };
    pointer_event(tree, layouts, root, location, mouse, None)
}

/// Handles a button press or release of `device`: updates its buttons and
/// builds the down or up event for the nodes under its last position. A
/// device that never moved is ignored.
pub fn pointer_button(
    state: &mut PointerState,
    tree: &NodeTree,
    layouts: &Vec<Option<LayoutBox>>,
    root: NodeId,
    device: u64,
    button: MouseButton,
    pressed: bool,
    modifiers: Modifiers,
) -> (r: Option<NodeEvent>)
    requires
        button_fits(button),
        tree_wf(tree@),
        root < tree@.len(),
    ensures
        !known(old(state)@, device) ==> r is None && final(state)@ == old(state)@,
        known(old(state)@, device) ==> ({
            let v = value_of(old(state)@, device);
            let buttons = if pressed {
                v.buttons | button_bit(button)
            } else {
                v.buttons & !button_bit(button)
            };
            &&& devices_set(old(state)@, final(state)@, device, MouseValue { last_location: v.last_location, buttons })
            &&& event_is(r, pointer_event_spec(tree@, layouts@, root, v.last_location, MouseEvent {
                button: Some(button),
                buttons,
                modifiers,
                client: v.last_location,
                movement: Location { x: 0, y: 0 },
                offset: Location { x: 0, y: 0 },
                device,
            }, Some(pressed)))
        }),
{
    match state.button_changed(device, button, pressed) {
        None => None,
        Some(v) => {
            let mouse = MouseEvent {
                button: Some(button),
                buttons: v.buttons,
                modifiers,
                client: v.last_location,
                movement: Location { x: 0, y: 0 },
                offset: Location { x: 0, y: 0 },
                device,
            };
            pointer_event(tree, layouts, root, v.last_location, mouse, Some(pressed))
        },
    }
}

/// The events of a window focus change for the focused path: `Focus` or
/// `Blur` for the target alone, then `FocusIn` or `FocusOut` along the path.
/// `None` when nothing is focused.
pub fn focus_events(path: &Vec<NodeId>, focused: bool) -> (r: Option<(NodeEvent, NodeEvent)>)
    ensures
        path@.len() == 0 ==> r is None,
        path@.len() > 0 ==> r is Some && ({
            let (single, along) = r.unwrap();
            &&& single.target == path@.last() && single.path@ == path@
            &&& single.event == if focused { InnerEvent::Focus } else { InnerEvent::Blur }
            &&& along.target == path@.last() && along.path@ == path@
            &&& along.event == if focused { InnerEvent::FocusIn } else { InnerEvent::FocusOut }
        }),
{
    if path.len() == 0 {
        return None;
    }
    let target = path[path.len() - 1];
    let single = NodeEvent {
        target,
        path: path.clone(),
        event: if focused { InnerEvent::Focus } else { InnerEvent::Blur },
    };
    let along = NodeEvent {
        target,
        path: path.clone(),
        event: if focused { InnerEvent::FocusIn } else { InnerEvent::FocusOut },
    };
    Some((single, along))
}

} // verus!
