use vstd::prelude::*;

verus! {

/// A point in the integral coordinate space shared by input and layout.
#[derive(Copy, Clone, Debug, PartialEq, Eq, Structural)]
pub struct Location {
    pub x: i64,
    pub y: i64,
}

impl Location {
    pub fn new(x: i64, y: i64) -> (r: Location)
        ensures
            r.x == x && r.y == y,
    {
        Location { x, y }
    }
}

/// The solver's result for one node: its location, its outer size and the
/// size of its content.
#[derive(Copy, Clone, Debug, PartialEq, Eq, Structural)]
pub struct LayoutBox {
    pub x: i64,
    pub y: i64,
    pub width: i64,
    pub height: i64,
    pub content_width: i64,
    pub content_height: i64,
}

/// The layout of node `n` in a table indexed by node id, if it has one.
pub open spec fn layout_at(ls: Seq<Option<LayoutBox>>, n: int) -> Option<LayoutBox> {
    if 0 <= n < ls.len() {
        ls[n]
    } else {
        None
    }
}

/// The point lies in the closed box `[location, location + size]`.
pub open spec fn inside(b: LayoutBox, p: Location) -> bool {
    &&& b.x <= p.x
    &&& b.y <= p.y
    &&& p.x <= b.x + b.width
    &&& p.y <= b.y + b.height
}

/// The point lies off the closed box on some side.
pub open spec fn strictly_outside(b: LayoutBox, p: Location) -> bool {
    p.x < b.x || p.y < b.y || p.x > b.x + b.width || p.y > b.y + b.height
}

pub fn layout_of(ls: &Vec<Option<LayoutBox>>, n: usize) -> (r: Option<LayoutBox>)
    ensures
        r == layout_at(ls@, n as int),
{
    if n < ls.len() {
        ls[n]
    } else {
        None
    }
}

pub fn contains_point(b: &LayoutBox, p: &Location) -> (r: bool)
    ensures
        r == inside(*b, *p),
{
    let right = b.x as i128 + b.width as i128;
    let bottom = b.y as i128 + b.height as i128;
    b.x <= p.x && b.y <= p.y && (p.x as i128) <= right && (p.y as i128) <= bottom
}

} // verus!
