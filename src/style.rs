use vstd::prelude::*;

verus! {

/// How a node treats content that reaches past its box on one axis.
#[derive(Copy, Clone, Debug, PartialEq, Eq, Structural)]
pub enum Overflow {
    /// Content is not clipped and may be painted outside the box.
    Visible,
    /// Content is clipped at the box; the node does not scroll.
    Clip,
    /// Content is clipped at the box.
    Hidden,
    /// Content is clipped at the box and may be scrolled.
    Scroll,
}

impl Overflow {
    /// Whether painting is clipped to the box on this axis.
    pub open spec fn spec_clips(self) -> bool {
        !(self is Visible)
    }

    pub fn clips(&self) -> (r: bool)
        ensures
            r == self.spec_clips(),
    {
        match self {
            Overflow::Visible => false,
            _ => true,
        }
    }
}

/// Mouse cursor shown above a node.
#[derive(Copy, Clone, Debug, PartialEq, Eq, Structural)]
pub enum Cursor {
    Default,
}

/// An explicit translation applied on top of the node's resolved location.
/// Scale and rotation, which are not integral, are applied by the painter.
#[derive(Copy, Clone, Debug, PartialEq, Eq, Structural)]
pub struct Transform {
    pub x: i64,
    pub y: i64,
}

/// The part of a node's style that the scene runtime itself reads:
/// the cursor, the clipping behaviour on each axis, the optional transform
/// and the scroll offsets. Box-layout properties and paints belong to the
/// layout solver and to the painter.
#[derive(Copy, Clone, Debug, PartialEq, Eq, Structural)]
pub struct Style {
    pub cursor: Cursor,
    pub overflow_x: Overflow,
    pub overflow_y: Overflow,
    pub transform: Option<Transform>,
    pub scroll_x: i64,
    pub scroll_y: i64,
}

impl Style {
    pub open spec fn spec_default() -> Style {
        Style {
            cursor: Cursor::Default,
            overflow_x: Overflow::Visible,
            overflow_y: Overflow::Visible,
            transform: None,
            scroll_x: 0,
            scroll_y: 0,
        }
    }

    /// No clipping, no transform, no scrolling.
    pub fn plain() -> (r: Style)
        ensures
            r == Style::spec_default(),
    {
        Style {
            cursor: Cursor::Default,
            overflow_x: Overflow::Visible,
            overflow_y: Overflow::Visible,
            transform: None,
            scroll_x: 0,
            scroll_y: 0,
        }
    }
}

} // verus!
