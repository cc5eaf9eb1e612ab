//! The directions and edges that user actions speak of.

use vstd::prelude::*;

verus! {

/// A direction to move something in.
#[derive(Clone, Copy, Debug, PartialEq, Eq, Structural)]
pub enum Direction {
    Left,
    Right,
    Up,
    Down,
}

/// A direction to move the focus in: across the layout, or out of and into groups.
#[derive(Clone, Copy, Debug, PartialEq, Eq, Structural)]
pub enum FocusDirection {
    Left,
    Right,
    Up,
    Down,
    In,
    Out,
}

/// Whether a resize makes its subject smaller or larger.
#[derive(Clone, Copy, Debug, PartialEq, Eq, Structural)]
pub enum ResizeDirection {
    Inwards,
    Outwards,
}

/// A set of edges of an area.
#[derive(Clone, Copy, Debug, PartialEq, Eq, Structural)]
pub struct ResizeEdge {
    pub top: bool,
    pub bottom: bool,
    pub left: bool,
    pub right: bool,
}

impl ResizeEdge {
    /// No edge.
    pub fn empty() -> (edges: ResizeEdge)
        ensures
            edges == (ResizeEdge { top: false, bottom: false, left: false, right: false }),
    {
        ResizeEdge { top: false, bottom: false, left: false, right: false }
    }
}

} // verus!
