//! The window frame: which edge a pointer resizes, and which corners and borders a tiled
//! window has.
use vstd::prelude::*;

verus! {

/// An edge or corner by which a window is resized.
#[derive(Debug, Clone, Copy, PartialEq, Eq, Structural)]
pub enum ResizeEdge {
    Top,
    Bottom,
    Left,
    Right,
    TopLeft,
    TopRight,
    BottomLeft,
    BottomRight,
}

/// The pointer on an edge.
#[derive(Debug, Clone, Copy, PartialEq, Eq, Structural)]
pub enum ResizeCursor {
    UpDown,
    LeftRight,
    UpLeftDownRight,
    UpRightDownLeft,
}

/// The borders of a window that a pointer is near, or those that are tiled against
/// something.
#[derive(Debug, Clone, Copy, PartialEq, Eq, Structural)]
pub struct Sides {
    pub top: bool,
    pub bottom: bool,
    pub left: bool,
    pub right: bool,
}

/// The edge that a pointer near some borders resizes. Where the window is so small that
/// opposite borders are both near, the top and the left count.
pub open spec fn edge_of(near: Sides) -> Option<ResizeEdge> {
    if near.top {
        Some(
            if near.left {
                ResizeEdge::TopLeft
            } else if near.right {
                ResizeEdge::TopRight
            } else {
                ResizeEdge::Top
            },
        )
    } else if near.bottom {
        Some(
            if near.left {
                ResizeEdge::BottomLeft
            } else if near.right {
                ResizeEdge::BottomRight
            } else {
                ResizeEdge::Bottom
            },
        )
    } else if near.left {
        Some(ResizeEdge::Left)
    } else if near.right {
        Some(ResizeEdge::Right)
    } else {
        None
    }
}

/// The edge that a pointer near some borders resizes, if any.
pub fn resize_edge(near: Sides) -> (r: Option<ResizeEdge>)
    ensures
        r == edge_of(near),
{
    if near.top {
        if near.left {
            Some(ResizeEdge::TopLeft)
        } else if near.right {
            Some(ResizeEdge::TopRight)
        } else {
            Some(ResizeEdge::Top)
        }
    } else if near.bottom {
        if near.left {
            Some(ResizeEdge::BottomLeft)
        } else if near.right {
            Some(ResizeEdge::BottomRight)
        } else {
            Some(ResizeEdge::Bottom)
        }
    } else if near.left {
        Some(ResizeEdge::Left)
    } else if near.right {
        Some(ResizeEdge::Right)
    } else {
        None
    }
}

/// The pointer on an edge points both ways across it.
pub open spec fn cursor_of(edge: ResizeEdge) -> ResizeCursor {
    match edge {
        ResizeEdge::Top | ResizeEdge::Bottom => ResizeCursor::UpDown,
        ResizeEdge::Left | ResizeEdge::Right => ResizeCursor::LeftRight,
        ResizeEdge::TopLeft | ResizeEdge::BottomRight => ResizeCursor::UpLeftDownRight,
        ResizeEdge::TopRight | ResizeEdge::BottomLeft => ResizeCursor::UpRightDownLeft,
    }
}

/// The pointer on an edge.
pub fn resize_cursor(edge: ResizeEdge) -> (r: ResizeCursor)
    ensures
        r == cursor_of(edge),
{
    match edge {
        ResizeEdge::Top | ResizeEdge::Bottom => ResizeCursor::UpDown,
        ResizeEdge::Left | ResizeEdge::Right => ResizeCursor::LeftRight,
        ResizeEdge::TopLeft | ResizeEdge::BottomRight => ResizeCursor::UpLeftDownRight,
        ResizeEdge::TopRight | ResizeEdge::BottomLeft => ResizeCursor::UpRightDownLeft,
    }
}

/// How the frame of a window is drawn: what each border gets (its line and the room for the
/// shadow), which corners are round, and whether there is a shadow.
#[derive(Debug, Clone, Copy, PartialEq, Eq, Structural)]
pub struct Frame {
    pub borders: Sides,
    pub round_top_left: bool,
    pub round_top_right: bool,
    pub round_bottom_left: bool,
    pub round_bottom_right: bool,
    pub shadow: bool,
}

/// The frame of a window that is tiled at some borders: those have no line, no room for the
/// shadow and no round corner, and a tiled window has no shadow.
pub fn frame(tiling: Sides) -> (r: Frame)
    ensures
        r.borders.top == !tiling.top,
        r.borders.bottom == !tiling.bottom,
        r.borders.left == !tiling.left,
        r.borders.right == !tiling.right,
        r.round_top_left == (r.borders.top && r.borders.left),
        r.round_top_right == (r.borders.top && r.borders.right),
        r.round_bottom_left == (r.borders.bottom && r.borders.left),
        r.round_bottom_right == (r.borders.bottom && r.borders.right),
        r.shadow == (r.borders.top && r.borders.bottom && r.borders.left && r.borders.right),
{
    Frame {
        borders: Sides {
            top: !tiling.top,
            bottom: !tiling.bottom,
            left: !tiling.left,
            right: !tiling.right,
        },
        round_top_left: !(tiling.top || tiling.left),
        round_top_right: !(tiling.top || tiling.right),
        round_bottom_left: !(tiling.bottom || tiling.left),
        round_bottom_right: !(tiling.bottom || tiling.right),
        shadow: !(tiling.top || tiling.bottom || tiling.left || tiling.right),
    }
}

/// A pointer near one border resizes by that edge, and near two borders that meet by their
/// corner; near none it resizes nothing.
pub proof fn law_edges(near: Sides)
    ensures
        ({
            let r = edge_of(near);
            let t = near.top;
            let b = near.bottom;
            let l = near.left;
            let rt = near.right;
            &&& !t && !b && !l && !rt ==> r is None
            &&& t && !l && !rt ==> r == Some(ResizeEdge::Top)
            &&& b && !t && !l && !rt ==> r == Some(ResizeEdge::Bottom)
            &&& l && !t && !b ==> r == Some(ResizeEdge::Left)
            &&& rt && !l && !t && !b ==> r == Some(ResizeEdge::Right)
            &&& t && l ==> r == Some(ResizeEdge::TopLeft)
            &&& t && rt && !l ==> r == Some(ResizeEdge::TopRight)
            &&& b && l && !t ==> r == Some(ResizeEdge::BottomLeft)
            &&& b && rt && !t && !l ==> r == Some(ResizeEdge::BottomRight)
        }),
{
}

/// The pointer on an edge points both ways across it; opposite edges and corners have the
/// same one.
pub proof fn law_resize_cursors()
    ensures
        cursor_of(ResizeEdge::Top) == ResizeCursor::UpDown,
        cursor_of(ResizeEdge::Bottom) == ResizeCursor::UpDown,
        cursor_of(ResizeEdge::Left) == ResizeCursor::LeftRight,
        cursor_of(ResizeEdge::Right) == ResizeCursor::LeftRight,
        cursor_of(ResizeEdge::TopLeft) == ResizeCursor::UpLeftDownRight,
        cursor_of(ResizeEdge::BottomRight) == ResizeCursor::UpLeftDownRight,
        cursor_of(ResizeEdge::TopRight) == ResizeCursor::UpRightDownLeft,
        cursor_of(ResizeEdge::BottomLeft) == ResizeCursor::UpRightDownLeft,
{
}

} // verus!
