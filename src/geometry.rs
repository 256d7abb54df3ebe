//! Sizing rules, padding and frames, in absolute (x/y) and flow-relative
//! (main/cross) terms, with the conversions between the two.
use vstd::prelude::*;

verus! {

/// The axis along which a container arranges its children.
#[derive(Debug, Clone, Copy, PartialEq, Eq, Structural, Default)]
pub enum Direction {
    Horizontal,
    #[default]
    Vertical,
}

/// Where leftover space goes relative to the content.
#[derive(Debug, Clone, Copy, PartialEq, Eq, Structural, Default)]
pub enum Align {
    #[default]
    Start,
    Middle,
    End,
}

/// The sizing rule of one axis.
#[derive(Debug, Clone, Copy, PartialEq, Eq, Structural)]
pub enum FillType {
    /// A fixed length, clamped to the space that is available.
    Exact(u64),
    /// A proportional share of the space left over; a weight of zero gives
    /// length zero.
    Scale(usize),
    /// Shrink to what the node's children need.
    Minimize,
}

impl Default for FillType {
    fn default() -> (r: Self)
        ensures
            r == FillType::Scale(1),
    {
        FillType::Scale(1)
    }
}

/// The sizing rules of a node, either in screen axes or relative to the
/// direction of the node's parent.
#[derive(Debug, Clone, Copy, PartialEq, Eq, Structural)]
pub enum Fill {
    Absolute { x: FillType, y: FillType },
    Relative { main: FillType, cross: FillType },
}

impl Default for Fill {
    fn default() -> (r: Self)
        ensures
            r == (Fill::Relative { main: FillType::Scale(1), cross: FillType::Scale(1) }),
    {
        Fill::Relative { main: FillType::Scale(1), cross: FillType::Scale(1) }
    }
}

/// Sizing rules along the main and the cross axis of some direction.
#[derive(Debug, Clone, Copy, PartialEq, Eq, Structural)]
pub struct RelativeFill {
    pub main: FillType,
    pub cross: FillType,
}

/// Padding on the four sides of a node.
#[derive(Debug, Clone, Copy, PartialEq, Eq, Structural, Default)]
pub struct Padding {
    pub left: u64,
    pub right: u64,
    pub top: u64,
    pub bottom: u64,
}

/// Padding at the start and end of the main and the cross axis.
#[derive(Debug, Clone, Copy, PartialEq, Eq, Structural, Default)]
pub struct RelativePadding {
    pub main_start: u64,
    pub main_end: u64,
    pub cross_start: u64,
    pub cross_end: u64,
}

/// How a node lays out its children.
#[derive(Debug, Clone, Copy, PartialEq, Eq, Structural, Default)]
pub struct Content {
    pub direction: Direction,
    pub padding: Padding,
    pub align_main: Align,
    pub align_cross: Align,
}

/// The sizing contract of one node.
#[derive(Debug, Clone, Copy, PartialEq, Eq, Structural, Default)]
pub struct Constraint {
    pub fill: Fill,
    pub content: Content,
}

/// A computed rectangle, relative to the parent's frame.
#[derive(Debug, Clone, Copy, PartialEq, Eq, Structural, Default)]
pub struct Frame {
    pub offset_x: u64,
    pub length_x: u64,
    pub offset_y: u64,
    pub length_y: u64,
}

/// A computed rectangle in the main/cross terms of some direction.
#[derive(Debug, Clone, Copy, PartialEq, Eq, Structural, Default)]
pub struct RelativeFrame {
    pub offset_main: u64,
    pub length_main: u64,
    pub offset_cross: u64,
    pub length_cross: u64,
}

/// A fill in the main/cross terms of `direction`.
pub open spec fn relative_fill_spec(fill: Fill, direction: Direction) -> RelativeFill {
    match fill {
        Fill::Absolute { x, y } => match direction {
            Direction::Horizontal => RelativeFill { main: x, cross: y },
            Direction::Vertical => RelativeFill { main: y, cross: x },
        },
        Fill::Relative { main, cross } => RelativeFill { main, cross },
    }
}

/// A fill as the rules along x and y, for a parent flowing in `direction`.
pub open spec fn absolute_fill_spec(fill: Fill, direction: Direction) -> (FillType, FillType) {
    let r = relative_fill_spec(fill, direction);
    match direction {
        Direction::Horizontal => (r.main, r.cross),
        Direction::Vertical => (r.cross, r.main),
    }
}

/// Padding in the main/cross terms of `direction`.
pub open spec fn relative_padding_spec(p: Padding, direction: Direction) -> RelativePadding {
    match direction {
        Direction::Horizontal => RelativePadding {
            main_start: p.left,
            main_end: p.right,
            cross_start: p.top,
            cross_end: p.bottom,
        },
        Direction::Vertical => RelativePadding {
            main_start: p.top,
            main_end: p.bottom,
            cross_start: p.left,
            cross_end: p.right,
        },
    }
}

/// A main/cross rectangle in x/y terms, where `direction` gives the main axis.
pub open spec fn to_frame_spec(r: RelativeFrame, direction: Direction) -> Frame {
    match direction {
        Direction::Horizontal => Frame {
            offset_x: r.offset_main,
            length_x: r.length_main,
            offset_y: r.offset_cross,
            length_y: r.length_cross,
        },
        Direction::Vertical => Frame {
            offset_x: r.offset_cross,
            length_x: r.length_cross,
            offset_y: r.offset_main,
            length_y: r.length_main,
        },
    }
}

/// An x/y rectangle in the main/cross terms of `direction`.
pub open spec fn to_relative_frame_spec(f: Frame, direction: Direction) -> RelativeFrame {
    match direction {
        Direction::Horizontal => RelativeFrame {
            offset_main: f.offset_x,
            length_main: f.length_x,
            offset_cross: f.offset_y,
            length_cross: f.length_y,
        },
        Direction::Vertical => RelativeFrame {
            offset_main: f.offset_y,
            length_main: f.length_y,
            offset_cross: f.offset_x,
            length_cross: f.length_x,
        },
    }
}

/// Start of the content along one axis of length `total`.
pub open spec fn content_start(total: int, start: int) -> int {
    if start < total {
        start
    } else {
        total
    }
}

/// End of the content along one axis of length `total`.
pub open spec fn content_end(total: int, end: int) -> int {
    if total - end > 0 {
        total - end
    } else {
        0
    }
}

/// Length of the content along one axis: never negative.
pub open spec fn content_length(total: int, start: int, end: int) -> int {
    let d = content_end(total, end) - content_start(total, start);
    if d > 0 {
        d
    } else {
        0
    }
}

/// The content rectangle of a frame of the given lengths, relative to that
/// frame: the padding is cut off each side, and padding larger than the
/// frame collapses the content to length zero.
pub open spec fn content_frame_spec(padding: Padding, length_x: int, length_y: int) -> Frame {
    Frame {
        offset_x: content_start(length_x, padding.left as int) as u64,
        length_x: content_length(length_x, padding.left as int, padding.right as int) as u64,
        offset_y: content_start(length_y, padding.top as int) as u64,
        length_y: content_length(length_y, padding.top as int, padding.bottom as int) as u64,
    }
}

/// Where a piece of length `total - gap` starts within `total` when `gap`
/// is left over.
pub open spec fn align_offset(align: Align, gap: int) -> int {
    match align {
        Align::Start => 0,
        Align::Middle => gap / 2,
        Align::End => gap,
    }
}

impl Fill {
    /// The sizing rules along the main and cross axis of `direction`.
    pub fn to_relative_fill(self, direction: Direction) -> (r: RelativeFill)
        ensures
            r == relative_fill_spec(self, direction),
    {
        match self {
            Fill::Absolute { x, y } => match direction {
                Direction::Horizontal => RelativeFill { main: x, cross: y },
                Direction::Vertical => RelativeFill { main: y, cross: x },
            },
            Fill::Relative { main, cross } => RelativeFill { main, cross },
        }
    }

    /// The sizing rules along x and y, for a node whose parent flows in
    /// `direction`.
    pub fn to_absolute_fill(self, direction: Direction) -> (r: (FillType, FillType))
        ensures
            r == absolute_fill_spec(self, direction),
    {
        let relative = self.to_relative_fill(direction);
        match direction {
            Direction::Horizontal => (relative.main, relative.cross),
            Direction::Vertical => (relative.cross, relative.main),
        }
    }
}

impl Padding {
    /// The padding along the main and cross axis of `direction`.
    pub fn to_relative_padding(self, direction: Direction) -> (r: RelativePadding)
        ensures
            r == relative_padding_spec(self, direction),
    {
        match direction {
            Direction::Horizontal => RelativePadding {
                main_start: self.left,
                main_end: self.right,
                cross_start: self.top,
                cross_end: self.bottom,
            },
            Direction::Vertical => RelativePadding {
                main_start: self.top,
                main_end: self.bottom,
                cross_start: self.left,
                cross_end: self.right,
            },
        }
    }
}

impl RelativeFrame {
    /// The same rectangle in x/y terms, where `direction` gives the main axis.
    pub fn to_frame(self, direction: Direction) -> (r: Frame)
        ensures
            r == to_frame_spec(self, direction),
            to_relative_frame_spec(r, direction) == self,
    {
        match direction {
            Direction::Horizontal => Frame {
                offset_x: self.offset_main,
                length_x: self.length_main,
                offset_y: self.offset_cross,
                length_y: self.length_cross,
            },
            Direction::Vertical => Frame {
                offset_x: self.offset_cross,
                length_x: self.length_cross,
                offset_y: self.offset_main,
                length_y: self.length_main,
            },
        }
    }
}

impl Frame {
    /// The same rectangle in main/cross terms of `direction`.
    pub fn to_relative_frame(self, direction: Direction) -> (r: RelativeFrame)
        ensures
            r == to_relative_frame_spec(self, direction),
            to_frame_spec(r, direction) == self,
    {
        match direction {
            Direction::Horizontal => RelativeFrame {
                offset_main: self.offset_x,
                length_main: self.length_x,
                offset_cross: self.offset_y,
                length_cross: self.length_y,
            },
            Direction::Vertical => RelativeFrame {
                offset_main: self.offset_y,
                length_main: self.length_y,
                offset_cross: self.offset_x,
                length_cross: self.length_x,
            },
        }
    }
}

/// Offset and length of the content along one axis of length `total`, with
/// padding `start` and `end` on its two sides.
pub fn content_span(total: u64, start: u64, end: u64) -> (r: (u64, u64))
    ensures
        r.0 == content_start(total as int, start as int),
        r.1 == content_length(total as int, start as int, end as int),
        r.0 + r.1 <= total,
{
    let content_start = if start < total {
        start
    } else {
        total
    };
    let content_end = if total > end {
        total - end
    } else {
        0
    };
    let content_length = if content_end > content_start {
        content_end - content_start
    } else {
        0
    };
    (content_start, content_length)
}

/// The content rectangle of a frame of lengths `length_x` by `length_y`,
/// relative to that frame.
pub fn generate_content_frame(padding: Padding, length_x: u64, length_y: u64) -> (r: Frame)
    ensures
        r == content_frame_spec(padding, length_x as int, length_y as int),
        r.offset_x + r.length_x <= length_x,
        r.offset_y + r.length_y <= length_y,
{
    let (offset_x, content_length_x) = content_span(length_x, padding.left, padding.right);
    let (offset_y, content_length_y) = content_span(length_y, padding.top, padding.bottom);
    Frame { offset_x, length_x: content_length_x, offset_y, length_y: content_length_y }
}

/// Where a piece starts when `gap` is left over, placed as `align` says.
pub fn align_gap(align: Align, gap: u64) -> (r: u64)
    ensures
        r == align_offset(align, gap as int),
        r <= gap,
{
    match align {
        Align::Start => 0,
        Align::Middle => gap / 2,
        Align::End => gap,
    }
}

/// Padding larger than the space available leaves content of length zero,
/// placed at the far end and never beyond it.
pub proof fn padding_saturates(padding: Padding, length_x: u64, length_y: u64)
    ensures
        padding.left + padding.right >= length_x ==> content_frame_spec(
            padding,
            length_x as int,
            length_y as int,
        ).length_x == 0,
        padding.top + padding.bottom >= length_y ==> content_frame_spec(
            padding,
            length_x as int,
            length_y as int,
        ).length_y == 0,
        content_frame_spec(padding, length_x as int, length_y as int).offset_x <= length_x,
        content_frame_spec(padding, length_x as int, length_y as int).offset_y <= length_y,
        padding.left >= length_x ==> content_frame_spec(
            padding,
            length_x as int,
            length_y as int,
        ).offset_x == length_x,
        padding.top >= length_y ==> content_frame_spec(
            padding,
            length_x as int,
            length_y as int,
        ).offset_y == length_y,
{
}

} // verus!
