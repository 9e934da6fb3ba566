//! Placement of the overlays: a rectangle in the middle of the screen, cut out by the
//! layout engine of the terminal toolkit.
use vstd::prelude::*;
use ratatui::layout::{Constraint, Direction, Layout, Rect};

verus! {

/// A rectangle of terminal cells: its top left corner and its size.
#[derive(Clone, Copy, Debug, PartialEq, Eq, Structural)]
pub struct Area {
    pub x: u16,
    pub y: u16,
    pub width: u16,
    pub height: u16,
}

/// The direction in which an area is cut: into rows stacked top to bottom, or into
/// columns side by side.
#[derive(Clone, Copy, Debug, PartialEq, Eq, Structural)]
pub enum Axis {
    Rows,
    Columns,
}

/// The coordinate just past a span of `size` cells from `start`, saturating at the
/// largest coordinate (as `Rect::right` and `Rect::bottom` compute it).
pub open spec fn far_edge(start: u16, size: u16) -> int {
    if start + size > u16::MAX {
        u16::MAX as int
    } else {
        start + size
    }
}

/// `part` lies within `area`: it starts no earlier and ends no later, on both axes.
pub open spec fn lies_within(part: Area, area: Area) -> bool {
    &&& area.x <= part.x
    &&& part.x + part.width <= far_edge(area.x, area.width)
    &&& area.y <= part.y
    &&& part.y + part.height <= far_edge(area.y, area.height)
}

/// What the layout engine gives as the middle part when it cuts `area` along `axis`
/// into three parts of `edge`, `middle` and `edge` percent.
pub uninterp spec fn middle_part(axis: Axis, area: Area, edge: u16, middle: u16) -> Area;

/// Calls `Layout::split` of ratatui on a layout built by `Layout::new` in the direction
/// of `axis` with the constraints `Percentage(edge)`, `Percentage(middle)`,
/// `Percentage(edge)`, and returns the second of the three rectangles. The contract
/// claims that the result is a function of these arguments; that a cut into rows keeps
/// the area's columns and a cut into columns keeps its rows (the layout has no margin,
/// and the split copies the cross-axis coordinates of the area); and that along the axis
/// the part starts no earlier and ends no later than the area (every boundary is held
/// between the area's ends by required constraints, and the rounding to whole cells
/// keeps it there). Where exactly along the axis the part lies is the engine's solution
/// and is not restated. The percentages are kept within a whole.
#[verifier::external_body]
fn split_middle(axis: Axis, area: Area, edge: u16, middle: u16) -> (r: Area)
    requires
        2 * edge + middle <= 100,
    ensures
        r == middle_part(axis, area, edge, middle),
        axis == Axis::Rows ==> r.x == area.x && r.width == area.width,
        axis == Axis::Columns ==> r.y == area.y && r.height == area.height,
        axis == Axis::Rows ==> area.y <= r.y && r.y + r.height <= far_edge(area.y, area.height),
        axis == Axis::Columns ==> area.x <= r.x && r.x + r.width <= far_edge(area.x, area.width),
{
    let direction = match axis {
        Axis::Rows => Direction::Vertical,
        Axis::Columns => Direction::Horizontal,
    };
    let rect = Rect { x: area.x, y: area.y, width: area.width, height: area.height };
    let constraints = [
        Constraint::Percentage(edge),
        Constraint::Percentage(middle),
        Constraint::Percentage(edge),
    ];
    let parts = Layout::new(direction, constraints).split(rect);
    Area { x: parts[1].x, y: parts[1].y, width: parts[1].width, height: parts[1].height }
}

/// The margin on each side of a part that takes `percent` of the whole.
pub open spec fn side_margin(percent: u16) -> u16 {
    ((100 - percent) / 2) as u16
}

/// The rectangle of `percent_x` percent of the width and `percent_y` percent of the
/// height in the middle of `area`: first the middle row, then the middle column of it.
pub open spec fn centered(percent_x: u16, percent_y: u16, area: Area) -> Area {
    middle_part(
        Axis::Columns,
        middle_part(Axis::Rows, area, side_margin(percent_y), percent_y),
        side_margin(percent_x),
        percent_x,
    )
}

/// The rectangle of `percent_x` percent of the width and `percent_y` percent of the
/// height in the middle of `area`, where the dialogs and the history are drawn; it lies
/// within `area`.
pub fn centered_rect(percent_x: u16, percent_y: u16, area: Area) -> (r: Area)
    requires
        percent_x <= 100,
        percent_y <= 100,
    ensures
        r == centered(percent_x, percent_y, area),
        r.y == middle_part(Axis::Rows, area, side_margin(percent_y), percent_y).y,
        r.height == middle_part(Axis::Rows, area, side_margin(percent_y), percent_y).height,
        lies_within(r, area),
{
    let rows = split_middle(Axis::Rows, area, (100 - percent_y) / 2, percent_y);
    split_middle(Axis::Columns, rows, (100 - percent_x) / 2, percent_x)
}

} // verus!
