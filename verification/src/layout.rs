//! Where things stand on the screen.
use ratatui::layout as tui;
use vstd::prelude::*;

verus! {

/// A rectangle of terminal cells.
#[derive(Debug, Clone, Copy, PartialEq, Eq, Structural)]
pub struct Area {
    pub x: u16,
    pub y: u16,
    pub width: u16,
    pub height: u16,
}

impl Area {
    /// The first column right of the area. There is none beyond `u16::MAX`.
    pub open spec fn right(self) -> int {
        if self.x + self.width > u16::MAX {
            u16::MAX as int
        } else {
            self.x + self.width
        }
    }

    /// The first row below the area. There is none beyond `u16::MAX`.
    pub open spec fn bottom(self) -> int {
        if self.y + self.height > u16::MAX {
            u16::MAX as int
        } else {
            self.y + self.height
        }
    }

    /// Nothing of the area lies outside of the other.
    pub open spec fn within(self, outer: Area) -> bool {
        &&& outer.x <= self.x && self.right() <= outer.right()
        &&& outer.y <= self.y && self.bottom() <= outer.bottom()
    }
}

/// What one part of a divided area asks for.
#[derive(Debug, Clone, Copy, PartialEq, Eq, Structural)]
pub enum Constraint {
    /// At least so many cells.
    Min(u16),
    /// So many cells.
    Length(u16),
    /// A share of what the others leave.
    Fill(u16),
}

#[derive(Debug, Clone, Copy, PartialEq, Eq, Structural)]
pub enum Direction {
    Horizontal,
    Vertical,
}

/// The parts are as many as were asked for, and each lies inside the area, as wide as
/// it where it was divided into rows, as high where it was divided into columns.
pub open spec fn divides(area: Area, direction: Direction, parts: Seq<Area>, n: nat) -> bool {
    &&& parts.len() == n
    &&& forall|i: int|
        0 <= i < parts.len() ==> match direction {
            Direction::Vertical => {
                &&& (#[trigger] parts[i]).x == area.x && parts[i].width == area.width
                &&& area.y <= parts[i].y && parts[i].y + parts[i].height <= area.bottom()
            },
            Direction::Horizontal => {
                &&& parts[i].y == area.y && parts[i].height == area.height
                &&& area.x <= parts[i].x && parts[i].x + parts[i].width <= area.right()
            },
        }
}

/// Where parts share what the others leave, they share it evenly.
pub open spec fn even(constraints: Seq<Constraint>) -> bool {
    forall|i: int|
        0 <= i < constraints.len() ==> match #[trigger] constraints[i] {
            Constraint::Fill(share) => share == 1,
            _ => true,
        }
}

/// The parts are an answer of `ratatui::layout::Layout::split` to these
/// constraints on this area. There may be more answers than one: the solver
/// looks for the best sizes along the direction in an order that is not fixed.
pub uninterp spec fn answers(
    area: Area,
    direction: Direction,
    constraints: Seq<Constraint>,
    parts: Seq<Area>,
) -> bool;

/// The parts answer the constraints on this area.
pub open spec fn solves(
    area: Area,
    direction: Direction,
    constraints: Seq<Constraint>,
    parts: Seq<Area>,
) -> bool {
    &&& answers(area, direction, constraints, parts)
    &&& divides(area, direction, parts, constraints.len())
}

/// `ratatui::layout::Layout::split` gives one part for each constraint. A part keeps
/// the position and the size of the area across the direction, and lies inside the
/// area along it: the solver is required to keep the start and the end of each part
/// between those of the area. How long the parts are is left unsaid: the solver
/// decides, and on some areas it has more than one answer. It computes in floating
/// point, so that shares which differ by orders of magnitude are not asked for.
#[verifier::external_body]
pub(crate) fn split(area: Area, direction: Direction, constraints: &Vec<Constraint>) -> (r: Vec<
    Area,
>)
    requires
        even(constraints@),
    ensures
        answers(area, direction, constraints@, r@),
        divides(area, direction, r@, constraints@.len()),
{
    let wanted = constraints.iter().map(|c| match c {
        Constraint::Min(n) => tui::Constraint::Min(*n),
        Constraint::Length(n) => tui::Constraint::Length(*n),
        Constraint::Fill(n) => tui::Constraint::Fill(*n),
    });
    let along = match direction {
        Direction::Horizontal => tui::Direction::Horizontal,
        Direction::Vertical => tui::Direction::Vertical,
    };
    let whole = tui::Rect { x: area.x, y: area.y, width: area.width, height: area.height };
    let parts = tui::Layout::default().direction(along).constraints(wanted).split(whole);
    parts.iter().map(|p| Area { x: p.x, y: p.y, width: p.width, height: p.height }).collect()
}

} // verus!
