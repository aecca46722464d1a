//! Lattice positions and the lookup of a position's four neighbours.
//!
//! `up` is the direction of growing `y`, `right` the direction of growing `x`.
//! A lattice is given by its largest coordinates `x_max` and `y_max`; it holds
//! the positions `(x, y)` with `x <= x_max` and `y <= y_max`.

use crate::direction::Direction;
use vstd::prelude::*;

verus! {

/// A position on the lattice.
#[derive(PartialEq, Eq, Copy, Clone, Debug, Structural)]
pub struct SnappedCoordinate {
    pub x: usize,
    pub y: usize,
}

/// The neighbours of one position, `None` where the lattice ends.
#[derive(PartialEq, Eq, Copy, Clone, Debug)]
pub struct CardinalDirections {
    pub up: Option<SnappedCoordinate>,
    pub right: Option<SnappedCoordinate>,
    pub down: Option<SnappedCoordinate>,
    pub left: Option<SnappedCoordinate>,
}

impl CardinalDirections {
    /// The neighbour in direction `d`.
    pub open spec fn toward(self, d: Direction) -> Option<SnappedCoordinate> {
        match d {
            Direction::Up => self.up,
            Direction::Right => self.right,
            Direction::Down => self.down,
            Direction::Left => self.left,
        }
    }
}

/// Which axes of the lattice close on themselves.
#[derive(PartialEq, Eq, Copy, Clone, Debug, Structural)]
pub enum WrapPolicy {
    /// The lattice ends at all four borders.
    NoWrap,
    /// Both axes wrap: the lattice is a torus.
    WrapXY,
    /// Left and right wrap; up and down end at the border.
    WrapX,
    /// Up and down wrap; left and right end at the border.
    WrapY,
}

impl WrapPolicy {
    /// Whether a step to the left or right past the border comes back in on the other side.
    pub open spec fn wraps_x(self) -> bool {
        self == WrapPolicy::WrapXY || self == WrapPolicy::WrapX
    }

    /// Whether a step up or down past the border comes back in on the other side.
    pub open spec fn wraps_y(self) -> bool {
        self == WrapPolicy::WrapXY || self == WrapPolicy::WrapY
    }
}

/// The coordinate one step below `i` on an axis that runs from 0 to `max` and wraps.
pub open spec fn wrapped_pred(i: usize, max: usize) -> usize {
    if i == 0 {
        max
    } else {
        (i - 1) as usize
    }
}

/// The coordinate one step above `i` on an axis that runs from 0 to `max` and wraps.
pub open spec fn wrapped_succ(i: usize, max: usize) -> usize {
    if i == max {
        0
    } else {
        (i + 1) as usize
    }
}

/// The four neighbours of `(x, y)` under `policy`.
///
/// Each direction is first taken as if both axes wrapped; a direction whose
/// axis does not wrap is `None` exactly where the step would leave the lattice.
pub open spec fn neighbors_on(
    policy: WrapPolicy,
    x: usize,
    y: usize,
    x_max: usize,
    y_max: usize,
) -> CardinalDirections {
    CardinalDirections {
        up: if policy.wraps_y() || y != y_max {
            Some(SnappedCoordinate { x, y: wrapped_succ(y, y_max) })
        } else {
            None
        },
        right: if policy.wraps_x() || x != x_max {
            Some(SnappedCoordinate { x: wrapped_succ(x, x_max), y })
        } else {
            None
        },
        down: if policy.wraps_y() || y != 0 {
            Some(SnappedCoordinate { x, y: wrapped_pred(y, y_max) })
        } else {
            None
        },
        left: if policy.wraps_x() || x != 0 {
            Some(SnappedCoordinate { x: wrapped_pred(x, x_max), y })
        } else {
            None
        },
    }
}

/// Neighbours on a torus: every direction yields a position.
pub fn get_neighbors_wrap_xy(x: usize, y: usize, x_max: usize, y_max: usize) -> (directions:
    CardinalDirections)
    requires
        x <= x_max,
        y <= y_max,
    ensures
        directions == neighbors_on(WrapPolicy::WrapXY, x, y, x_max, y_max),
{
    let x_sub: usize = if x == 0 { x_max } else { x - 1 };
    let y_sub: usize = if y == 0 { y_max } else { y - 1 };
    let x_add: usize = if x == x_max { 0 } else { x + 1 };
    let y_add: usize = if y == y_max { 0 } else { y + 1 };
    CardinalDirections {
        up: Some(SnappedCoordinate { x, y: y_add }),
        right: Some(SnappedCoordinate { x: x_add, y }),
        down: Some(SnappedCoordinate { x, y: y_sub }),
        left: Some(SnappedCoordinate { x: x_sub, y }),
    }
}

/// Neighbours where only the x axis wraps.
pub fn get_neighbors_wrap_x(x: usize, y: usize, x_max: usize, y_max: usize) -> (directions:
    CardinalDirections)
    requires
        x <= x_max,
        y <= y_max,
    ensures
        directions == neighbors_on(WrapPolicy::WrapX, x, y, x_max, y_max),
{
    let mut directions = get_neighbors_wrap_xy(x, y, x_max, y_max);
    if y == 0 {
        directions.down = None;
    }
    if y == y_max {
        directions.up = None;
    }
    directions
}

/// Neighbours where only the y axis wraps.
pub fn get_neighbors_wrap_y(x: usize, y: usize, x_max: usize, y_max: usize) -> (directions:
    CardinalDirections)
    requires
        x <= x_max,
        y <= y_max,
    ensures
        directions == neighbors_on(WrapPolicy::WrapY, x, y, x_max, y_max),
{
    let mut directions = get_neighbors_wrap_xy(x, y, x_max, y_max);
    if x == 0 {
        directions.left = None;
    }
    if x == x_max {
        directions.right = None;
    }
    directions
}

/// Neighbours where no axis wraps.
pub fn get_neighbors_no_wrap(x: usize, y: usize, x_max: usize, y_max: usize) -> (directions:
    CardinalDirections)
    requires
        x <= x_max,
        y <= y_max,
    ensures
        directions == neighbors_on(WrapPolicy::NoWrap, x, y, x_max, y_max),
{
    let mut directions = get_neighbors_wrap_xy(x, y, x_max, y_max);
    if x == 0 {
        directions.left = None;
    }
    if x == x_max {
        directions.right = None;
    }
    if y == 0 {
        directions.down = None;
    }
    if y == y_max {
        directions.up = None;
    }
    directions
}

/// Neighbours under the policy chosen at run time.
pub fn neighbors(policy: WrapPolicy, x: usize, y: usize, x_max: usize, y_max: usize) -> (directions:
    CardinalDirections)
    requires
        x <= x_max,
        y <= y_max,
    ensures
        directions == neighbors_on(policy, x, y, x_max, y_max),
{
    match policy {
        WrapPolicy::NoWrap => get_neighbors_no_wrap(x, y, x_max, y_max),
        WrapPolicy::WrapXY => get_neighbors_wrap_xy(x, y, x_max, y_max),
        WrapPolicy::WrapX => get_neighbors_wrap_x(x, y, x_max, y_max),
        WrapPolicy::WrapY => get_neighbors_wrap_y(x, y, x_max, y_max),
    }
}

} // verus!
