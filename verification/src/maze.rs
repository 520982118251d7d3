//! The maze: a fixed grid of open and blocked cells with one goal cell.
//!
//! A cell is addressed as `(x, y)`: `x` counts columns from the left, `y`
//! counts rows from the top. The layout is given row by row, `0` for an open
//! cell and any other number for a blocked one.
use crate::cost::{Cost, CostView};
use vstd::prelude::*;

verus! {

/// The longest side a maze may have, in cells.
pub const MAX_SIDE: usize = 32768;

/// Why a configuration was turned down.
#[derive(Clone, Copy, Debug, PartialEq, Eq)]
pub enum ConfigError {
    /// The rows of the layout differ in length.
    Ragged,
    /// A side of the layout is longer than [`MAX_SIDE`].
    TooLarge,
    /// The goal lies outside the grid.
    GoalOutOfBounds,
    /// The goal lies on a blocked cell.
    GoalBlocked,
    /// The start lies outside the grid.
    StartOutOfBounds,
    /// The start lies on a blocked cell.
    StartBlocked,
}

/// The number of rows of a layout.
pub open spec fn layout_height(layout: Seq<Vec<i32>>) -> nat {
    layout.len()
}

/// The length of a layout's first row, zero when it has no row.
pub open spec fn layout_width(layout: Seq<Vec<i32>>) -> nat {
    if layout.len() == 0 {
        0
    } else {
        layout[0]@.len()
    }
}

/// Whether all rows of a layout have the same length.
pub open spec fn rectangular(layout: Seq<Vec<i32>>) -> bool {
    forall|y: int| 0 <= y < layout.len() ==> (#[trigger] layout[y])@.len() == layout_width(layout)
}

/// The cells of a layout, `true` where a cell is blocked.
pub open spec fn blocked_grid(layout: Seq<Vec<i32>>) -> Seq<Seq<bool>> {
    Seq::new(layout.len(), |y: int| Seq::new(layout[y]@.len(), |x: int| layout[y]@[x] != 0))
}

/// The first fault of a layout and goal, `None` when they make a maze.
pub open spec fn maze_fault(layout: Seq<Vec<i32>>, goal_x: int, goal_y: int) -> Option<
    ConfigError,
> {
    if !rectangular(layout) {
        Some(ConfigError::Ragged)
    } else if layout_width(layout) > MAX_SIDE || layout_height(layout) > MAX_SIDE {
        Some(ConfigError::TooLarge)
    } else if !(0 <= goal_x < layout_width(layout) && 0 <= goal_y < layout_height(layout)) {
        Some(ConfigError::GoalOutOfBounds)
    } else if layout[goal_y]@[goal_x] != 0 {
        Some(ConfigError::GoalBlocked)
    } else {
        None
    }
}

/// A maze as mathematics: its size, its blocked cells and its goal.
#[verifier::ext_equal]
pub struct MazeView {
    pub width: nat,
    pub height: nat,
    /// Row `y`, column `x` is `true` where cell `(x, y)` is blocked.
    pub blocked: Seq<Seq<bool>>,
    pub goal_x: nat,
    pub goal_y: nat,
}

impl MazeView {
    /// Whether `(x, y)` is a cell of the grid.
    pub open spec fn in_bounds(self, x: int, y: int) -> bool {
        0 <= x < self.width && 0 <= y < self.height
    }

    /// Whether `(x, y)` is a cell of the grid that the agent may occupy.
    pub open spec fn is_open(self, x: int, y: int) -> bool {
        self.in_bounds(x, y) && !self.blocked[y][x]
    }

    /// The grid is a rectangle of the stated size, no side exceeds
    /// [`MAX_SIDE`], and the goal is an open cell of it.
    pub open spec fn valid(self) -> bool {
        &&& self.width <= MAX_SIDE
        &&& self.height <= MAX_SIDE
        &&& self.blocked.len() == self.height
        &&& forall|y: int| 0 <= y < self.height ==> (#[trigger] self.blocked[y]).len() == self.width
        &&& self.is_open(self.goal_x as int, self.goal_y as int)
    }

    /// The square of the straight-line distance from `(x, y)` to the goal.
    pub open spec fn dist_sq(self, x: int, y: int) -> nat {
        ((x - self.goal_x) * (x - self.goal_x) + (y - self.goal_y) * (y - self.goal_y)) as nat
    }

    /// The number of steps from `(x, y)` to the goal when nothing is in the
    /// way: the distance along `x` plus the distance along `y`.
    pub open spec fn steps_to_goal(self, x: int, y: int) -> nat {
        ((if x >= self.goal_x {
            x - self.goal_x
        } else {
            self.goal_x - x
        }) + (if y >= self.goal_y {
            y - self.goal_y
        } else {
            self.goal_y - y
        })) as nat
    }

    /// Whether `(x, y)` lies in one row or one column with the goal, with
    /// nothing but open cells from there to the goal.
    pub open spec fn straight_corridor(self, x: int, y: int) -> bool {
        &&& x == self.goal_x || y == self.goal_y
        &&& forall|i: int, j: int|
            (x <= i <= self.goal_x || self.goal_x <= i <= x) && (y <= j <= self.goal_y
                || self.goal_y <= j <= y) ==> #[trigger] self.is_open(i, j)
    }

    /// The cost of a cell before the agent has moved: unreachable where the
    /// cell is blocked, elsewhere its straight-line distance to the goal.
    pub open spec fn objective(self, x: int, y: int) -> CostView {
        if self.blocked[y][x] {
            CostView::Unreachable
        } else {
            CostView::Reachable { dist_sq: self.dist_sq(x, y), visits: 0 }
        }
    }
}

/// A grid of open and blocked cells with a goal. It does not change once
/// made.
pub struct Maze {
    maze_layout: Vec<Vec<i32>>,
    maze_size_x: usize,
    maze_size_y: usize,
    goal_x: usize,
    goal_y: usize,
}

impl View for Maze {
    type V = MazeView;

    closed spec fn view(&self) -> MazeView {
        MazeView {
            width: self.maze_size_x as nat,
            height: self.maze_size_y as nat,
            blocked: blocked_grid(self.maze_layout@),
            goal_x: self.goal_x as nat,
            goal_y: self.goal_y as nat,
        }
    }
}

impl Maze {
    /// Holds of every maze that [`Maze::new`] hands out.
    pub open spec fn wf(&self) -> bool {
        self@.valid()
    }

    /// The maze with the given layout and goal. The layout is turned down
    /// when its rows differ in length or a side is longer than
    /// [`MAX_SIDE`], the goal when it is outside the grid or on a blocked
    /// cell.
    pub fn new(layout: Vec<Vec<i32>>, goal_x: usize, goal_y: usize) -> (made: Result<
        Maze,
        ConfigError,
    >)
        ensures
            match made {
                Ok(maze) => {
                    &&& maze_fault(layout@, goal_x as int, goal_y as int) is None
                    &&& maze.wf()
                    &&& maze@ == (MazeView {
                        width: layout_width(layout@),
                        height: layout_height(layout@),
                        blocked: blocked_grid(layout@),
                        goal_x: goal_x as nat,
                        goal_y: goal_y as nat,
                    })
                },
                Err(fault) => maze_fault(layout@, goal_x as int, goal_y as int) == Some(fault),
            },
    {
        let height: usize = layout.len();
        let width: usize = if height == 0 {
            0
        } else {
            layout[0].len()
        };
        let mut y: usize = 0;
        while y < height
            invariant
                y <= height,
                height == layout@.len(),
                width == layout_width(layout@),
                forall|i: int| 0 <= i < y ==> (#[trigger] layout@[i])@.len() == width,
            decreases height - y,
        {
            if layout[y].len() != width {
                assert(!rectangular(layout@)) by {
                    assert((#[trigger] layout@[y as int])@.len() != layout_width(layout@));
                }
                return Err(ConfigError::Ragged);
            }
            y += 1;
        }
        assert(rectangular(layout@));
        if width > MAX_SIDE || height > MAX_SIDE {
            return Err(ConfigError::TooLarge);
        }
        if goal_x >= width || goal_y >= height {
            return Err(ConfigError::GoalOutOfBounds);
        }
        if layout[goal_y][goal_x] != 0 {
            return Err(ConfigError::GoalBlocked);
        }
        Ok(
            Maze {
                maze_layout: layout,
                maze_size_x: width,
                maze_size_y: height,
                goal_x,
                goal_y,
            },
        )
    }

    /// Whether `(x, y)` is an open cell of the grid.
    pub fn is_open(&self, x: usize, y: usize) -> (open: bool)
        requires
            self.wf(),
        ensures
            open == self@.is_open(x as int, y as int),
    {
        if x >= self.maze_size_x || y >= self.maze_size_y {
            return false;
        }
        assert(self@.blocked[y as int].len() == self@.width);
        self.maze_layout[y][x] == 0
    }

    /// The square of the straight-line distance from `(x, y)` to the goal.
    pub fn distance_sq(&self, x: usize, y: usize) -> (d: u32)
        requires
            self.wf(),
            self@.in_bounds(x as int, y as int),
        ensures
            d == self@.dist_sq(x as int, y as int),
    {
        let dx: u32 = if x >= self.goal_x {
            (x - self.goal_x) as u32
        } else {
            (self.goal_x - x) as u32
        };
        let dy: u32 = if y >= self.goal_y {
            (y - self.goal_y) as u32
        } else {
            (self.goal_y - y) as u32
        };
        assert(dx * dx <= 32767 * 32767 && dy * dy <= 32767 * 32767) by (nonlinear_arith)
            requires
                dx <= 32767,
                dy <= 32767,
        ;
        assert(dx * dx == (x - self.goal_x) * (x - self.goal_x)) by (nonlinear_arith)
            requires
                dx == x - self.goal_x || dx == self.goal_x - x,
        ;
        assert(dy * dy == (y - self.goal_y) * (y - self.goal_y)) by (nonlinear_arith)
            requires
                dy == y - self.goal_y || dy == self.goal_y - y,
        ;
        dx * dx + dy * dy
    }

    /// The cost of cell `(x, y)` before the agent has moved:
    /// [`Cost::Unreachable`] where the cell is blocked, elsewhere its
    /// straight-line distance to the goal with no visit counted.
    pub fn objective(&self, x: usize, y: usize) -> (cost: Cost)
        requires
            self.wf(),
            self@.in_bounds(x as int, y as int),
        ensures
            cost@ == self@.objective(x as int, y as int),
    {
        if self.is_open(x, y) {
            Cost::Reachable { dist_sq: self.distance_sq(x, y), visits: 0 }
        } else {
            Cost::Unreachable
        }
    }

    /// The number of columns.
    pub fn width(&self) -> (w: usize)
        ensures
            w == self@.width,
    {
        self.maze_size_x
    }

    /// The number of rows.
    pub fn height(&self) -> (h: usize)
        ensures
            h == self@.height,
    {
        self.maze_size_y
    }

    /// The goal cell, as `(x, y)`.
    pub fn goal(&self) -> (at: (usize, usize))
        ensures
            at.0 == self@.goal_x,
            at.1 == self@.goal_y,
    {
        (self.goal_x, self.goal_y)
    }
}

} // verus!
