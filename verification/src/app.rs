//! The agent: where it stands, what it remembers of every cell, and how it
//! takes one step.
//!
//! In each step the agent looks at the four cells beside it, drops those it
//! cannot enter, and moves to the one it remembers as cheapest. Among equally
//! cheap cells it takes the first in the order up, down, right, left. Before
//! it moves, the cost it remembers for the cell it is leaving grows by the
//! memory strength, so a cell left again and again turns dearer than its
//! neighbours and the agent is driven out of dead ends.
//!
//! The order is fixed, and down comes before right in it. So an agent in the
//! corner `(0, 0)` of an open grid whose goal lies in the opposite corner,
//! with `(0, 1)` and `(1, 0)` equally far from it, takes its first step down
//! to `(0, 1)` and not right to `(1, 0)`.
use crate::cost::{Cost, CostView, Strength, StrengthView};
use crate::maze::{ConfigError, Maze, MazeView};
use vstd::prelude::*;

verus! {

/// One of the four moves, listed in the order in which the agent weighs
/// them. `x` grows to the right and `y` grows downwards.
#[derive(Clone, Copy, Debug, PartialEq, Eq)]
pub enum Direction {
    /// To `(x, y - 1)`.
    Up,
    /// To `(x, y + 1)`.
    Down,
    /// To `(x + 1, y)`.
    Right,
    /// To `(x - 1, y)`.
    Left,
}

impl Direction {
    /// The change of `x` that the move makes.
    pub open spec fn dx(self) -> int {
        match self {
            Direction::Up => 0,
            Direction::Down => 0,
            Direction::Right => 1,
            Direction::Left => -1,
        }
    }

    /// The change of `y` that the move makes.
    pub open spec fn dy(self) -> int {
        match self {
            Direction::Up => -1,
            Direction::Down => 1,
            Direction::Right => 0,
            Direction::Left => 0,
        }
    }

    /// The cell `k` cells from `(x, y)` in this direction.
    pub open spec fn over(self, x: int, y: int, k: int) -> (int, int) {
        match self {
            Direction::Up => (x, y - k),
            Direction::Down => (x, y + k),
            Direction::Right => (x + k, y),
            Direction::Left => (x - k, y),
        }
    }

    /// The move that undoes this one.
    pub open spec fn opposite(self) -> Direction {
        match self {
            Direction::Up => Direction::Down,
            Direction::Down => Direction::Up,
            Direction::Right => Direction::Left,
            Direction::Left => Direction::Right,
        }
    }

    /// The place of the move in the order in which the agent weighs the
    /// four: ties go to the lower rank.
    pub open spec fn rank(self) -> nat {
        match self {
            Direction::Up => 0,
            Direction::Down => 1,
            Direction::Right => 2,
            Direction::Left => 3,
        }
    }
}

/// How a step ended.
#[derive(Clone, Copy, Debug, PartialEq, Eq)]
pub enum Step {
    /// The agent stands on the goal and stays there.
    Arrived,
    /// No cell beside the agent can be entered; the agent stays where it is.
    Stuck,
    /// The agent moved one cell in the given direction.
    Moved(Direction),
}

/// The agent and its maze as mathematics.
#[verifier::ext_equal]
pub struct AppView {
    pub maze: MazeView,
    pub strength: StrengthView,
    /// The column of the agent's cell.
    pub x: nat,
    /// The row of the agent's cell.
    pub y: nat,
    /// Row `y`, column `x` is the cost remembered for cell `(x, y)`.
    pub memory: Seq<Seq<CostView>>,
}

impl AppView {
    /// The cost remembered for cell `(x, y)`.
    pub open spec fn remembered(self, x: int, y: int) -> CostView {
        self.memory[y][x]
    }

    /// The maze and the strength are valid, the agent stands on an open
    /// cell, and the memory holds one cost for every cell: unreachable for a
    /// blocked cell, and for an open one its distance to the goal with some
    /// number of visits.
    pub open spec fn valid(self) -> bool {
        &&& self.maze.valid()
        &&& self.strength.valid()
        &&& self.maze.is_open(self.x as int, self.y as int)
        &&& self.memory.len() == self.maze.height
        &&& forall|y: int|
            0 <= y < self.maze.height ==> (#[trigger] self.memory[y]).len() == self.maze.width
        &&& forall|x: int, y: int|
            self.maze.in_bounds(x, y) ==> (#[trigger] self.remembered(x, y)).is_later(
                self.maze.objective(x, y),
            )
    }

    /// The agent at `(x, y)` with nothing learned yet: every cell is
    /// remembered at the cost the maze gives it.
    pub open spec fn fresh(maze: MazeView, strength: StrengthView, x: nat, y: nat) -> AppView {
        AppView {
            maze,
            strength,
            x,
            y,
            memory: Seq::new(
                maze.height,
                |y: int| Seq::new(maze.width, |x: int| maze.objective(x, y)),
            ),
        }
    }

    /// Whether the agent stands on the goal.
    pub open spec fn at_goal(self) -> bool {
        self.x == self.maze.goal_x && self.y == self.maze.goal_y
    }

    /// Whether the agent may move in direction `d`: the cell there lies in
    /// the grid and is open.
    pub open spec fn allowed(self, d: Direction) -> bool {
        self.maze.is_open(self.x + d.dx(), self.y + d.dy())
    }

    /// The cost remembered for the cell in direction `d`.
    pub open spec fn cost_toward(self, d: Direction) -> CostView {
        self.remembered(self.x + d.dx(), self.y + d.dy())
    }

    /// The better of the move kept so far and `d`: `d` wins when it is
    /// allowed and nothing was kept, or when it is strictly cheaper than
    /// what was kept.
    pub open spec fn prefer(self, best: Option<Direction>, d: Direction) -> Option<Direction> {
        if !self.allowed(d) {
            best
        } else {
            match best {
                None => Some(d),
                Some(b) => if self.cost_toward(d).lt(self.cost_toward(b), self.strength) {
                    Some(d)
                } else {
                    best
                },
            }
        }
    }

    /// The move the agent makes when it is not at the goal: the first of
    /// up, down, right, left among the cheapest allowed ones, `None` when
    /// none is allowed.
    pub open spec fn choice(self) -> Option<Direction> {
        self.prefer(
            self.prefer(
                self.prefer(self.prefer(None, Direction::Up), Direction::Down),
                Direction::Right,
            ),
            Direction::Left,
        )
    }

    /// How the next step ends.
    pub open spec fn outcome(self) -> Step {
        if self.at_goal() {
            Step::Arrived
        } else {
            match self.choice() {
                None => Step::Stuck,
                Some(d) => Step::Moved(d),
            }
        }
    }

    /// The agent after one step. Where the step moves it, the cell it leaves
    /// is remembered with one more visit and nothing else changes in memory;
    /// otherwise nothing changes at all.
    pub open spec fn step(self) -> AppView {
        match self.outcome() {
            Step::Moved(d) => AppView {
                x: (self.x + d.dx()) as nat,
                y: (self.y + d.dy()) as nat,
                memory: self.memory.update(
                    self.y as int,
                    self.memory[self.y as int].update(
                        self.x as int,
                        self.remembered(self.x as int, self.y as int).departed(),
                    ),
                ),
                ..self
            },
            _ => self,
        }
    }

    /// The agent after `n` steps.
    pub open spec fn run(self, n: nat) -> AppView
        decreases n,
    {
        if n == 0 {
            self
        } else {
            self.run((n - 1) as nat).step()
        }
    }

    /// How often the agent has left the cell it stands on.
    pub open spec fn visits_here(self) -> nat {
        self.remembered(self.x as int, self.y as int)->visits
    }
}

/// The costs of a memory map, row by row.
spec fn memory_grid(memory: Seq<Vec<Cost>>) -> Seq<Seq<CostView>> {
    Seq::new(memory.len(), |y: int| Seq::new(memory[y]@.len(), |x: int| memory[y]@[x]@))
}

/// The agent's own state: its cell and its memory map.
struct Player {
    position_x: usize,
    position_y: usize,
    maze_memory: Vec<Vec<Cost>>,
}

/// A maze and the agent that walks it.
pub struct App {
    maze: Maze,
    player: Player,
    strength: Strength,
}

impl View for App {
    type V = AppView;

    closed spec fn view(&self) -> AppView {
        AppView {
            maze: self.maze@,
            strength: self.strength@,
            x: self.player.position_x as nat,
            y: self.player.position_y as nat,
            memory: memory_grid(self.player.maze_memory@),
        }
    }
}

/// One row of a fresh memory map.
fn fresh_row(maze: &Maze, y: usize) -> (row: Vec<Cost>)
    requires
        maze.wf(),
        y < maze@.height,
    ensures
        row@.len() == maze@.width,
        forall|x: int| 0 <= x < maze@.width ==> (#[trigger] row@[x])@ == maze@.objective(x, y as int),
{
    let width: usize = maze.width();
    let mut row: Vec<Cost> = Vec::new();
    let mut x: usize = 0;
    while x < width
        invariant
            maze.wf(),
            y < maze@.height,
            width == maze@.width,
            x <= width,
            row@.len() == x,
            forall|i: int| 0 <= i < x ==> (#[trigger] row@[i])@ == maze@.objective(i, y as int),
        decreases width - x,
    {
        row.push(maze.objective(x, y));
        x += 1;
    }
    row
}

/// A fresh memory map: every cell at the cost the maze gives it.
fn fresh_memory(maze: &Maze) -> (memory: Vec<Vec<Cost>>)
    requires
        maze.wf(),
    ensures
        memory_grid(memory@) == Seq::new(
            maze@.height,
            |y: int| Seq::new(maze@.width, |x: int| maze@.objective(x, y)),
        ),
{
    let height: usize = maze.height();
    let mut memory: Vec<Vec<Cost>> = Vec::new();
    let mut y: usize = 0;
    while y < height
        invariant
            maze.wf(),
            height == maze@.height,
            y <= height,
            memory@.len() == y,
            forall|j: int| 0 <= j < y ==> (#[trigger] memory@[j])@.len() == maze@.width,
            forall|i: int, j: int|
                0 <= j < y && 0 <= i < maze@.width ==> (#[trigger] memory@[j]@[i])@
                    == maze@.objective(i, j),
        decreases height - y,
    {
        let row = fresh_row(maze, y);
        memory.push(row);
        y += 1;
    }
    assert(memory_grid(memory@) =~~= Seq::new(
        maze@.height,
        |y: int| Seq::new(maze@.width, |x: int| maze@.objective(x, y)),
    ));
    memory
}

impl App {
    /// Holds of every agent that [`App::new`] hands out, and after every
    /// step.
    pub open spec fn wf(&self) -> bool {
        self@.valid()
    }

    /// The agent at the start cell `(start_x, start_y)` of `maze`, with
    /// nothing learned yet. The start is turned down when it is outside the
    /// grid or on a blocked cell.
    pub fn new(maze: Maze, start_x: usize, start_y: usize, strength: Strength) -> (made: Result<
        App,
        ConfigError,
    >)
        requires
            maze.wf(),
            strength.wf(),
        ensures
            match made {
                Ok(app) => {
                    &&& maze@.is_open(start_x as int, start_y as int)
                    &&& app.wf()
                    &&& app@ == AppView::fresh(maze@, strength@, start_x as nat, start_y as nat)
                },
                Err(fault) => if maze@.in_bounds(start_x as int, start_y as int) {
                    fault == ConfigError::StartBlocked && maze@.blocked[start_y as int][start_x as int]
                } else {
                    fault == ConfigError::StartOutOfBounds
                },
            },
    {
        if start_x >= maze.width() || start_y >= maze.height() {
            return Err(ConfigError::StartOutOfBounds);
        }
        if !maze.is_open(start_x, start_y) {
            return Err(ConfigError::StartBlocked);
        }
        let memory = fresh_memory(&maze);
        Ok(
            App {
                maze,
                player: Player { position_x: start_x, position_y: start_y, maze_memory: memory },
                strength,
            },
        )
    }

    /// The cell beside the agent in direction `d`, where the agent may
    /// enter it.
    fn neighbour(&self, d: Direction) -> (cell: Option<(usize, usize)>)
        requires
            self.wf(),
        ensures
            match cell {
                Some(at) => {
                    &&& self@.allowed(d)
                    &&& at.0 == self@.x + d.dx()
                    &&& at.1 == self@.y + d.dy()
                },
                None => !self@.allowed(d),
            },
    {
        let x: usize = self.player.position_x;
        let y: usize = self.player.position_y;
        let (to_x, to_y): (usize, usize) = match d {
            Direction::Up => {
                if y == 0 {
                    return None;
                }
                (x, y - 1)
            },
            Direction::Down => (x, y + 1),
            Direction::Right => (x + 1, y),
            Direction::Left => {
                if x == 0 {
                    return None;
                }
                (x - 1, y)
            },
        };
        if self.maze.is_open(to_x, to_y) {
            Some((to_x, to_y))
        } else {
            None
        }
    }

    /// The better of the move kept so far and `d`.
    fn consider(&self, best: Option<Direction>, d: Direction) -> (better: Option<Direction>)
        requires
            self.wf(),
            best is Some ==> self@.allowed(best->0),
        ensures
            better == self@.prefer(best, d),
            better is Some ==> self@.allowed(better->0),
    {
        match self.neighbour(d) {
            None => best,
            Some(there) => match best {
                None => Some(d),
                Some(b) => match self.neighbour(b) {
                    Some(kept) => {
                        let there_cost: Cost = self.remembered(there.0, there.1);
                        let kept_cost: Cost = self.remembered(kept.0, kept.1);
                        if there_cost.less_than(&kept_cost, self.strength) {
                            Some(d)
                        } else {
                            best
                        }
                    },
                    None => best,
                },
            },
        }
    }

    /// How the next step will end, with nothing changed yet.
    fn foresee(&self) -> (outcome: Step)
        requires
            self.wf(),
        ensures
            outcome == self@.outcome(),
    {
        if self.player.position_x == self.maze.goal().0 && self.player.position_y
            == self.maze.goal().1 {
            return Step::Arrived;
        }
        let best = self.consider(None, Direction::Up);
        let best = self.consider(best, Direction::Down);
        let best = self.consider(best, Direction::Right);
        let best = self.consider(best, Direction::Left);
        match best {
            None => Step::Stuck,
            Some(d) => Step::Moved(d),
        }
    }

    /// One step of the agent. On the goal it stays and nothing changes. With
    /// no cell to enter it stays, nothing changes, and the step reports
    /// [`Step::Stuck`]. Otherwise the cell it stands on is remembered with
    /// one more visit and the agent moves to the cheapest cell beside it.
    ///
    /// A cell can be left `u64::MAX` times before its count of visits is
    /// exhausted.
    pub fn update(&mut self) -> (outcome: Step)
        requires
            old(self).wf(),
            old(self)@.outcome() is Moved ==> old(self)@.visits_here() < u64::MAX,
        ensures
            final(self).wf(),
            final(self)@ == old(self)@.step(),
            outcome == old(self)@.outcome(),
    {
        let outcome = self.foresee();
        match outcome {
            Step::Arrived => {},
            Step::Stuck => {},
            Step::Moved(d) => {
                let x: usize = self.player.position_x;
                let y: usize = self.player.position_y;
                match (self.neighbour(d), self.remembered(x, y)) {
                    (Some(there), Cost::Reachable { dist_sq, visits }) => {
                        self.player.maze_memory[y][x] = Cost::Reachable {
                            dist_sq,
                            visits: visits + 1,
                        };
                        self.player.position_x = there.0;
                        self.player.position_y = there.1;
                        proof {
                            let before = old(self)@;
                            let after = self@;
                            assert(after.memory =~~= before.step().memory);
                            assert forall|i: int, j: int| after.maze.in_bounds(i, j) implies (
                            #[trigger] after.remembered(i, j)).is_later(
                                after.maze.objective(i, j),
                            ) by {
                                assert(before.remembered(i, j).is_later(
                                    before.maze.objective(i, j),
                                ));
                            }
                        }
                    },
                    _ => {},
                }
            },
        }
        outcome
    }

    /// One step of the agent where it can be taken, as [`App::update`] takes
    /// it; `None`, with nothing changed, where the step would move the agent
    /// off a cell whose count of visits is exhausted.
    pub fn try_update(&mut self) -> (outcome: Option<Step>)
        requires
            old(self).wf(),
        ensures
            final(self).wf(),
            match outcome {
                Some(ended) => {
                    &&& ended == old(self)@.outcome()
                    &&& final(self)@ == old(self)@.step()
                    &&& ended is Moved ==> old(self)@.visits_here() < u64::MAX
                },
                None => {
                    &&& old(self)@.outcome() is Moved
                    &&& old(self)@.visits_here() >= u64::MAX
                    &&& final(self)@ == old(self)@
                },
            },
    {
        let moves = match self.foresee() {
            Step::Moved(_) => true,
            _ => false,
        };
        if moves && !self.can_update() {
            None
        } else {
            Some(self.update())
        }
    }

    /// The cost remembered for cell `(x, y)`.
    pub fn remembered(&self, x: usize, y: usize) -> (cost: Cost)
        requires
            self.wf(),
            self@.maze.in_bounds(x as int, y as int),
        ensures
            cost@ == self@.remembered(x as int, y as int),
    {
        assert(self@.memory[y as int].len() == self@.maze.width);
        self.player.maze_memory[y][x]
    }

    /// Forgets what was learned: every cell is remembered again at the cost
    /// the maze gives it. The agent stays where it is.
    pub fn initialize(&mut self)
        requires
            old(self).wf(),
        ensures
            final(self).wf(),
            final(self)@ == AppView::fresh(
                old(self)@.maze,
                old(self)@.strength,
                old(self)@.x,
                old(self)@.y,
            ),
    {
        self.player.maze_memory = fresh_memory(&self.maze);
    }

    /// The cost that [`App::initialize`] gives to cell `(x, y)`:
    /// [`Cost::Unreachable`] where the cell is blocked, elsewhere its
    /// straight-line distance to the goal with no visit counted.
    pub fn objective(&self, new_x: usize, new_y: usize) -> (cost: Cost)
        requires
            self.wf(),
            self@.maze.in_bounds(new_x as int, new_y as int),
        ensures
            cost@ == self@.maze.objective(new_x as int, new_y as int),
    {
        self.maze.objective(new_x, new_y)
    }

    /// The maze the agent walks.
    pub fn maze(&self) -> (maze: &Maze)
        ensures
            maze@ == self@.maze,
    {
        &self.maze
    }

    /// The memory strength.
    pub fn strength(&self) -> (strength: Strength)
        ensures
            strength@ == self@.strength,
    {
        self.strength
    }

    /// The agent's cell, as `(x, y)`.
    pub fn position(&self) -> (at: (usize, usize))
        ensures
            at.0 == self@.x,
            at.1 == self@.y,
    {
        (self.player.position_x, self.player.position_y)
    }

    /// Whether the next step could move the agent: it can unless the cell
    /// it stands on has been left as often as can be counted.
    pub fn can_update(&self) -> (ready: bool)
        requires
            self.wf(),
        ensures
            ready == (self@.visits_here() < u64::MAX),
    {
        match self.remembered(self.player.position_x, self.player.position_y) {
            Cost::Reachable { visits, .. } => visits < u64::MAX,
            Cost::Unreachable => false,
        }
    }
}

} // verus!
