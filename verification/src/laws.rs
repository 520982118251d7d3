//! What holds of costs, of single steps and of whole runs.
//!
//! Laws that speak of a cost as a number take the square-root function as a
//! parameter `root`, together with the assumption that it is one: nothing
//! else can name an irrational number here.
use crate::app::{AppView, Direction, Step};
use crate::cost::{
    is_root_of, is_square_root, lemma_root_lt_is_real_order, root_lt, CostView, StrengthView,
};
use crate::maze::MazeView;
use vstd::prelude::*;

verus! {

/// The order by which the agent ranks cells is the order of the real
/// numbers that the costs stand for: one reachable cost is `lt` another
/// exactly when `sqrt(dist_sq) + visits * strength` is smaller for it.
pub proof fn law_lt_orders_by_value(
    a: CostView,
    b: CostView,
    strength: StrengthView,
    root: spec_fn(nat) -> real,
)
    requires
        strength.valid(),
        is_square_root(root),
        a is Reachable,
        b is Reachable,
    ensures
        a.lt(b, strength) <==> a.value(strength, root) < b.value(strength, root),
{
    let den = strength.den as int;
    let num = strength.num as int;
    let v = a->visits as int;
    let w = b->visits as int;
    let ra = root(a->dist_sq);
    let rb = root(b->dist_sq);
    let sa = (den as real) * ra;
    let sb = (den as real) * rb;
    let scaled_a = den * den * (a->dist_sq as int);
    let scaled_b = den * den * (b->dist_sq as int);
    assert(is_root_of(ra, a->dist_sq as int));
    assert(is_root_of(rb, b->dist_sq as int));
    assert(is_root_of(sa, scaled_a) && scaled_a >= 0) by (nonlinear_arith)
        requires
            den > 0,
            a->dist_sq >= 0,
            is_root_of(ra, a->dist_sq as int),
            sa == (den as real) * ra,
            scaled_a == den * den * (a->dist_sq as int),
    ;
    assert(is_root_of(sb, scaled_b) && scaled_b >= 0) by (nonlinear_arith)
        requires
            den > 0,
            b->dist_sq >= 0,
            is_root_of(rb, b->dist_sq as int),
            sb == (den as real) * rb,
            scaled_b == den * den * (b->dist_sq as int),
    ;
    lemma_root_lt_is_real_order(scaled_a, scaled_b, w * num - v * num, sa, sb);
    let s = strength.as_real();
    assert(sa < sb + ((w * num - v * num) as real) <==> ra + (v as real) * s < rb + (w as real)
        * s) by (nonlinear_arith)
        requires
            den > 0,
            sa == (den as real) * ra,
            sb == (den as real) * rb,
            s == (num as real) / (den as real),
    ;
}

/// `sqrt(a) < sqrt(b) + gap` and not `sqrt(b) - gap < sqrt(a)`, for
/// `a < b` and a gap that is not negative.
proof fn lemma_root_lt_of_smaller(a: int, b: int, gap: int)
    by (nonlinear_arith)
    requires
        0 <= a < b,
        gap >= 0,
    ensures
        root_lt(a, b, gap),
        !root_lt(b, a, -gap),
{
}

/// A cell that the agent has never left is cheaper than every cell farther
/// from the goal, however often that one was left.
pub proof fn law_unvisited_closer_is_cheaper(a: CostView, b: CostView, strength: StrengthView)
    requires
        strength.valid(),
        a is Reachable,
        b is Reachable,
        a->visits == 0,
        a->dist_sq < b->dist_sq,
    ensures
        a.lt(b, strength),
        !b.lt(a, strength),
{
    let scaled_a = (strength.den * strength.den * a->dist_sq) as int;
    let scaled_b = (strength.den * strength.den * b->dist_sq) as int;
    let gap = b->visits * strength.num - a->visits * strength.num;
    assert(0 <= scaled_a < scaled_b) by (nonlinear_arith)
        requires
            strength.den > 0,
            a->dist_sq < b->dist_sq,
            scaled_a == strength.den * strength.den * a->dist_sq,
            scaled_b == strength.den * strength.den * b->dist_sq,
    ;
    assert(gap >= 0 && a->visits * strength.num - b->visits * strength.num == -gap)
        by (nonlinear_arith)
        requires
            a->visits == 0,
            gap == b->visits * strength.num - a->visits * strength.num,
    ;
    lemma_root_lt_of_smaller(scaled_a, scaled_b, gap);
}

/// A blocked cell ranks above every open one: every reachable cost is `lt`
/// the unreachable one, and the unreachable one is `lt` nothing.
pub proof fn law_unreachable_is_maximal(a: CostView, strength: StrengthView)
    ensures
        a is Reachable ==> a.lt(CostView::Unreachable, strength),
        !CostView::Unreachable.lt(a, strength),
{
}

/// `sqrt(a) < sqrt(b) + d` and `sqrt(b) < sqrt(a) - d` do not both hold.
proof fn lemma_root_lt_one_way(a: int, b: int, d: int)
    by (nonlinear_arith)
    ensures
        !(root_lt(a, b, d) && root_lt(b, a, -d)),
{
}

/// No cost is cheaper than itself, and of two costs at most one is cheaper
/// than the other.
pub proof fn law_lt_is_one_way(a: CostView, b: CostView, strength: StrengthView)
    ensures
        !a.lt(a, strength),
        a.lt(b, strength) ==> !b.lt(a, strength),
{
    if a is Reachable {
        let scaled = (strength.den * strength.den * a->dist_sq) as int;
        lemma_root_lt_one_way(scaled, scaled, 0);
        if b is Reachable {
            let gap = b->visits * strength.num - a->visits * strength.num;
            lemma_root_lt_one_way(
                scaled,
                (strength.den * strength.den * b->dist_sq) as int,
                gap,
            );
            assert(a->visits * strength.num - b->visits * strength.num == -gap);
        }
    }
}

/// `lt` ranks costs as `<` ranks numbers: both being cheaper and not being
/// cheaper carry over a cost in between.
pub proof fn law_lt_carries_over(
    a: CostView,
    b: CostView,
    c: CostView,
    strength: StrengthView,
    root: spec_fn(nat) -> real,
)
    requires
        strength.valid(),
        is_square_root(root),
    ensures
        a.lt(b, strength) && b.lt(c, strength) ==> a.lt(c, strength),
        !a.lt(b, strength) && !b.lt(c, strength) ==> !a.lt(c, strength),
{
    if a is Reachable && b is Reachable {
        law_lt_orders_by_value(a, b, strength, root);
    }
    if b is Reachable && c is Reachable {
        law_lt_orders_by_value(b, c, strength, root);
    }
    if a is Reachable && c is Reachable {
        law_lt_orders_by_value(a, c, strength, root);
    }
}

/// The cost that the maze gives a cell: unreachable for a blocked cell, and
/// for an open one the straight-line distance to the goal, that is the
/// number that is not negative and whose square is
/// `(x - goal_x)^2 + (y - goal_y)^2`.
pub proof fn law_objective_is_distance(
    maze: MazeView,
    strength: StrengthView,
    x: int,
    y: int,
    root: spec_fn(nat) -> real,
)
    requires
        maze.valid(),
        maze.in_bounds(x, y),
        is_square_root(root),
    ensures
        maze.blocked[y][x] ==> maze.objective(x, y) is Unreachable,
        !maze.blocked[y][x] ==> {
            let distance = maze.objective(x, y).value(strength, root);
            &&& maze.objective(x, y) is Reachable
            &&& distance >= (0 as real)
            &&& distance * distance == (((x - maze.goal_x) * (x - maze.goal_x) + (y - maze.goal_y)
                * (y - maze.goal_y)) as real)
        },
{
    if !maze.blocked[y][x] {
        let dx = x - maze.goal_x;
        let dy = y - maze.goal_y;
        assert(dx * dx + dy * dy >= 0) by (nonlinear_arith);
        let r = root(maze.dist_sq(x, y));
        assert(is_root_of(r, maze.dist_sq(x, y) as int));
        let s = strength.as_real();
        assert(r + ((0nat) as real) * s == r) by (nonlinear_arith);
    }
}

/// An agent that has not moved yet remembers every cell at the cost the
/// maze gives it, and is valid when it starts on an open cell.
pub proof fn law_fresh_memory_is_objective(
    maze: MazeView,
    strength: StrengthView,
    x: nat,
    y: nat,
)
    requires
        maze.valid(),
        strength.valid(),
        maze.is_open(x as int, y as int),
    ensures
        AppView::fresh(maze, strength, x, y).valid(),
        forall|i: int, j: int|
            maze.in_bounds(i, j) ==> #[trigger] AppView::fresh(maze, strength, x, y).remembered(
                i,
                j,
            ) == maze.objective(i, j),
{
}

/// A step never takes the agent off the grid or onto a blocked cell: it
/// leaves a valid state valid, in the same maze, and moves the agent by at
/// most one cell along one axis.
pub proof fn law_step_keeps_valid(s: AppView)
    requires
        s.valid(),
    ensures
        s.step().valid(),
        s.step().maze == s.maze,
        s.step().strength == s.strength,
        s.step().maze.is_open(s.step().x as int, s.step().y as int),
        match s.outcome() {
            Step::Moved(d) => s.allowed(d) && s.step().x == s.x + d.dx() && s.step().y == s.y
                + d.dy(),
            _ => s.step().x == s.x && s.step().y == s.y,
        },
{
    let t = s.step();
    assert forall|i: int, j: int| t.maze.in_bounds(i, j) implies (#[trigger] t.remembered(
        i,
        j,
    )).is_later(t.maze.objective(i, j)) by {
        assert(s.remembered(i, j).is_later(s.maze.objective(i, j)));
    }
}

/// Whatever the number of steps, the agent stands on an open cell of the
/// grid.
pub proof fn law_run_keeps_valid(s: AppView, n: nat)
    requires
        s.valid(),
    ensures
        s.run(n).valid(),
        s.run(n).maze == s.maze,
        s.run(n).strength == s.strength,
        s.run(n).maze.is_open(s.run(n).x as int, s.run(n).y as int),
    decreases n,
{
    if n > 0 {
        law_run_keeps_valid(s, (n - 1) as nat);
        law_step_keeps_valid(s.run((n - 1) as nat));
    }
}

/// Once the agent stands on the goal, no number of further steps changes
/// its cell or its memory.
pub proof fn law_arrival_is_final(s: AppView, n: nat)
    requires
        s.at_goal(),
    ensures
        s.step() == s,
        s.run(n) == s,
    decreases n,
{
    if n > 0 {
        law_arrival_is_final(s, (n - 1) as nat);
    }
}

/// A step ends stuck exactly when the agent is off the goal and can enter
/// none of the four cells beside it; it ends on the goal exactly when the
/// agent stands there; in every other case it moves the agent.
pub proof fn law_stuck_exactly_when_hemmed_in(s: AppView)
    ensures
        s.outcome() is Arrived <==> s.at_goal(),
        s.outcome() is Stuck <==> !s.at_goal() && forall|d: Direction| !#[trigger] s.allowed(d),
        s.outcome() is Moved <==> !s.at_goal() && exists|d: Direction| #[trigger] s.allowed(d),
        s.outcome() matches Step::Moved(d) ==> s.allowed(d),
{
    if !s.at_goal() {
        if s.choice() is None {
            assert forall|d: Direction| !#[trigger] s.allowed(d) by {
                match d {
                    Direction::Up => {},
                    Direction::Down => {},
                    Direction::Right => {},
                    Direction::Left => {},
                }
            }
        } else {
            assert(s.allowed(s.choice()->0));
        }
    }
}

/// A step that finds no cell to enter changes nothing.
pub proof fn law_stuck_changes_nothing(s: AppView)
    requires
        s.outcome() is Stuck,
    ensures
        s.step() == s,
        forall|d: Direction| !#[trigger] s.allowed(d),
{
    assert forall|d: Direction| !#[trigger] s.allowed(d) by {
        match d {
            Direction::Up => {},
            Direction::Down => {},
            Direction::Right => {},
            Direction::Left => {},
        }
    }
}

/// A step that moves the agent adds one visit to the cell it leaves and
/// changes the memory of no other cell.
pub proof fn law_only_the_departed_cell_changes(s: AppView)
    requires
        s.valid(),
        s.outcome() is Moved,
    ensures
        s.step().remembered(s.x as int, s.y as int) == s.remembered(
            s.x as int,
            s.y as int,
        ).departed(),
        forall|i: int, j: int|
            s.maze.in_bounds(i, j) && !(i == s.x && j == s.y) ==> #[trigger] s.step().remembered(
                i,
                j,
            ) == s.remembered(i, j),
{
}

/// A step that moves the agent raises the cost of the cell it leaves by
/// exactly the memory strength.
pub proof fn law_departure_adds_strength(s: AppView, root: spec_fn(nat) -> real)
    requires
        s.valid(),
        s.outcome() is Moved,
        is_square_root(root),
    ensures
        s.remembered(s.x as int, s.y as int) is Reachable,
        s.step().remembered(s.x as int, s.y as int) is Reachable,
        s.step().remembered(s.x as int, s.y as int).value(s.strength, root) == s.remembered(
            s.x as int,
            s.y as int,
        ).value(s.strength, root) + s.strength.as_real(),
{
    let before = s.remembered(s.x as int, s.y as int);
    assert(before.is_later(s.maze.objective(s.x as int, s.y as int)));
    let v = before->visits;
    let unit = s.strength.as_real();
    assert(((v + 1) as real) * unit == (v as real) * unit + unit) by (nonlinear_arith);
}

/// Between two cells that the agent may enter, `lt` on what it remembers
/// of them is `<` on the numbers.
proof fn lemma_lt_between_moves(s: AppView, root: spec_fn(nat) -> real, c: Direction, d: Direction)
    requires
        s.valid(),
        is_square_root(root),
    ensures
        s.allowed(c) && s.allowed(d) ==> (s.cost_toward(c).lt(s.cost_toward(d), s.strength)
            <==> s.cost_toward(c).value(s.strength, root) < s.cost_toward(d).value(
            s.strength,
            root,
        )),
{
    if s.allowed(c) && s.allowed(d) {
        assert(s.remembered(s.x + c.dx(), s.y + c.dy()).is_later(
            s.maze.objective(s.x + c.dx(), s.y + c.dy()),
        ));
        assert(s.remembered(s.x + d.dx(), s.y + d.dy()).is_later(
            s.maze.objective(s.x + d.dx(), s.y + d.dy()),
        ));
        law_lt_orders_by_value(s.cost_toward(c), s.cost_toward(d), s.strength, root);
    }
}

/// The agent's choice is the first of the cheapest moves: it is allowed, no
/// allowed move leads to a cheaper cell, and every allowed move that comes
/// before it in the order up, down, right, left leads to a dearer one. No
/// choice is made only when no move is allowed.
pub proof fn law_choice_is_first_cheapest(s: AppView, root: spec_fn(nat) -> real)
    requires
        s.valid(),
        is_square_root(root),
    ensures
        match s.choice() {
            None => forall|d: Direction| !#[trigger] s.allowed(d),
            Some(c) => {
                &&& s.allowed(c)
                &&& forall|d: Direction| #[trigger]
                    s.allowed(d) ==> {
                        &&& s.cost_toward(c).value(s.strength, root) <= s.cost_toward(d).value(
                            s.strength,
                            root,
                        )
                        &&& d.rank() < c.rank() ==> s.cost_toward(c).value(s.strength, root)
                            < s.cost_toward(d).value(s.strength, root)
                    }
            },
        },
{
    let u = Direction::Up;
    let d = Direction::Down;
    let r = Direction::Right;
    let l = Direction::Left;
    lemma_lt_between_moves(s, root, d, u);
    lemma_lt_between_moves(s, root, r, u);
    lemma_lt_between_moves(s, root, r, d);
    lemma_lt_between_moves(s, root, l, u);
    lemma_lt_between_moves(s, root, l, d);
    lemma_lt_between_moves(s, root, l, r);
    match s.choice() {
        None => {
            assert forall|m: Direction| !#[trigger] s.allowed(m) by {
                match m {
                    Direction::Up => {},
                    Direction::Down => {},
                    Direction::Right => {},
                    Direction::Left => {},
                }
            }
        },
        Some(c) => {
            assert forall|m: Direction| #[trigger] s.allowed(m) implies {
                &&& s.cost_toward(c).value(s.strength, root) <= s.cost_toward(m).value(
                    s.strength,
                    root,
                )
                &&& m.rank() < c.rank() ==> s.cost_toward(c).value(s.strength, root)
                    < s.cost_toward(m).value(s.strength, root)
            } by {
                match m {
                    Direction::Up => {},
                    Direction::Down => {},
                    Direction::Right => {},
                    Direction::Left => {},
                }
            }
        },
    }
}

/// The cell one step nearer to a goal that lies `to_go` cells straight
/// ahead is nearer to it than the cell one step back (`across == 0`) and
/// than the cells to either side (`across` is `1` or `-1`).
proof fn lemma_nearer_ahead(to_go: int, ahead: int, along: int, across: int)
    by (nonlinear_arith)
    requires
        to_go >= 1,
        ahead == to_go - 1 || ahead == 1 - to_go,
        ((along == to_go + 1 || along == -to_go - 1) && across == 0) || ((along == to_go || along
            == -to_go) && (across == 1 || across == -1)),
    ensures
        0 <= ahead * ahead < along * along + across * across,
{
}

/// An agent that has the goal `to_go` cells straight ahead in direction `d`,
/// and has never left the next cell on the way, moves to that cell.
proof fn lemma_heads_for_goal(t: AppView, d: Direction, to_go: nat)
    requires
        t.valid(),
        to_go >= 1,
        (t.maze.goal_x as int, t.maze.goal_y as int) == d.over(t.x as int, t.y as int, to_go as int),
        t.allowed(d),
        t.cost_toward(d) == t.maze.objective(t.x + d.dx(), t.y + d.dy()),
    ensures
        t.outcome() == Step::Moved(d),
{
    let l = to_go as int;
    let x = t.x as int;
    let y = t.y as int;
    let gx = t.maze.goal_x as int;
    let gy = t.maze.goal_y as int;
    let ahead = t.cost_toward(d);
    let ax = x + d.dx() - gx;
    let ay = y + d.dy() - gy;
    assert(ax * ax >= 0 && ay * ay >= 0) by (nonlinear_arith);
    assert(ahead->dist_sq == ax * ax + ay * ay);
    assert forall|m: Direction| m != d && #[trigger] t.allowed(m) implies ahead.lt(
        t.cost_toward(m),
        t.strength,
    ) && !t.cost_toward(m).lt(ahead, t.strength) by {
        let other = t.cost_toward(m);
        assert(t.remembered(x + m.dx(), y + m.dy()).is_later(
            t.maze.objective(x + m.dx(), y + m.dy()),
        ));
        let bx = x + m.dx() - gx;
        let by = y + m.dy() - gy;
        assert(bx * bx >= 0 && by * by >= 0) by (nonlinear_arith);
        assert(other->dist_sq == bx * bx + by * by);
        if d == Direction::Left || d == Direction::Right {
            assert(ay * ay == 0) by (nonlinear_arith)
                requires
                    ay == 0,
            ;
            lemma_nearer_ahead(l, ax, bx, by);
        } else {
            assert(ax * ax == 0) by (nonlinear_arith)
                requires
                    ax == 0,
            ;
            lemma_nearer_ahead(l, ay, by, bx);
        }
        law_unvisited_closer_is_cheaper(ahead, other, t.strength);
    }
}

/// Whether the cell `k` cells from `(x, y)` in direction `d` is open.
spec fn open_along(maze: MazeView, x: int, y: int, d: Direction, k: int) -> bool {
    maze.is_open(d.over(x, y, k).0, d.over(x, y, k).1)
}

/// Whether `t` remembers the cell `k` cells from `(x, y)` in direction `d`
/// at the cost the maze gives it.
spec fn unvisited_along(t: AppView, x: int, y: int, d: Direction, k: int) -> bool {
    t.remembered(d.over(x, y, k).0, d.over(x, y, k).1) == t.maze.objective(
        d.over(x, y, k).0,
        d.over(x, y, k).1,
    )
}

/// Down a corridor of `n` open cells that ends on the goal, a fresh agent
/// walks one cell per step: after `k <= n` steps it stands `k` cells down
/// the corridor and has left none of the cells from there on.
proof fn lemma_walks_corridor(
    maze: MazeView,
    strength: StrengthView,
    x: nat,
    y: nat,
    d: Direction,
    n: nat,
    k: nat,
)
    requires
        maze.valid(),
        strength.valid(),
        forall|m: int| 0 <= m <= n ==> #[trigger] open_along(maze, x as int, y as int, d, m),
        (maze.goal_x as int, maze.goal_y as int) == d.over(x as int, y as int, n as int),
        k <= n,
    ensures
        ({
            let t = AppView::fresh(maze, strength, x, y).run(k);
            &&& t.valid()
            &&& t.maze == maze
            &&& t.strength == strength
            &&& (t.x as int, t.y as int) == d.over(x as int, y as int, k as int)
            &&& forall|m: int| k <= m <= n ==> #[trigger] unvisited_along(t, x as int, y as int, d, m)
        }),
    decreases k,
{
    let s = AppView::fresh(maze, strength, x, y);
    if k == 0 {
        assert(open_along(maze, x as int, y as int, d, 0));
        assert forall|m: int| 0 <= m <= n implies #[trigger] unvisited_along(
            s,
            x as int,
            y as int,
            d,
            m,
        ) by {
            assert(open_along(maze, x as int, y as int, d, m));
        }
    } else {
        let j = (k - 1) as nat;
        lemma_walks_corridor(maze, strength, x, y, d, n, j);
        let t = s.run(j);
        let to_go = (n - j) as nat;
        assert(open_along(maze, x as int, y as int, d, k as int));
        assert(unvisited_along(t, x as int, y as int, d, k as int));
        lemma_heads_for_goal(t, d, to_go);
        law_step_keeps_valid(t);
        law_only_the_departed_cell_changes(t);
        let u = t.step();
        assert(u == s.run(k));
        assert forall|m: int| k <= m <= n implies #[trigger] unvisited_along(
            u,
            x as int,
            y as int,
            d,
            m,
        ) by {
            assert(unvisited_along(t, x as int, y as int, d, m));
            assert(open_along(maze, x as int, y as int, d, m));
        }
    }
}

/// Where the start lies in one row or one column with the goal and every
/// cell from the start to the goal is open, a fresh agent comes one cell
/// nearer to the goal with every step: it stands on the goal after exactly
/// as many steps as there are cells to go, and on no step before.
pub proof fn law_straight_corridor_is_walked(
    maze: MazeView,
    strength: StrengthView,
    x: nat,
    y: nat,
)
    requires
        maze.valid(),
        strength.valid(),
        maze.straight_corridor(x as int, y as int),
    ensures
        ({
            let s = AppView::fresh(maze, strength, x, y);
            let n = maze.steps_to_goal(x as int, y as int);
            &&& s.run(n).at_goal()
            &&& forall|k: nat| k < n ==> !(#[trigger] s.run(k)).at_goal()
            &&& forall|k: nat|
                k <= n ==> maze.steps_to_goal(
                    (#[trigger] s.run(k)).x as int,
                    s.run(k).y as int,
                ) == n - k
        }),
{
    let s = AppView::fresh(maze, strength, x, y);
    let n = maze.steps_to_goal(x as int, y as int);
    let d = if x < maze.goal_x {
        Direction::Right
    } else if x > maze.goal_x {
        Direction::Left
    } else if y < maze.goal_y {
        Direction::Down
    } else {
        Direction::Up
    };
    assert forall|m: int| 0 <= m <= n implies #[trigger] open_along(
        maze,
        x as int,
        y as int,
        d,
        m,
    ) by {
        assert(maze.is_open(d.over(x as int, y as int, m).0, d.over(x as int, y as int, m).1));
    }
    lemma_walks_corridor(maze, strength, x, y, d, n, n);
    assert forall|k: nat| k <= n implies maze.steps_to_goal(
        (#[trigger] s.run(k)).x as int,
        s.run(k).y as int,
    ) == n - k by {
        lemma_walks_corridor(maze, strength, x, y, d, n, k);
    }
    assert forall|k: nat| k < n implies !(#[trigger] s.run(k)).at_goal() by {
        lemma_walks_corridor(maze, strength, x, y, d, n, k);
    }
}

/// Whether the cell beside `(x, y)` in direction `d` is open.
pub open spec fn open_beside(maze: MazeView, x: int, y: int, d: Direction) -> bool {
    maze.is_open(x + d.dx(), y + d.dy())
}

/// Whether the agent stands before a dead-end pocket: it is off the goal,
/// the only cells it can enter are the pocket in direction `pocket` and
/// the way on in direction `exit`, and the pocket is not the goal and has
/// no way out but back.
pub open spec fn before_pocket(s: AppView, pocket: Direction, exit: Direction) -> bool {
    let px = s.x + pocket.dx();
    let py = s.y + pocket.dy();
    &&& s.valid()
    &&& !s.at_goal()
    &&& pocket != exit
    &&& forall|d: Direction| #[trigger] s.allowed(d) <==> d == pocket || d == exit
    &&& !(px == s.maze.goal_x && py == s.maze.goal_y)
    &&& forall|d: Direction| #[trigger] open_beside(s.maze, px, py, d) <==> d == pocket.opposite()
}

/// Whether the pocket stays cheaper than the way on for `k` visits and no
/// longer: it is cheaper after fewer than `k` more visits, and dearer after
/// `k`.
pub open spec fn pocket_holds_for(s: AppView, pocket: Direction, exit: Direction, k: nat) -> bool {
    &&& forall|j: nat|
        j < k ==> (#[trigger] s.cost_toward(pocket).after_visits(j)).lt(
            s.cost_toward(exit),
            s.strength,
        )
    &&& s.cost_toward(exit).lt(s.cost_toward(pocket).after_visits(k), s.strength)
}

/// Of two moves that are the only ones allowed, the agent makes the one
/// that leads to the cheaper cell.
proof fn lemma_choice_between_two(u: AppView, a: Direction, b: Direction)
    requires
        a != b,
        forall|d: Direction| #[trigger] u.allowed(d) <==> d == a || d == b,
        u.cost_toward(a).lt(u.cost_toward(b), u.strength),
    ensures
        u.choice() == Some(a),
{
    law_lt_is_one_way(u.cost_toward(a), u.cost_toward(b), u.strength);
    assert(u.allowed(Direction::Up) <==> Direction::Up == a || Direction::Up == b);
    assert(u.allowed(Direction::Down) <==> Direction::Down == a || Direction::Down == b);
    assert(u.allowed(Direction::Right) <==> Direction::Right == a || Direction::Right == b);
    assert(u.allowed(Direction::Left) <==> Direction::Left == a || Direction::Left == b);
}

/// The agent makes the one move that is allowed.
proof fn lemma_choice_of_the_only(u: AppView, a: Direction)
    requires
        forall|d: Direction| #[trigger] u.allowed(d) <==> d == a,
    ensures
        u.choice() == Some(a),
{
    assert(u.allowed(Direction::Up) <==> Direction::Up == a);
    assert(u.allowed(Direction::Down) <==> Direction::Down == a);
    assert(u.allowed(Direction::Right) <==> Direction::Right == a);
    assert(u.allowed(Direction::Left) <==> Direction::Left == a);
}

/// The agent before the pocket after `i` rounds into it and back: it
/// stands where it stood, the pocket has `i` more visits, and the way on
/// is remembered as before.
spec fn back_after(s: AppView, u: AppView, pocket: Direction, exit: Direction, i: nat) -> bool {
    &&& u.valid()
    &&& u.maze == s.maze
    &&& u.strength == s.strength
    &&& u.x == s.x
    &&& u.y == s.y
    &&& u.cost_toward(pocket) == s.cost_toward(pocket).after_visits(i)
    &&& u.cost_toward(exit) == s.cost_toward(exit)
}

/// One round into the pocket and back.
proof fn lemma_pocket_round(s: AppView, u: AppView, pocket: Direction, exit: Direction, i: nat)
    requires
        before_pocket(s, pocket, exit),
        back_after(s, u, pocket, exit, i),
        u.cost_toward(pocket).lt(u.cost_toward(exit), u.strength),
    ensures
        u.step().x == s.x + pocket.dx(),
        u.step().y == s.y + pocket.dy(),
        back_after(s, u.step().step(), pocket, exit, i + 1),
{
    assert forall|d: Direction| #[trigger] u.allowed(d) <==> d == pocket || d == exit by {
        assert(s.allowed(d) <==> d == pocket || d == exit);
    }
    lemma_choice_between_two(u, pocket, exit);
    law_step_keeps_valid(u);
    law_only_the_departed_cell_changes(u);
    let t = u.step();
    assert(s.allowed(pocket) && s.allowed(exit));
    let back = pocket.opposite();
    assert forall|d: Direction| #[trigger] t.allowed(d) <==> d == back by {
        assert(open_beside(s.maze, s.x + pocket.dx(), s.y + pocket.dy(), d) <==> d == back);
    }
    lemma_choice_of_the_only(t, back);
    law_step_keeps_valid(t);
    law_only_the_departed_cell_changes(t);
    let v = t.step();
    assert(v.x == s.x && v.y == s.y) by {
        match pocket {
            Direction::Up => {},
            Direction::Down => {},
            Direction::Right => {},
            Direction::Left => {},
        }
    }
    let px = s.x + pocket.dx();
    let py = s.y + pocket.dy();
    let ex = s.x + exit.dx();
    let ey = s.y + exit.dy();
    assert(!(ex == px && ey == py) && !(ex == s.x && ey == s.y) && !(px == s.x && py == s.y)) by {
        match pocket {
            Direction::Up => {},
            Direction::Down => {},
            Direction::Right => {},
            Direction::Left => {},
        }
        match exit {
            Direction::Up => {},
            Direction::Down => {},
            Direction::Right => {},
            Direction::Left => {},
        }
    }
    assert(t.remembered(px, py) == u.remembered(px, py));
    assert(t.remembered(ex, ey) == u.remembered(ex, ey));
    assert(v.remembered(ex, ey) == t.remembered(ex, ey));
    assert(v.remembered(px, py) == t.remembered(px, py).departed());
    assert(u.remembered(px, py).is_later(u.maze.objective(px, py)));
}

/// After `i <= k` rounds the agent is back before the pocket.
proof fn lemma_pocket_rounds(s: AppView, pocket: Direction, exit: Direction, k: nat, i: nat)
    requires
        before_pocket(s, pocket, exit),
        pocket_holds_for(s, pocket, exit, k),
        i <= k,
    ensures
        back_after(s, s.run(2 * i), pocket, exit, i),
        i > 0 ==> s.run((2 * i - 1) as nat).x == s.x + pocket.dx() && s.run((2 * i - 1) as nat).y
            == s.y + pocket.dy(),
    decreases i,
{
    if i == 0 {
        assert(s.allowed(pocket));
        assert(s.remembered(s.x + pocket.dx(), s.y + pocket.dy()).is_later(
            s.maze.objective(s.x + pocket.dx(), s.y + pocket.dy()),
        ));
    } else {
        let j = (i - 1) as nat;
        lemma_pocket_rounds(s, pocket, exit, k, j);
        let u = s.run(2 * j);
        assert(s.cost_toward(pocket).after_visits(j).lt(s.cost_toward(exit), s.strength));
        lemma_pocket_round(s, u, pocket, exit, j);
        assert(s.run((2 * j + 1) as nat) == u.step());
        assert(s.run(2 * i) == u.step().step());
    }
}

/// An agent before a dead-end pocket goes into it and back for as long as
/// it remembers the pocket as cheaper than the way on, and then takes the
/// way on: where the pocket is cheaper after fewer than `k` more visits and
/// dearer after `k`, the agent enters the pocket exactly `k` times, stands
/// before it again after every second step, and with step `2 k + 1` moves
/// on. By then the pocket has `k` more visits and the way on is remembered
/// as before.
pub proof fn law_pocket_is_left(s: AppView, pocket: Direction, exit: Direction, k: nat)
    requires
        before_pocket(s, pocket, exit),
        pocket_holds_for(s, pocket, exit, k),
    ensures
        forall|n: nat|
            n <= 2 * k ==> if n % 2 == 0 {
                (#[trigger] s.run(n)).x == s.x && s.run(n).y == s.y
            } else {
                s.run(n).x == s.x + pocket.dx() && s.run(n).y == s.y + pocket.dy()
            },
        s.run(2 * k + 1).x == s.x + exit.dx(),
        s.run(2 * k + 1).y == s.y + exit.dy(),
        s.run(2 * k + 1).remembered(s.x + pocket.dx(), s.y + pocket.dy()) == s.cost_toward(
            pocket,
        ).after_visits(k),
        s.run(2 * k + 1).remembered(s.x + exit.dx(), s.y + exit.dy()) == s.cost_toward(exit),
{
    assert forall|n: nat| n <= 2 * k implies if n % 2 == 0 {
        (#[trigger] s.run(n)).x == s.x && s.run(n).y == s.y
    } else {
        s.run(n).x == s.x + pocket.dx() && s.run(n).y == s.y + pocket.dy()
    } by {
        if n % 2 == 0 {
            lemma_pocket_rounds(s, pocket, exit, k, n / 2);
            assert(2 * (n / 2) == n);
        } else {
            lemma_pocket_rounds(s, pocket, exit, k, (n + 1) / 2);
            assert(2 * ((n + 1) / 2) - 1 == n);
        }
    }
    lemma_pocket_rounds(s, pocket, exit, k, k);
    let u = s.run(2 * k);
    assert forall|d: Direction| #[trigger] u.allowed(d) <==> d == exit || d == pocket by {
        assert(s.allowed(d) <==> d == pocket || d == exit);
    }
    lemma_choice_between_two(u, exit, pocket);
    law_step_keeps_valid(u);
    law_only_the_departed_cell_changes(u);
    assert(s.run(2 * k + 1) == u.step());
    assert(s.allowed(pocket) && s.allowed(exit));
    let px = s.x + pocket.dx();
    let py = s.y + pocket.dy();
    let ex = s.x + exit.dx();
    let ey = s.y + exit.dy();
    assert(!(ex == s.x && ey == s.y) && !(px == s.x && py == s.y)) by {
        match pocket {
            Direction::Up => {},
            Direction::Down => {},
            Direction::Right => {},
            Direction::Left => {},
        }
        match exit {
            Direction::Up => {},
            Direction::Down => {},
            Direction::Right => {},
            Direction::Left => {},
        }
    }
    assert(u.step().remembered(px, py) == u.remembered(px, py));
    assert(u.step().remembered(ex, ey) == u.remembered(ex, ey));
}

/// The number of times the agent enters a dead-end pocket is the gap
/// between the way on and the pocket, divided by the memory strength and
/// rounded up: where `k` is the whole number with
/// `(k - 1) * strength < gap < k * strength`, the pocket stays cheaper for
/// `k` visits and no longer, so the agent enters it exactly `k` times and
/// moves on with step `2 k + 1`.
pub proof fn law_pocket_visits_are_the_gap_over_the_strength(
    s: AppView,
    pocket: Direction,
    exit: Direction,
    k: nat,
    root: spec_fn(nat) -> real,
)
    requires
        before_pocket(s, pocket, exit),
        is_square_root(root),
        k >= 1,
        ((k - 1) as real) * s.strength.as_real() < s.cost_toward(exit).value(s.strength, root)
            - s.cost_toward(pocket).value(s.strength, root),
        s.cost_toward(exit).value(s.strength, root) - s.cost_toward(pocket).value(
            s.strength,
            root,
        ) < (k as real) * s.strength.as_real(),
    ensures
        pocket_holds_for(s, pocket, exit, k),
        forall|n: nat|
            n <= 2 * k ==> if n % 2 == 0 {
                (#[trigger] s.run(n)).x == s.x && s.run(n).y == s.y
            } else {
                s.run(n).x == s.x + pocket.dx() && s.run(n).y == s.y + pocket.dy()
            },
        s.run(2 * k + 1).x == s.x + exit.dx(),
        s.run(2 * k + 1).y == s.y + exit.dy(),
{
    let p = s.cost_toward(pocket);
    let e = s.cost_toward(exit);
    let unit = s.strength.as_real();
    let gap = e.value(s.strength, root) - p.value(s.strength, root);
    assert(s.allowed(pocket) && s.allowed(exit));
    assert(s.remembered(s.x + pocket.dx(), s.y + pocket.dy()).is_later(
        s.maze.objective(s.x + pocket.dx(), s.y + pocket.dy()),
    ));
    assert(s.remembered(s.x + exit.dx(), s.y + exit.dy()).is_later(
        s.maze.objective(s.x + exit.dx(), s.y + exit.dy()),
    ));
    assert(unit > (0 as real)) by (nonlinear_arith)
        requires
            k >= 1,
            ((k - 1) as real) * unit < gap,
            gap < (k as real) * unit,
    ;
    assert forall|j: nat| j < k implies (#[trigger] p.after_visits(j)).lt(e, s.strength) by {
        let later = p.after_visits(j);
        law_lt_orders_by_value(later, e, s.strength, root);
        assert(later.value(s.strength, root) == p.value(s.strength, root) + (j as real) * unit)
            by (nonlinear_arith)
            requires
                later.value(s.strength, root) == root(p->dist_sq) + ((p->visits + j) as real)
                    * unit,
                p.value(s.strength, root) == root(p->dist_sq) + (p->visits as real) * unit,
        ;
        assert((j as real) * unit <= ((k - 1) as real) * unit) by (nonlinear_arith)
            requires
                j <= k - 1,
                unit > (0 as real),
        ;
    }
    let last = p.after_visits(k);
    law_lt_orders_by_value(e, last, s.strength, root);
    assert(last.value(s.strength, root) == p.value(s.strength, root) + (k as real) * unit)
        by (nonlinear_arith)
        requires
            last.value(s.strength, root) == root(p->dist_sq) + ((p->visits + k) as real) * unit,
            p.value(s.strength, root) == root(p->dist_sq) + (p->visits as real) * unit,
    ;
    law_pocket_is_left(s, pocket, exit, k);
}

} // verus!
