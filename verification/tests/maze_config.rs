use maze_agent::{App, ConfigError, Cost, Maze, Strength, MAX_SIDE};

fn three_by_three() -> Vec<Vec<i32>> {
    vec![vec![0, 0, 0], vec![0, 1, 0], vec![0, 0, 0]]
}

fn fault_of(layout: Vec<Vec<i32>>, goal_x: usize, goal_y: usize) -> ConfigError {
    match Maze::new(layout, goal_x, goal_y) {
        Ok(_) => panic!("the configuration was accepted"),
        Err(fault) => fault,
    }
}

#[test]
fn a_maze_knows_its_size_and_goal() {
    let maze = Maze::new(vec![vec![0, 0, 0, 1], vec![0, 1, 0, 0]], 3, 1).unwrap();
    assert_eq!(maze.width(), 4);
    assert_eq!(maze.height(), 2);
    assert_eq!(maze.goal(), (3, 1));
}

#[test]
fn cells_are_open_or_blocked() {
    let maze = Maze::new(vec![vec![0, 0, 0, 1], vec![0, 7, 0, 0]], 3, 1).unwrap();
    assert!(maze.is_open(0, 0));
    assert!(!maze.is_open(3, 0));
    // Any number other than zero blocks a cell.
    assert!(!maze.is_open(1, 1));
    assert!(maze.is_open(3, 1));
    // Outside the grid nothing is open.
    assert!(!maze.is_open(4, 0));
    assert!(!maze.is_open(0, 2));
    assert!(!maze.is_open(usize::MAX, usize::MAX));
}

#[test]
fn ragged_rows_are_turned_down() {
    assert_eq!(fault_of(vec![vec![0, 0], vec![0]], 0, 0), ConfigError::Ragged);
    assert_eq!(fault_of(vec![vec![], vec![0]], 0, 0), ConfigError::Ragged);
    // Raggedness is found before a goal out of bounds.
    assert_eq!(fault_of(vec![vec![0, 0], vec![0, 0, 0]], 9, 9), ConfigError::Ragged);
}

#[test]
fn a_side_beyond_the_limit_is_turned_down() {
    assert_eq!(fault_of(vec![vec![0; MAX_SIDE + 1]], 0, 0), ConfigError::TooLarge);
    assert_eq!(fault_of(vec![vec![0]; MAX_SIDE + 1], 0, 0), ConfigError::TooLarge);
    let widest = Maze::new(vec![vec![0; MAX_SIDE]], MAX_SIDE - 1, 0).unwrap();
    assert_eq!(widest.width(), MAX_SIDE);
    assert_eq!(widest.distance_sq(0, 0), 32767 * 32767);
}

#[test]
fn a_goal_outside_the_grid_is_turned_down() {
    assert_eq!(fault_of(three_by_three(), 3, 0), ConfigError::GoalOutOfBounds);
    assert_eq!(fault_of(three_by_three(), 0, 3), ConfigError::GoalOutOfBounds);
    assert_eq!(fault_of(vec![], 0, 0), ConfigError::GoalOutOfBounds);
    assert_eq!(fault_of(vec![vec![], vec![]], 0, 0), ConfigError::GoalOutOfBounds);
}

#[test]
fn a_goal_on_a_blocked_cell_is_turned_down() {
    assert_eq!(fault_of(three_by_three(), 1, 1), ConfigError::GoalBlocked);
}

#[test]
fn a_start_outside_the_grid_is_turned_down() {
    let strength = Strength::new(3, 2).unwrap();
    let maze = Maze::new(three_by_three(), 2, 2).unwrap();
    assert_eq!(App::new(maze, 3, 0, strength).err(), Some(ConfigError::StartOutOfBounds));
    let maze = Maze::new(three_by_three(), 2, 2).unwrap();
    assert_eq!(App::new(maze, 0, 3, strength).err(), Some(ConfigError::StartOutOfBounds));
}

#[test]
fn a_start_on_a_blocked_cell_is_turned_down() {
    let strength = Strength::new(3, 2).unwrap();
    let maze = Maze::new(three_by_three(), 2, 2).unwrap();
    assert_eq!(App::new(maze, 1, 1, strength).err(), Some(ConfigError::StartBlocked));
}

#[test]
fn distance_is_squared_and_symmetric() {
    let maze = Maze::new(vec![vec![0; 5]; 4], 1, 2).unwrap();
    assert_eq!(maze.distance_sq(1, 2), 0);
    assert_eq!(maze.distance_sq(4, 0), 9 + 4);
    assert_eq!(maze.distance_sq(0, 3), 1 + 1);
    assert_eq!(maze.distance_sq(0, 2), 1);
    assert_eq!(maze.distance_sq(2, 2), 1);
}

#[test]
fn objective_is_distance_or_unreachable() {
    let maze = Maze::new(three_by_three(), 2, 2).unwrap();
    assert_eq!(maze.objective(1, 1), Cost::Unreachable);
    assert_eq!(maze.objective(0, 0), Cost::Reachable { dist_sq: 8, visits: 0 });
    assert_eq!(maze.objective(1, 0), Cost::Reachable { dist_sq: 5, visits: 0 });
    assert_eq!(maze.objective(0, 1), Cost::Reachable { dist_sq: 5, visits: 0 });
    assert_eq!(maze.objective(2, 2), Cost::Reachable { dist_sq: 0, visits: 0 });
}

#[test]
fn starting_memory_is_the_objective_of_every_cell() {
    let strength = Strength::new(3, 2).unwrap();
    let maze = Maze::new(three_by_three(), 2, 2).unwrap();
    let app = App::new(maze, 0, 0, strength).unwrap();
    assert_eq!(app.position(), (0, 0));
    assert_eq!(app.strength(), strength);
    for y in 0..3 {
        for x in 0..3 {
            assert_eq!(app.remembered(x, y), app.maze().objective(x, y));
            assert_eq!(app.remembered(x, y), app.objective(x, y));
        }
    }
    assert_eq!(app.remembered(1, 1), Cost::Unreachable);
    assert_eq!(app.remembered(2, 0), Cost::Reachable { dist_sq: 4, visits: 0 });
}
