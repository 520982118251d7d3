use maze_agent::{App, Cost, Direction, Maze, Step, Strength};

fn sixteen_by_sixteen() -> Vec<Vec<i32>> {
    vec![
        vec![0, 0, 0, 0, 0, 0, 0, 0, 0, 0, 0, 0, 0, 0, 0, 0],
        vec![0, 1, 1, 1, 1, 1, 1, 1, 1, 1, 1, 1, 1, 1, 1, 0],
        vec![0, 1, 0, 0, 0, 0, 0, 0, 0, 0, 0, 0, 0, 0, 1, 0],
        vec![0, 1, 0, 1, 1, 1, 1, 1, 1, 1, 1, 1, 1, 0, 1, 0],
        vec![0, 1, 0, 1, 0, 0, 0, 0, 0, 0, 0, 0, 1, 0, 1, 0],
        vec![0, 1, 0, 1, 0, 1, 1, 0, 1, 1, 1, 0, 1, 0, 1, 0],
        vec![0, 1, 0, 1, 0, 1, 0, 0, 0, 0, 1, 0, 1, 0, 1, 0],
        vec![0, 1, 0, 1, 0, 1, 0, 0, 0, 0, 1, 0, 1, 0, 1, 0],
        vec![0, 1, 0, 1, 0, 1, 0, 0, 0, 0, 1, 0, 1, 0, 1, 0],
        vec![0, 1, 0, 1, 0, 1, 0, 0, 0, 0, 1, 0, 1, 0, 1, 0],
        vec![0, 1, 0, 1, 0, 1, 1, 1, 1, 1, 1, 0, 0, 0, 1, 0],
        vec![0, 1, 0, 1, 0, 0, 0, 0, 0, 0, 0, 0, 1, 0, 1, 0],
        vec![0, 1, 0, 1, 1, 1, 1, 1, 1, 1, 1, 1, 1, 0, 1, 0],
        vec![0, 1, 0, 0, 0, 0, 0, 0, 0, 0, 0, 0, 0, 0, 1, 0],
        vec![0, 1, 1, 1, 1, 1, 1, 1, 1, 1, 1, 1, 1, 0, 1, 0],
        vec![0, 0, 0, 0, 0, 0, 0, 0, 0, 0, 0, 0, 0, 0, 0, 0],
    ]
}

fn walker(layout: Vec<Vec<i32>>, goal: (usize, usize), start: (usize, usize), num: u32, den: u16) -> App {
    let maze = Maze::new(layout, goal.0, goal.1).unwrap();
    App::new(maze, start.0, start.1, Strength::new(num, den).unwrap()).unwrap()
}

fn letter(outcome: Step) -> char {
    match outcome {
        Step::Arrived => 'A',
        Step::Stuck => 'S',
        Step::Moved(Direction::Left) => 'L',
        Step::Moved(Direction::Right) => 'R',
        Step::Moved(Direction::Down) => 'D',
        Step::Moved(Direction::Up) => 'U',
    }
}

fn walk(app: &mut App, steps: usize) -> String {
    (0..steps).map(|_| letter(app.update())).collect()
}

#[test]
fn the_spiral_is_walked_in_forty_eight_steps() {
    let mut app = walker(sixteen_by_sixteen(), (7, 7), (0, 0), 3, 2);
    let path = walk(&mut app, 53);
    assert_eq!(path, "DDDDDDDDDDDDDDDRRRRRRRRRRRRRUUUUULLUUUUUULLLLDDDAAAAA");
    assert_eq!(app.position(), (7, 7));
    // No cell was left twice on the way, and the top row was never entered.
    assert_eq!(app.remembered(0, 0), Cost::Reachable { dist_sq: 98, visits: 1 });
    assert_eq!(app.remembered(0, 15), Cost::Reachable { dist_sq: 113, visits: 1 });
    assert_eq!(app.remembered(15, 0), Cost::Reachable { dist_sq: 113, visits: 0 });
    assert_eq!(app.remembered(2, 2), Cost::Reachable { dist_sq: 50, visits: 0 });
    assert_eq!(app.remembered(7, 7), Cost::Reachable { dist_sq: 0, visits: 0 });
    assert_eq!(app.remembered(1, 1), Cost::Unreachable);
}

#[test]
fn a_corridor_to_the_right_takes_its_length() {
    let mut app = walker(vec![vec![0; 6]], (5, 0), (0, 0), 3, 2);
    assert_eq!(walk(&mut app, 6), "RRRRRA");
}

#[test]
fn a_corridor_to_the_left_takes_its_length() {
    let mut app = walker(vec![vec![0; 6]], (1, 0), (5, 0), 3, 2);
    assert_eq!(walk(&mut app, 5), "LLLLA");
}

#[test]
fn a_corridor_downwards_takes_its_length() {
    // Open cells beside the corridor do not draw the agent off it.
    let mut app = walker(vec![vec![0; 3]; 5], (1, 4), (1, 0), 3, 2);
    assert_eq!(walk(&mut app, 5), "DDDDA");
    assert_eq!(app.position(), (1, 4));
}

#[test]
fn a_corridor_upwards_takes_its_length() {
    let mut app = walker(vec![vec![1, 0, 1]; 4], (1, 0), (1, 3), 0, 1);
    assert_eq!(walk(&mut app, 4), "UUUA");
}

#[test]
fn a_corridor_of_no_length_takes_no_step() {
    let mut app = walker(vec![vec![0; 3]], (1, 0), (1, 0), 3, 2);
    assert_eq!(walk(&mut app, 2), "AA");
}

#[test]
fn one_visit_drives_the_agent_out_of_a_pocket() {
    // The pocket (2, 1) lies 2 from the goal, the corridor cells beside the
    // start sqrt(10) = 3.16..: a gap of 1.16.., closed by one visit at
    // strength 1.5.
    let layout = vec![
        vec![0, 0, 0, 0, 0],
        vec![0, 1, 0, 1, 0],
        vec![0, 1, 1, 1, 0],
        vec![0, 0, 0, 0, 0],
    ];
    let mut app = walker(layout, (2, 3), (2, 0), 3, 2);
    assert_eq!(walk(&mut app, 3), "DUR");
    assert_eq!(app.remembered(2, 1), Cost::Reachable { dist_sq: 4, visits: 1 });
    assert_eq!(app.remembered(2, 0), Cost::Reachable { dist_sq: 9, visits: 2 });
    assert_eq!(walk(&mut app, 7), "RDDDLLA");
    assert_eq!(app.position(), (2, 3));
}

#[test]
fn a_weaker_memory_needs_more_visits_to_leave_the_pocket() {
    // At strength 0.5 the gap of 1.16.. takes three visits to close.
    let layout = vec![
        vec![0, 0, 0, 0, 0],
        vec![0, 1, 0, 1, 0],
        vec![0, 1, 1, 1, 0],
        vec![0, 0, 0, 0, 0],
    ];
    let mut app = walker(layout, (2, 3), (2, 0), 1, 2);
    assert_eq!(walk(&mut app, 7), "DUDUDUR");
    assert_eq!(app.remembered(2, 1), Cost::Reachable { dist_sq: 4, visits: 3 });
    assert_eq!(app.remembered(2, 0), Cost::Reachable { dist_sq: 9, visits: 4 });
    assert_eq!(walk(&mut app, 7), "RDDDLLA");
}

#[test]
fn without_memory_the_agent_stays_in_the_pocket() {
    let layout = vec![
        vec![0, 0, 0, 0, 0],
        vec![0, 1, 0, 1, 0],
        vec![0, 1, 1, 1, 0],
        vec![0, 0, 0, 0, 0],
    ];
    let mut app = walker(layout, (2, 3), (2, 0), 0, 1);
    assert_eq!(walk(&mut app, 10), "DUDUDUDUDU");
    assert_eq!(app.remembered(2, 1), Cost::Reachable { dist_sq: 4, visits: 5 });
}
