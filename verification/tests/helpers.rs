use maze_solver::algorithms::moves::{pick_move, step, Direction};
use maze_solver::constants::{PATH, WALL};
use maze_solver::mask::{marked_at, new_mask, set_mark};
use maze_solver::picture::holds;

const W: u8 = WALL;
const P: u8 = PATH;

#[test]
fn directions_are_tried_left_down_right_up() {
    let maze = vec![vec![W, P, W], vec![P, P, P], vec![W, P, W]];
    let mut visited = new_mask(&maze);
    assert_eq!(pick_move(&maze, &visited, (1, 1)), Some(Direction::Left));
    set_mark(&mut visited, (1, 0));
    assert_eq!(pick_move(&maze, &visited, (1, 1)), Some(Direction::Down));
    set_mark(&mut visited, (2, 1));
    assert_eq!(pick_move(&maze, &visited, (1, 1)), Some(Direction::Right));
    set_mark(&mut visited, (1, 2));
    assert_eq!(pick_move(&maze, &visited, (1, 1)), Some(Direction::Up));
    set_mark(&mut visited, (0, 1));
    assert_eq!(pick_move(&maze, &visited, (1, 1)), None);
}

#[test]
fn a_corner_has_no_way_out_through_the_walls() {
    let maze = vec![vec![P, W], vec![W, P]];
    let visited = new_mask(&maze);
    assert_eq!(pick_move(&maze, &visited, (0, 0)), None);
    assert_eq!(pick_move(&maze, &visited, (1, 1)), None);
}

#[test]
fn step_moves_by_one_cell() {
    assert_eq!(step((4, 7), Direction::Left), (4, 6));
    assert_eq!(step((4, 7), Direction::Down), (5, 7));
    assert_eq!(step((4, 7), Direction::Right), (4, 8));
    assert_eq!(step((4, 7), Direction::Up), (3, 7));
}

#[test]
fn a_new_mask_has_the_shape_of_the_maze_and_no_mark() {
    let maze = vec![vec![W, P, W], vec![P, P, P]];
    let visited = new_mask(&maze);
    assert_eq!(visited, vec![vec![false; 3]; 2]);
    assert_eq!(new_mask(&Vec::<Vec<u8>>::new()), Vec::<Vec<bool>>::new());
}

#[test]
fn marks_are_set_and_read_by_position() {
    let maze = vec![vec![W, P, W], vec![P, P, P]];
    let mut visited = new_mask(&maze);
    assert_eq!(marked_at(&visited, (1, 2)), Some(false));
    set_mark(&mut visited, (1, 2));
    assert_eq!(marked_at(&visited, (1, 2)), Some(true));
    assert_eq!(marked_at(&visited, (0, 2)), Some(false));
    assert_eq!(visited, vec![vec![false, false, false], vec![false, false, true]]);
    set_mark(&mut visited, (1, 2));
    assert_eq!(visited, vec![vec![false, false, false], vec![false, false, true]]);
    assert_eq!(marked_at(&visited, (2, 0)), None);
    assert_eq!(marked_at(&visited, (0, 3)), None);
}

#[test]
fn holds_finds_a_cell_of_the_solution() {
    let solution = vec![(0, 1), (1, 1), (1, 2)];
    assert!(holds(&solution, (1, 1)));
    assert!(holds(&solution, (1, 2)));
    assert!(!holds(&solution, (2, 1)));
    assert!(!holds(&vec![], (0, 0)));
}
