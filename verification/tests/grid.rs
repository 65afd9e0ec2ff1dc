use maze_solver::algorithms::{path_down, path_left, path_right, path_up};
use maze_solver::constants::{PATH, WALL};
use maze_solver::error::SolveError;
use maze_solver::grid::{check_grid, get_end, get_start};

const W: u8 = WALL;
const P: u8 = PATH;

#[test]
fn start_is_first_open_cell_of_top_row() {
    let maze = vec![vec![W, W, P, P], vec![P, P, P, W], vec![W, W, P, W]];
    assert_eq!(get_start(&maze), Ok((0, 2)));
}

#[test]
fn start_falls_back_to_left_column() {
    let maze = vec![vec![W, W, W], vec![W, P, W], vec![P, P, W], vec![P, W, P]];
    assert_eq!(get_start(&maze), Ok((2, 0)));
}

#[test]
fn start_counts_any_cell_that_is_not_a_wall() {
    let maze = vec![vec![W, 7, P], vec![W, P, P]];
    assert_eq!(get_start(&maze), Ok((0, 1)));
}

#[test]
fn start_missing_is_a_configuration_error() {
    let maze = vec![vec![W, W, W], vec![W, P, P], vec![W, P, W]];
    assert_eq!(get_start(&maze), Err(SolveError::StartNotFound));
    assert!(SolveError::StartNotFound.is_configuration());
}

#[test]
fn end_is_first_path_cell_of_bottom_row() {
    let maze = vec![vec![W, P, W, W], vec![W, P, P, P], vec![W, W, P, P]];
    assert_eq!(get_end(&maze), Ok((2, 2)));
}

#[test]
fn end_falls_back_to_right_column() {
    let maze = vec![vec![W, P, W], vec![W, P, W], vec![W, P, P], vec![W, W, W]];
    assert_eq!(get_end(&maze), Ok((2, 2)));
}

#[test]
fn end_must_be_a_path_cell() {
    let maze = vec![vec![P, W], vec![7, W]];
    assert_eq!(get_end(&maze), Err(SolveError::EndNotFound));
    let maze = vec![vec![P, W], vec![7, P]];
    assert_eq!(get_end(&maze), Ok((1, 1)));
}

#[test]
fn end_missing_is_a_configuration_error() {
    let maze = vec![vec![P, P, W], vec![P, P, W], vec![W, W, W]];
    assert_eq!(get_end(&maze), Err(SolveError::EndNotFound));
    assert!(SolveError::EndNotFound.is_configuration());
}

#[test]
fn detection_gives_the_same_cell_every_time() {
    let maze = vec![vec![W, P, P], vec![P, P, W], vec![W, P, P]];
    let first_start = get_start(&maze);
    let first_end = get_end(&maze);
    for _ in 0..5 {
        assert_eq!(get_start(&maze), first_start);
        assert_eq!(get_end(&maze), first_end);
    }
    assert_eq!(first_start, Ok((0, 1)));
    assert_eq!(first_end, Ok((2, 1)));
}

#[test]
fn malformed_grids_are_rejected() {
    let empty: Vec<Vec<u8>> = vec![];
    assert!(!check_grid(&empty));
    assert_eq!(get_start(&empty), Err(SolveError::MalformedGrid));
    assert_eq!(get_end(&empty), Err(SolveError::MalformedGrid));

    let empty_row: Vec<Vec<u8>> = vec![vec![]];
    assert!(!check_grid(&empty_row));
    assert_eq!(get_start(&empty_row), Err(SolveError::MalformedGrid));

    let ragged = vec![vec![P, P], vec![P]];
    assert!(!check_grid(&ragged));
    assert_eq!(get_start(&ragged), Err(SolveError::MalformedGrid));
    assert_eq!(get_end(&ragged), Err(SolveError::MalformedGrid));
    assert!(SolveError::MalformedGrid.is_configuration());

    assert!(check_grid(&vec![vec![W]]));
    assert!(check_grid(&vec![vec![P, W], vec![W, P]]));
}

#[test]
fn single_cell_grid_is_its_own_start_and_end() {
    let maze = vec![vec![P]];
    assert_eq!(get_start(&maze), Ok((0, 0)));
    assert_eq!(get_end(&maze), Ok((0, 0)));
}

#[test]
fn internal_errors_are_not_configuration_errors() {
    assert!(!SolveError::BrokenAdjacency.is_configuration());
    assert!(!SolveError::MissingParent.is_configuration());
}

#[test]
fn move_predicates_check_bounds_state_and_mask() {
    let maze = vec![vec![W, P, W], vec![P, P, P], vec![W, P, W]];
    let mut visited = vec![vec![false; 3]; 3];
    // From the centre every direction is free.
    assert!(path_up(&maze, 1, 1, &visited));
    assert!(path_right(&maze, 1, 1, &visited));
    assert!(path_left(&maze, 1, 1, &visited));
    assert!(path_down(&maze, 1, 1, &visited));
    // A visited neighbour is not free.
    visited[0][1] = true;
    visited[1][2] = true;
    assert!(!path_up(&maze, 1, 1, &visited));
    assert!(!path_right(&maze, 1, 1, &visited));
    assert!(path_left(&maze, 1, 1, &visited));
    assert!(path_down(&maze, 1, 1, &visited));
    // A wall is not free.
    let visited = vec![vec![false; 3]; 3];
    assert!(!path_left(&maze, 0, 1, &visited));
    assert!(!path_right(&maze, 0, 1, &visited));
    assert!(!path_down(&maze, 1, 0, &visited));
    assert!(!path_up(&maze, 1, 2, &visited));
    // The edge of the grid is not free.
    assert!(!path_up(&maze, 0, 1, &visited));
    assert!(!path_left(&maze, 1, 0, &visited));
    assert!(!path_right(&maze, 1, 2, &visited));
    assert!(!path_down(&maze, 2, 1, &visited));
}
