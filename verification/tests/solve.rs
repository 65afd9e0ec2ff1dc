use maze_solver::algorithms::{
    backtracking_breadth_first, breadth_first, check_visit_later, depth_first, simple_always_left,
    wall_follower,
};
use maze_solver::algorithms::moves::Direction;
use maze_solver::constants::{PATH, WALL};
use maze_solver::data_structures::Stack;
use maze_solver::error::SolveError;
use maze_solver::maze_to_adjacency_list;

const W: u8 = WALL;
const P: u8 = PATH;

fn corridor() -> Vec<Vec<u8>> {
    vec![vec![W, W, W], vec![P, P, P], vec![W, W, W]]
}

fn side_room() -> Vec<Vec<u8>> {
    vec![vec![W, P, W, W], vec![P, P, W, W], vec![W, P, P, P]]
}

fn ring() -> Vec<Vec<u8>> {
    vec![
        vec![W, P, W, W, W],
        vec![W, P, P, P, W],
        vec![W, P, W, P, W],
        vec![W, P, P, P, W],
        vec![W, W, W, P, W],
    ]
}

fn island() -> Vec<Vec<u8>> {
    vec![vec![W, W, W, W, W], vec![P, P, W, P, P], vec![W, W, W, W, W]]
}

fn bends() -> Vec<Vec<u8>> {
    vec![vec![W, P, W, W], vec![W, P, P, W], vec![W, W, P, W], vec![W, W, P, W]]
}

#[test]
fn straight_corridor_is_walked_by_every_algorithm() {
    let maze = corridor();
    let adj = maze_to_adjacency_list(&maze);
    let expected = vec![(1, 0), (1, 1), (1, 2)];
    assert_eq!(simple_always_left(&maze), Ok(expected.clone()));
    assert_eq!(wall_follower(&maze), Ok(expected.clone()));
    assert_eq!(depth_first(&maze, &adj), Ok(expected.clone()));
    assert_eq!(breadth_first(&maze, &adj), Ok(expected.clone()));
    assert_eq!(backtracking_breadth_first(&maze, &adj), Ok(expected));
}

#[test]
fn single_route_gives_the_same_sequence_everywhere() {
    let maze = bends();
    let adj = maze_to_adjacency_list(&maze);
    let expected = vec![(0, 1), (1, 1), (1, 2), (2, 2), (3, 2)];
    assert_eq!(wall_follower(&maze), Ok(expected.clone()));
    assert_eq!(depth_first(&maze, &adj), Ok(expected.clone()));
    assert_eq!(breadth_first(&maze, &adj), Ok(expected.clone()));
    assert_eq!(simple_always_left(&maze), Ok(expected.clone()));
    assert_eq!(backtracking_breadth_first(&maze, &adj), Ok(expected));
}

#[test]
fn always_left_stops_at_a_dead_end() {
    assert_eq!(simple_always_left(&side_room()), Ok(vec![(0, 1), (1, 1), (1, 0)]));
}

#[test]
fn wall_follower_resumes_from_the_cell_it_kept() {
    assert_eq!(wall_follower(&side_room()), Ok(vec![(0, 1), (1, 1), (1, 0), (2, 1)]));
}

#[test]
fn wall_follower_appends_the_end_once() {
    assert_eq!(wall_follower(&vec![vec![P]]), Ok(vec![(0, 0)]));
    let path = wall_follower(&ring()).unwrap();
    assert_eq!(path.iter().filter(|&&p| p == (4, 3)).count(), 1);
    assert_eq!(path.last(), Some(&(4, 3)));
}

#[test]
fn wall_follower_on_a_ring() {
    assert_eq!(
        wall_follower(&ring()),
        Ok(vec![(0, 1), (1, 1), (2, 1), (3, 1), (3, 2), (3, 3), (4, 3)])
    );
}

#[test]
fn always_left_on_a_single_cell() {
    assert_eq!(simple_always_left(&vec![vec![P]]), Ok(vec![(0, 0)]));
}

#[test]
fn check_visit_later_keeps_the_other_free_directions() {
    let maze = vec![vec![W, P, W], vec![P, P, P], vec![W, P, W]];
    let mut visited = vec![vec![false; 3]; 3];
    let mut later: Stack<(usize, usize)> = Stack::new();
    check_visit_later(&maze, &visited, (1, 1), &mut later, Direction::Left);
    assert_eq!(later.pop(), Some((0, 1)));
    assert_eq!(later.pop(), Some((1, 2)));
    assert_eq!(later.pop(), Some((2, 1)));
    assert_eq!(later.pop(), None);
    visited[2][1] = true;
    check_visit_later(&maze, &visited, (1, 1), &mut later, Direction::Up);
    assert_eq!(later.pop(), Some((1, 2)));
    assert_eq!(later.pop(), Some((1, 0)));
    assert_eq!(later.pop(), None);
}

#[test]
fn depth_first_records_in_discovery_order() {
    let maze = side_room();
    let adj = maze_to_adjacency_list(&maze);
    assert_eq!(depth_first(&maze, &adj), Ok(vec![(0, 1), (1, 1), (2, 1)]));
    let maze = ring();
    let adj = maze_to_adjacency_list(&maze);
    assert_eq!(
        depth_first(&maze, &adj),
        Ok(vec![(0, 1), (1, 1), (2, 1), (3, 1), (3, 2), (3, 3), (4, 3)])
    );
}

#[test]
fn breadth_first_records_in_level_order() {
    let maze = side_room();
    let adj = maze_to_adjacency_list(&maze);
    assert_eq!(breadth_first(&maze, &adj), Ok(vec![(0, 1), (1, 1), (2, 1)]));
    let maze = ring();
    let adj = maze_to_adjacency_list(&maze);
    assert_eq!(
        breadth_first(&maze, &adj),
        Ok(vec![
            (0, 1),
            (1, 1),
            (2, 1),
            (1, 2),
            (3, 1),
            (1, 3),
            (3, 2),
            (2, 3),
            (3, 3),
            (4, 3)
        ])
    );
}

#[test]
fn backtracking_gives_a_shortest_route_from_start_to_end() {
    let maze = ring();
    let adj = maze_to_adjacency_list(&maze);
    let route = backtracking_breadth_first(&maze, &adj).unwrap();
    assert_eq!(route, vec![(0, 1), (1, 1), (2, 1), (3, 1), (3, 2), (3, 3), (4, 3)]);
    let order = breadth_first(&maze, &adj).unwrap();
    assert!(route.len() <= order.len());
    // Six hops separate the start from the end.
    assert_eq!(route.len() - 1, 6);
    for pair in route.windows(2) {
        assert!(adj.get(pair[0]).unwrap().contains(&pair[1]));
    }
}

#[test]
fn backtracking_prefers_the_short_side_of_a_loop() {
    let maze = vec![
        vec![W, P, W, W, W],
        vec![W, P, P, P, W],
        vec![W, P, W, P, W],
        vec![W, P, W, P, W],
        vec![W, P, W, P, W],
        vec![W, P, P, P, W],
        vec![W, P, W, W, W],
    ];
    let adj = maze_to_adjacency_list(&maze);
    assert_eq!(
        backtracking_breadth_first(&maze, &adj),
        Ok(vec![(0, 1), (1, 1), (2, 1), (3, 1), (4, 1), (5, 1), (6, 1)])
    );
}

#[test]
fn unreachable_end_ends_the_searches_without_it() {
    let maze = island();
    let adj = maze_to_adjacency_list(&maze);
    let end = (1, 4);
    let depth = depth_first(&maze, &adj).unwrap();
    let breadth = breadth_first(&maze, &adj).unwrap();
    assert_eq!(depth, vec![(1, 0), (1, 1)]);
    assert_eq!(breadth, vec![(1, 0), (1, 1)]);
    assert!(!depth.contains(&end));
    assert!(!breadth.contains(&end));
    let shortest = backtracking_breadth_first(&maze, &adj);
    assert_eq!(shortest, Err(SolveError::MissingParent));
    assert!(!SolveError::MissingParent.is_configuration());
}

#[test]
fn unreachable_end_for_the_walkers() {
    let maze = island();
    assert_eq!(simple_always_left(&maze), Ok(vec![(1, 0), (1, 1)]));
    assert_eq!(wall_follower(&maze), Ok(vec![(1, 0), (1, 1), (1, 4)]));
}

#[test]
fn missing_start_is_reported_by_every_algorithm() {
    let maze = vec![vec![W, W, W], vec![W, P, P], vec![W, P, W]];
    let adj = maze_to_adjacency_list(&maze);
    assert_eq!(simple_always_left(&maze), Err(SolveError::StartNotFound));
    assert_eq!(wall_follower(&maze), Err(SolveError::StartNotFound));
    assert_eq!(depth_first(&maze, &adj), Err(SolveError::StartNotFound));
    assert_eq!(breadth_first(&maze, &adj), Err(SolveError::StartNotFound));
    assert_eq!(backtracking_breadth_first(&maze, &adj), Err(SolveError::StartNotFound));
}

#[test]
fn missing_end_is_reported_by_every_algorithm() {
    let maze = vec![vec![P, P, W], vec![P, P, W], vec![W, W, W]];
    let adj = maze_to_adjacency_list(&maze);
    assert_eq!(simple_always_left(&maze), Err(SolveError::EndNotFound));
    assert_eq!(wall_follower(&maze), Err(SolveError::EndNotFound));
    assert_eq!(depth_first(&maze, &adj), Err(SolveError::EndNotFound));
    assert_eq!(breadth_first(&maze, &adj), Err(SolveError::EndNotFound));
    assert_eq!(backtracking_breadth_first(&maze, &adj), Err(SolveError::EndNotFound));
}

#[test]
fn malformed_grid_is_reported_by_every_algorithm() {
    let ragged = vec![vec![P, P], vec![P]];
    let adj = maze_to_adjacency_list(&vec![vec![P, P], vec![P, P]]);
    assert_eq!(simple_always_left(&ragged), Err(SolveError::MalformedGrid));
    assert_eq!(wall_follower(&ragged), Err(SolveError::MalformedGrid));
    assert_eq!(depth_first(&ragged, &adj), Err(SolveError::MalformedGrid));
    assert_eq!(breadth_first(&ragged, &adj), Err(SolveError::MalformedGrid));
    assert_eq!(backtracking_breadth_first(&ragged, &adj), Err(SolveError::MalformedGrid));
    let empty: Vec<Vec<u8>> = vec![];
    assert_eq!(simple_always_left(&empty), Err(SolveError::MalformedGrid));
    assert_eq!(wall_follower(&empty), Err(SolveError::MalformedGrid));
}

#[test]
fn a_single_cell_is_its_own_route() {
    // The start is the end: every algorithm records the one cell.
    let maze = vec![vec![P]];
    let adj = maze_to_adjacency_list(&maze);
    assert_eq!(depth_first(&maze, &adj), Ok(vec![(0, 0)]));
    assert_eq!(breadth_first(&maze, &adj), Ok(vec![(0, 0)]));
    assert_eq!(backtracking_breadth_first(&maze, &adj), Ok(vec![(0, 0)]));
    assert_eq!(simple_always_left(&maze), Ok(vec![(0, 0)]));
    assert_eq!(wall_follower(&maze), Ok(vec![(0, 0)]));
}

#[test]
fn the_end_is_recorded_without_a_lookup() {
    // The start is the end, and the graph of another grid has no entry for it.
    let maze = vec![vec![P]];
    let adj = maze_to_adjacency_list(&vec![vec![W]]);
    assert_eq!(depth_first(&maze, &adj), Ok(vec![(0, 0)]));
    assert_eq!(breadth_first(&maze, &adj), Ok(vec![(0, 0)]));
    assert_eq!(backtracking_breadth_first(&maze, &adj), Ok(vec![(0, 0)]));
}

#[test]
fn an_isolated_start_ends_the_searches_at_once() {
    let maze = vec![vec![P, W], vec![W, P]];
    let adj = maze_to_adjacency_list(&maze);
    assert_eq!(depth_first(&maze, &adj), Ok(vec![(0, 0)]));
    assert_eq!(breadth_first(&maze, &adj), Ok(vec![(0, 0)]));
    assert_eq!(backtracking_breadth_first(&maze, &adj), Err(SolveError::MissingParent));
}

#[test]
fn a_cell_without_entry_breaks_the_searches() {
    // The graph of a grid of walls has no entry for the start.
    let maze = vec![vec![P, W], vec![P, P]];
    let adj = maze_to_adjacency_list(&vec![vec![W, W], vec![W, W]]);
    assert_eq!(depth_first(&maze, &adj), Err(SolveError::BrokenAdjacency));
    assert_eq!(breadth_first(&maze, &adj), Err(SolveError::BrokenAdjacency));
    assert_eq!(backtracking_breadth_first(&maze, &adj), Err(SolveError::BrokenAdjacency));
    assert!(!SolveError::BrokenAdjacency.is_configuration());
}

#[test]
fn a_neighbour_outside_the_grid_breaks_the_searches() {
    let maze = vec![vec![P, W], vec![W, P]];
    let wider = vec![vec![P, P, P], vec![W, W, W]];
    let adj = maze_to_adjacency_list(&wider);
    assert_eq!(depth_first(&maze, &adj), Err(SolveError::BrokenAdjacency));
    assert_eq!(breadth_first(&maze, &adj), Err(SolveError::BrokenAdjacency));
    assert_eq!(backtracking_breadth_first(&maze, &adj), Err(SolveError::BrokenAdjacency));
}

#[test]
fn no_algorithm_records_a_wall() {
    for maze in [corridor(), side_room(), ring(), island(), bends()] {
        let adj = maze_to_adjacency_list(&maze);
        let mut paths = vec![
            simple_always_left(&maze).unwrap(),
            wall_follower(&maze).unwrap(),
            depth_first(&maze, &adj).unwrap(),
            breadth_first(&maze, &adj).unwrap(),
        ];
        if let Ok(route) = backtracking_breadth_first(&maze, &adj) {
            paths.push(route);
        }
        for path in paths {
            assert!(!path.is_empty());
            for (r, c) in path {
                assert_ne!(maze[r][c], W);
            }
        }
    }
}
