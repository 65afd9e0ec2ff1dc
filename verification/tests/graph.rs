use maze_solver::constants::{PATH, WALL};
use maze_solver::graph::{add_node, AdjacencyList};
use maze_solver::maze_to_adjacency_list;

const W: u8 = WALL;
const P: u8 = PATH;

#[test]
fn neighbours_come_in_the_order_down_right_up_left() {
    let maze = vec![vec![W, P, W], vec![P, P, P], vec![W, P, W]];
    let adj = maze_to_adjacency_list(&maze);
    assert_eq!(adj.get((1, 1)), Some(&vec![(2, 1), (1, 2), (0, 1), (1, 0)]));
    assert_eq!(adj.get((0, 1)), Some(&vec![(1, 1)]));
    assert_eq!(adj.get((1, 0)), Some(&vec![(1, 1)]));
    assert_eq!(adj.get((1, 2)), Some(&vec![(1, 1)]));
    assert_eq!(adj.get((2, 1)), Some(&vec![(1, 1)]));
}

#[test]
fn walls_are_neither_keys_nor_neighbours() {
    let maze = vec![vec![W, P, W], vec![P, P, P], vec![W, P, W]];
    let adj = maze_to_adjacency_list(&maze);
    for &(r, c) in &[(0usize, 0usize), (0, 2), (2, 0), (2, 2)] {
        assert!(!adj.contains_key((r, c)));
        assert_eq!(adj.get((r, c)), None);
    }
    for r in 0..3 {
        for c in 0..3 {
            if let Some(list) = adj.get((r, c)) {
                for &(nr, nc) in list.iter() {
                    assert_eq!(maze[nr][nc], P);
                }
            }
        }
    }
}

#[test]
fn a_cell_without_path_neighbours_has_an_empty_entry() {
    let maze = vec![vec![P, W, P], vec![W, W, P]];
    let adj = maze_to_adjacency_list(&maze);
    assert!(adj.contains_key((0, 0)));
    assert_eq!(adj.get((0, 0)), Some(&Vec::new()));
    assert_eq!(adj.get((0, 2)), Some(&vec![(1, 2)]));
    assert_eq!(adj.get((1, 2)), Some(&vec![(0, 2)]));
    let single = vec![vec![P]];
    let adj = maze_to_adjacency_list(&single);
    assert!(adj.contains_key((0, 0)));
    assert_eq!(adj.get((0, 0)), Some(&Vec::new()));
    let mut keys = 0;
    for r in 0..2 {
        for c in 0..2 {
            if adj.contains_key((r, c)) {
                keys += 1;
            }
        }
    }
    assert_eq!(keys, 1);
}

#[test]
fn every_open_cell_is_a_key() {
    let maze = vec![vec![W, P, W], vec![P, W, P], vec![7, W, W]];
    let adj = maze_to_adjacency_list(&maze);
    for r in 0..3 {
        for c in 0..3 {
            assert_eq!(adj.contains_key((r, c)), maze[r][c] != W);
        }
    }
    assert_eq!(adj.get((0, 1)), Some(&Vec::new()));
    assert_eq!(adj.get((2, 0)), Some(&vec![(1, 0)]));
    assert_eq!(adj.get((1, 0)), Some(&Vec::new()));
}

#[test]
fn keys_outside_the_grid_have_no_entry() {
    let maze = vec![vec![P, P], vec![P, P]];
    let adj = maze_to_adjacency_list(&maze);
    assert_eq!(adj.get((2, 0)), None);
    assert_eq!(adj.get((0, 2)), None);
    assert!(!adj.contains_key((usize::MAX, usize::MAX)));
    assert_eq!(adj.get((0, 0)), Some(&vec![(1, 0), (0, 1)]));
    assert_eq!(adj.get((1, 1)), Some(&vec![(0, 1), (1, 0)]));
}

#[test]
fn adjacency_is_symmetric() {
    let maze = vec![
        vec![W, P, W, W, W],
        vec![W, P, P, P, W],
        vec![W, P, W, P, W],
        vec![W, P, P, P, W],
        vec![W, W, W, P, W],
    ];
    let adj = maze_to_adjacency_list(&maze);
    let mut links = 0;
    for r in 0..5 {
        for c in 0..5 {
            if let Some(list) = adj.get((r, c)) {
                for &n in list.iter() {
                    links += 1;
                    let back = adj.get(n).expect("a neighbour is a key");
                    assert!(back.contains(&(r, c)));
                }
            }
        }
    }
    assert_eq!(links, 20);
}

#[test]
fn a_cell_that_is_neither_wall_nor_path_is_a_key_but_no_neighbour() {
    let maze = vec![vec![7, P], vec![W, P]];
    let adj = maze_to_adjacency_list(&maze);
    assert_eq!(adj.get((0, 0)), Some(&vec![(0, 1)]));
    assert_eq!(adj.get((0, 1)), Some(&vec![(1, 1)]));
    assert_eq!(adj.get((1, 1)), Some(&vec![(0, 1)]));
}

#[test]
fn add_node_begins_and_extends_lists() {
    let mut adj = AdjacencyList::new(2, 3);
    assert!(!adj.contains_key((1, 2)));
    add_node(&mut adj, (1, 2), (0, 2));
    assert_eq!(adj.get((1, 2)), Some(&vec![(0, 2)]));
    add_node(&mut adj, (1, 2), (1, 1));
    add_node(&mut adj, (0, 0), (0, 1));
    assert_eq!(adj.get((1, 2)), Some(&vec![(0, 2), (1, 1)]));
    assert_eq!(adj.get((0, 0)), Some(&vec![(0, 1)]));
    assert_eq!(adj.get((0, 1)), None);
}

#[test]
fn a_key_without_room_is_not_added() {
    let mut adj = AdjacencyList::new(2, 3);
    add_node(&mut adj, (2, 0), (1, 0));
    add_node(&mut adj, (0, 3), (0, 2));
    adj.insert((5, 5), vec![(0, 0)]);
    assert_eq!(adj.get((2, 0)), None);
    assert_eq!(adj.get((0, 3)), None);
    assert_eq!(adj.get((5, 5)), None);
    for r in 0..2 {
        for c in 0..3 {
            assert!(!adj.contains_key((r, c)));
        }
    }
}

#[test]
fn insert_sets_and_replaces_a_list() {
    let mut adj = AdjacencyList::new(1, 2);
    adj.insert((0, 1), Vec::new());
    assert_eq!(adj.get((0, 1)), Some(&Vec::new()));
    adj.insert((0, 1), vec![(0, 0)]);
    assert_eq!(adj.get((0, 1)), Some(&vec![(0, 0)]));
    add_node(&mut adj, (0, 1), (0, 0));
    assert_eq!(adj.get((0, 1)), Some(&vec![(0, 0), (0, 0)]));
    assert_eq!(adj.get((0, 0)), None);
}
