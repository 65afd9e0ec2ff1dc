//! Breadth-first search over the adjacency structure of a grid, and its
//! variant that keeps for each discovered cell the route by which it was
//! reached.

use crate::data_structures::Queue;
use crate::error::SolveError;
use crate::graph::{adjacency, lemma_neighbours_are_paths, AdjacencyList};
use crate::grid::{
    all_open, end_of, get_end, get_start, in_grid, is_end, is_grid, is_open, is_path, is_start,
    setup_error, start_of, Coord,
};
use crate::mask::{
    blank_mask, in_mask, is_marked, lemma_blank_mask, lemma_mark, mark, marked_at, mask_fits,
    new_mask, set_mark, unmarked,
};
use vstd::prelude::*;

verus! {

/// The state of a breadth-first scan.
pub struct Scan {
    /// The discovered cells that wait to be expanded, the next one first.
    pub queue: Seq<Coord>,
    /// The discovered cells.
    pub marked: Seq<Seq<bool>>,
    /// The cells taken off the queue so far, in order.
    pub out: Seq<Coord>,
    /// For each discovered cell, the cells from the start to it along
    /// which it was discovered.
    pub route: Map<Coord, Seq<Coord>>,
}

/// The state before the first step: the start alone is discovered and
/// waits.
pub open spec fn initial_scan(g: Seq<Seq<u8>>) -> Scan {
    Scan {
        queue: seq![start_of(g)],
        marked: mark(blank_mask(g), start_of(g)),
        out: Seq::empty(),
        route: Map::<Coord, Seq<Coord>>::empty().insert(start_of(g), seq![start_of(g)]),
    }
}

/// Looks at `node`, a neighbour of `from`: if it is not discovered yet, it
/// is marked, queued and given its route. `None` says that `node` lies
/// outside the mask.
pub open spec fn discover(s: Scan, from: Coord, node: Coord) -> Option<Scan> {
    if !in_mask(s.marked, node) {
        None
    } else if s.marked[node.0 as int][node.1 as int] {
        Some(s)
    } else {
        Some(
            Scan {
                queue: s.queue.push(node),
                marked: mark(s.marked, node),
                out: s.out,
                route: s.route.insert(node, s.route[from].push(node)),
            },
        )
    }
}

/// Looks at each of `nodes`, the neighbours of `from`, in order.
pub open spec fn discover_all(s: Scan, from: Coord, nodes: Seq<Coord>) -> Option<Scan>
    decreases nodes.len(),
{
    if nodes.len() == 0 {
        Some(s)
    } else {
        match discover_all(s, from, nodes.drop_last()) {
            Some(t) => discover(t, from, nodes.last()),
            None => None,
        }
    }
}

/// The state in which `s` takes the first cell off its queue and records
/// it.
pub open spec fn dequeued(s: Scan) -> Scan {
    Scan {
        queue: s.queue.drop_first(),
        marked: s.marked,
        out: s.out.push(s.queue[0]),
        route: s.route,
    }
}

/// Discovering keeps the sum of the unmarked cells and the waiting cells.
pub proof fn lemma_discover_all_measure(s: Scan, from: Coord, nodes: Seq<Coord>)
    ensures
        discover_all(s, from, nodes) matches Some(t) ==> unmarked(t.marked) + t.queue.len()
            == unmarked(s.marked) + s.queue.len(),
    decreases nodes.len(),
{
    if nodes.len() > 0 {
        lemma_discover_all_measure(s, from, nodes.drop_last());
        match discover_all(s, from, nodes.drop_last()) {
            Some(t) => {
                lemma_mark(t.marked, nodes.last());
            },
            None => {},
        }
    }
}

/// A neighbour outside the mask among the first `k` of `nodes` makes the
/// whole of `nodes` fail.
pub proof fn lemma_discover_all_fails(s: Scan, from: Coord, nodes: Seq<Coord>, k: int)
    requires
        0 <= k <= nodes.len(),
        discover_all(s, from, nodes.take(k)) is None,
    ensures
        discover_all(s, from, nodes) is None,
    decreases nodes.len() - k,
{
    if k < nodes.len() {
        assert(nodes.take(k + 1).drop_last() =~= nodes.take(k));
        lemma_discover_all_fails(s, from, nodes, k + 1);
    } else {
        assert(nodes.take(k) =~= nodes);
    }
}

/// The state in which a scan from `s` ends: with the end taken off the
/// queue and recorded, or with an empty queue. The end is recorded
/// without being looked up. `None` says that the scan met another cell
/// without an entry in `adj`, or a neighbour outside the mask.
pub open spec fn scan_from(adj: Map<Coord, Seq<Coord>>, end: Coord, s: Scan) -> Option<Scan>
    decreases unmarked(s.marked) + s.queue.len(),
{
    if s.queue.len() == 0 {
        Some(s)
    } else {
        let square = s.queue[0];
        if square == end {
            Some(dequeued(s))
        } else if !adj.contains_key(square) {
            None
        } else {
            match discover_all(dequeued(s), square, adj[square]) {
                Some(t) => {
                    proof {
                        lemma_discover_all_measure(dequeued(s), square, adj[square]);
                    }
                    scan_from(adj, end, t)
                },
                None => None,
            }
        }
    }
}

/// The state in which the breadth-first scan of `g` over `adj` ends.
pub open spec fn breadth_scan(g: Seq<Seq<u8>>, adj: Map<Coord, Seq<Coord>>) -> Option<Scan> {
    scan_from(adj, end_of(g), initial_scan(g))
}

/// What a breadth-first search on `g` over `adj` comes to: the cells in
/// the order in which they left the queue, up to and with the end.
pub open spec fn breadth_first_outcome(g: Seq<Seq<u8>>, adj: Map<Coord, Seq<Coord>>) -> Result<
    Seq<Coord>,
    SolveError,
> {
    match setup_error(g) {
        Some(e) => Err(e),
        None => match breadth_scan(g, adj) {
            Some(s) => Ok(s.out),
            None => Err(SolveError::BrokenAdjacency),
        },
    }
}

/// What the shortest-path search on `g` over `adj` comes to: the route by
/// which the scan discovered the end, from the start to the end.
pub open spec fn shortest_route_outcome(g: Seq<Seq<u8>>, adj: Map<Coord, Seq<Coord>>) -> Result<
    Seq<Coord>,
    SolveError,
> {
    match setup_error(g) {
        Some(e) => Err(e),
        None => match breadth_scan(g, adj) {
            Some(s) => if s.route.contains_key(end_of(g)) {
                Ok(s.route[end_of(g)])
            } else {
                Err(SolveError::MissingParent)
            },
            None => Err(SolveError::BrokenAdjacency),
        },
    }
}

/// The table that keeps, for each discovered cell but the start, the cell
/// it was discovered from.
fn new_parents(maze: &[Vec<u8>]) -> (parents: Vec<Vec<Coord>>)
    ensures
        parents@.len() == maze@.len(),
        forall|r: int|
            0 <= r < parents@.len() ==> (#[trigger] parents@[r])@.len() == maze@[r]@.len(),
{
    let mut parents: Vec<Vec<Coord>> = Vec::new();
    let mut r: usize = 0;
    while r < maze.len()
        invariant
            r <= maze@.len(),
            parents@.len() == r,
            forall|k: int| 0 <= k < r ==> (#[trigger] parents@[k])@.len() == maze@[k]@.len(),
        decreases maze@.len() - r,
    {
        let mut row: Vec<Coord> = Vec::new();
        let mut c: usize = 0;
        while c < maze[r].len()
            invariant
                r < maze@.len(),
                c <= maze@[r as int]@.len(),
                row@.len() == c,
            decreases maze@[r as int]@.len() - c,
        {
            row.push((0, 0));
            c += 1;
        }
        parents.push(row);
        r += 1;
    }
    parents
}

/// The entry of the table for `p`.
spec fn parent_at(parents: Seq<Vec<Coord>>, p: Coord) -> Coord {
    parents[p.0 as int]@[p.1 as int]
}

/// Whether the table holds, for each discovered cell but `start`, a
/// discovered cell whose route, with the cell appended, is the route of
/// the cell.
spec fn parents_kept(parents: Seq<Vec<Coord>>, s: Scan, start: Coord) -> bool {
    &&& parents.len() == s.marked.len()
    &&& forall|r: int|
        0 <= r < parents.len() ==> (#[trigger] parents[r])@.len() == s.marked[r].len()
    &&& s.route.contains_key(start)
    &&& s.route[start] == seq![start]
    &&& forall|p: Coord| s.route.contains_key(p) <==> #[trigger] is_marked(s.marked, p)
    &&& forall|p: Coord| #[trigger]
        is_marked(s.marked, p) && p != start ==> s.route.contains_key(parent_at(parents, p))
            && s.route[p] == s.route[parent_at(parents, p)].push(p)
}

/// Whether the route of `p` repeats no cell and holds discovered cells
/// only.
spec fn route_plain(s: Scan, p: Coord) -> bool {
    &&& s.route[p].no_duplicates()
    &&& forall|i: int| 0 <= i < s.route[p].len() ==> is_marked(s.marked, #[trigger] s.route[p][i])
}

/// What holds of the lists and routes of a scan: no cell is recorded or
/// queued twice, every such cell is discovered, and no route repeats a
/// cell. Over the graph of the grid itself, no list and no route holds a
/// wall.
spec fn lists_kept(g: Seq<Seq<u8>>, adj: Map<Coord, Seq<Coord>>, s: Scan) -> bool {
    &&& (s.out + s.queue).no_duplicates()
    &&& forall|i: int| 0 <= i < s.out.len() ==> is_marked(s.marked, #[trigger] s.out[i])
    &&& forall|i: int| 0 <= i < s.queue.len() ==> is_marked(s.marked, #[trigger] s.queue[i])
    &&& forall|p: Coord| #[trigger] is_marked(s.marked, p) ==> route_plain(s, p)
    &&& adj == adjacency(g) ==> {
        &&& all_open(g, s.queue)
        &&& all_open(g, s.out)
        &&& forall|p: Coord| #[trigger] is_marked(s.marked, p) ==> all_open(g, s.route[p])
    }
}

proof fn lemma_lists_dequeued(g: Seq<Seq<u8>>, adj: Map<Coord, Seq<Coord>>, s: Scan)
    requires
        lists_kept(g, adj, s),
        s.queue.len() > 0,
    ensures
        lists_kept(g, adj, dequeued(s)),
{
    let t = dequeued(s);
    assert(t.out + t.queue =~= s.out + s.queue);
    assert(is_marked(s.marked, s.queue[0]));
    assert forall|i: int| 0 <= i < t.queue.len() implies is_marked(
        t.marked,
        #[trigger] t.queue[i],
    ) by {
        assert(t.queue[i] == s.queue[i + 1]);
    }
    assert forall|p: Coord| #[trigger] is_marked(t.marked, p) implies route_plain(t, p) by {
        assert(route_plain(s, p));
    }
    if adj == adjacency(g) {
        assert(is_open(g, s.queue[0]));
        assert forall|i: int| 0 <= i < t.queue.len() implies is_open(g, #[trigger] t.queue[i]) by {
            assert(t.queue[i] == s.queue[i + 1]);
        }
        assert forall|p: Coord| #[trigger] is_marked(t.marked, p) implies all_open(
            g,
            t.route[p],
        ) by {
            assert(is_marked(s.marked, p));
        }
    }
}

proof fn lemma_lists_discovered(
    g: Seq<Seq<u8>>,
    adj: Map<Coord, Seq<Coord>>,
    s: Scan,
    from: Coord,
    node: Coord,
)
    requires
        lists_kept(g, adj, s),
        is_marked(s.marked, from),
        in_mask(s.marked, node),
        !is_marked(s.marked, node),
        adj == adjacency(g) ==> is_open(g, node),
    ensures
        lists_kept(g, adj, discover(s, from, node).unwrap()),
{
    let t = discover(s, from, node).unwrap();
    lemma_mark(s.marked, node);
    let joined = s.out + s.queue;
    assert(t.out + t.queue =~= joined.push(node));
    assert forall|i: int| 0 <= i < joined.len() implies joined[i] != node by {
        if i < s.out.len() {
            assert(is_marked(s.marked, s.out[i]));
        } else {
            assert(is_marked(s.marked, s.queue[i - s.out.len()]));
        }
    }
    assert forall|i: int| 0 <= i < t.out.len() implies is_marked(t.marked, #[trigger] t.out[i]) by {
        assert(is_marked(s.marked, s.out[i]));
    }
    assert forall|i: int| 0 <= i < t.queue.len() implies is_marked(
        t.marked,
        #[trigger] t.queue[i],
    ) by {
        if i < s.queue.len() {
            assert(is_marked(s.marked, s.queue[i]));
        }
    }
    assert(route_plain(s, from));
    let route = s.route[from].push(node);
    assert forall|p: Coord| #[trigger] is_marked(t.marked, p) implies route_plain(t, p) by {
        if p == node {
            assert forall|i: int| 0 <= i < route.len() implies is_marked(
                t.marked,
                #[trigger] route[i],
            ) by {
                if i < s.route[from].len() {
                    assert(is_marked(s.marked, s.route[from][i]));
                }
            }
            assert forall|i: int, j: int|
                0 <= i < route.len() && 0 <= j < route.len() && i != j implies route[i]
                != route[j] by {
                if i < s.route[from].len() {
                    assert(is_marked(s.marked, s.route[from][i]));
                }
                if j < s.route[from].len() {
                    assert(is_marked(s.marked, s.route[from][j]));
                }
            }
        } else {
            assert(is_marked(s.marked, p));
            assert(route_plain(s, p));
            assert forall|i: int| 0 <= i < t.route[p].len() implies is_marked(
                t.marked,
                #[trigger] t.route[p][i],
            ) by {
                assert(is_marked(s.marked, s.route[p][i]));
            }
        }
    }
    if adj == adjacency(g) {
        assert forall|i: int| 0 <= i < t.queue.len() implies is_open(g, #[trigger] t.queue[i]) by {
            if i < s.queue.len() {
                assert(is_open(g, s.queue[i]));
            }
        }
        assert(all_open(g, s.route[from]));
        assert forall|p: Coord| #[trigger] is_marked(t.marked, p) implies all_open(
            g,
            t.route[p],
        ) by {
            if p == node {
                assert forall|i: int| 0 <= i < route.len() implies is_open(
                    g,
                    #[trigger] route[i],
                ) by {
                    if i < s.route[from].len() {
                        assert(is_open(g, s.route[from][i]));
                    }
                }
            } else {
                assert(is_marked(s.marked, p));
            }
        }
    }
}

proof fn lemma_parents_dequeued(parents: Seq<Vec<Coord>>, s: Scan, start: Coord)
    requires
        parents_kept(parents, s, start),
    ensures
        parents_kept(parents, dequeued(s), start),
{
    let t = dequeued(s);
    assert forall|p: Coord| t.route.contains_key(p) <==> #[trigger] is_marked(t.marked, p) by {
        assert(s.route.contains_key(p) <==> is_marked(s.marked, p));
    }
    assert forall|p: Coord| #[trigger]
        is_marked(t.marked, p) && p != start implies t.route.contains_key(parent_at(parents, p))
        && t.route[p] == t.route[parent_at(parents, p)].push(p) by {
        assert(is_marked(s.marked, p));
    }
}

/// What a finished scan hands to the two searches: the cells it recorded,
/// its mask, its table of predecessors and, for the proofs, its state.
struct Scanned {
    results: Vec<Coord>,
    marked: Vec<Vec<bool>>,
    parents: Vec<Vec<Coord>>,
    state: Ghost<Scan>,
}

/// Scans the maze breadth first from `maze_start`. A cell is marked when
/// it enters the queue, so it enters at most once; it is recorded when it
/// leaves. The scan stops when `maze_end` leaves the queue, or when the
/// queue runs empty.
#[verifier::rlimit(60)]
fn scan(maze: &[Vec<u8>], adj_list: &AdjacencyList, maze_start: Coord, maze_end: Coord) -> (r:
    Result<Scanned, SolveError>)
    requires
        setup_error(maze.deep_view()) is None,
        maze_start == start_of(maze.deep_view()),
        maze_end == end_of(maze.deep_view()),
    ensures
        match r {
            Ok(done) => {
                &&& breadth_scan(maze.deep_view(), adj_list@) == Some(done.state@)
                &&& done.results@ == done.state@.out
                &&& done.marked.deep_view() == done.state@.marked
                &&& mask_fits(maze.deep_view(), done.state@.marked)
                &&& parents_kept(done.parents@, done.state@, maze_start)
                &&& lists_kept(maze.deep_view(), adj_list@, done.state@)
            },
            Err(e) => e == SolveError::BrokenAdjacency && breadth_scan(
                maze.deep_view(),
                adj_list@,
            ) is None,
        },
{
    let ghost g = maze.deep_view();
    let ghost adj = adj_list@;
    let mut marked = new_mask(maze);
    let mut parents = new_parents(maze);
    let mut queue: Queue<Coord> = Queue::new();
    let mut results: Vec<Coord> = Vec::new();
    proof {
        lemma_blank_mask(g);
        lemma_mark(blank_mask(g), maze_start);
        crate::grid::lemma_grid_rows(maze);
        assert(is_start(g, maze_start));
        assert(is_open(g, maze_start));
    }
    queue.enqueue(maze_start);
    set_mark(&mut marked, maze_start);
    let ghost mut s = initial_scan(g);
    proof {
        assert(queue@ =~= s.queue);
        assert(s.out + s.queue =~= seq![maze_start]);
        assert forall|p: Coord| s.route.contains_key(p) <==> #[trigger] is_marked(s.marked, p) by {
            assert(!is_marked(blank_mask(g), p));
        }
        assert forall|p: Coord| #[trigger] is_marked(s.marked, p) implies route_plain(s, p) by {
            assert(!is_marked(blank_mask(g), p));
            assert(s.route[p] =~= seq![maze_start]);
        }
        assert forall|p: Coord| #[trigger] is_marked(s.marked, p) implies all_open(
            g,
            s.route[p],
        ) by {
            assert(!is_marked(blank_mask(g), p));
        }
    }
    while !queue.empty()
        invariant_except_break
            breadth_scan(g, adj) == scan_from(adj, maze_end, s),
        invariant
            g == maze.deep_view(),
            adj == adj_list@,
            is_grid(g),
            mask_fits(g, marked.deep_view()),
            queue@ == s.queue,
            marked.deep_view() == s.marked,
            results@ == s.out,
            parents_kept(parents@, s, maze_start),
            lists_kept(g, adj, s),
        ensures
            breadth_scan(g, adj) == Some(s),
        decreases unmarked(marked.deep_view()) + queue@.len(),
    {
        let ghost before = s;
        let square = queue.dequeue();
        results.push(square);
        proof {
            s = dequeued(before);
            assert(queue@ =~= s.queue);
            lemma_lists_dequeued(g, adj, before);
            lemma_parents_dequeued(parents@, before, maze_start);
            assert(is_marked(before.marked, before.queue[0]));
        }
        if square.0 == maze_end.0 && square.1 == maze_end.1 {
            break ;
        }
        let nodes = match adj_list.get(square) {
            Some(list) => list,
            None => {
                return Err(SolveError::BrokenAdjacency);
            },
        };
        let ghost taken = s;
        proof {
            if adj == adjacency(g) {
                lemma_neighbours_are_paths(g, square);
            }
        }
        let mut k: usize = 0;
        while k < nodes.len()
            invariant
                k <= nodes@.len(),
                g == maze.deep_view(),
                adj == adj_list@,
                breadth_scan(g, adj) == (match discover_all(taken, square, nodes@) {
                    Some(t) => scan_from(adj, maze_end, t),
                    None => None,
                }),
                discover_all(taken, square, nodes@.take(k as int)) == Some(s),
                mask_fits(g, marked.deep_view()),
                queue@ == s.queue,
                marked.deep_view() == s.marked,
                results@ == s.out,
                parents_kept(parents@, s, maze_start),
                lists_kept(g, adj, s),
                is_marked(s.marked, square),
                adj == adjacency(g) ==> forall|j: int|
                    0 <= j < nodes@.len() ==> is_path(g, #[trigger] nodes@[j]),
            decreases nodes@.len() - k,
        {
            let node = nodes[k];
            let ghost prev = s;
            let ghost old_parents = parents@;
            assert(nodes@.take(k + 1).drop_last() =~= nodes@.take(k as int));
            match marked_at(&marked, node) {
                None => {
                    proof {
                        lemma_discover_all_fails(taken, square, nodes@, k + 1);
                    }
                    return Err(SolveError::BrokenAdjacency);
                },
                Some(true) => {},
                Some(false) => {
                    queue.enqueue(node);
                    parents[node.0][node.1] = square;
                    set_mark(&mut marked, node);
                    proof {
                        lemma_mark(prev.marked, node);
                        s = discover(prev, square, node).unwrap();
                        lemma_lists_discovered(g, adj, prev, square, node);
                        assert(is_marked(prev.marked, maze_start));
                        assert(node != maze_start);
                        assert(node != square);
                        assert forall|p: Coord| s.route.contains_key(p) <==> #[trigger] is_marked(
                            s.marked,
                            p,
                        ) by {
                            assert(prev.route.contains_key(p) <==> is_marked(prev.marked, p));
                        }
                        assert forall|p: Coord| #[trigger]
                            is_marked(s.marked, p) && p != maze_start implies s.route.contains_key(
                            parent_at(parents@, p),
                        ) && s.route[p] == s.route[parent_at(parents@, p)].push(p) by {
                            if p == node {
                                assert(parent_at(parents@, p) == square);
                                assert(prev.route.contains_key(square) <==> is_marked(
                                    prev.marked,
                                    square,
                                ));
                            } else {
                                assert(is_marked(prev.marked, p));
                                assert(parent_at(parents@, p) == parent_at(old_parents, p));
                                let q = parent_at(old_parents, p);
                                assert(prev.route.contains_key(q));
                                assert(prev.route.contains_key(q) <==> is_marked(prev.marked, q));
                                assert(q != node);
                            }
                        }
                        assert(parents_kept(parents@, s, maze_start));
                    }
                },
            }
            k += 1;
        }
        proof {
            assert(nodes@.take(nodes@.len() as int) =~= nodes@);
            lemma_discover_all_measure(taken, square, nodes@);
        }
    }
    Ok(Scanned { results, marked, parents, state: Ghost(s) })
}

/// Searches breadth first from the start of the maze. A cell is marked
/// when it enters the queue, so it enters at most once; it is recorded
/// when it leaves. The search stops when the end of the maze leaves the
/// queue, or when the queue runs empty.
pub fn breadth_first(maze: &[Vec<u8>], adj_list: &AdjacencyList) -> (r: Result<
    Vec<Coord>,
    SolveError,
>)
    ensures
        match r {
            Ok(path) => breadth_first_outcome(maze.deep_view(), adj_list@) == Ok::<
                Seq<Coord>,
                SolveError,
            >(path@),
            Err(e) => breadth_first_outcome(maze.deep_view(), adj_list@) == Err::<
                Seq<Coord>,
                SolveError,
            >(e),
        },
        adj_list@ == adjacency(maze.deep_view()) ==> (r matches Ok(path) ==> all_open(
            maze.deep_view(),
            path@,
        )),
        r matches Ok(path) ==> path@.no_duplicates(),
{
    let maze_start = match get_start(maze) {
        Ok(p) => p,
        Err(e) => {
            return Err(e);
        },
    };
    let maze_end = match get_end(maze) {
        Ok(p) => p,
        Err(e) => {
            return Err(e);
        },
    };
    match scan(maze, adj_list, maze_start, maze_end) {
        Ok(done) => {
            proof {
                let s = done.state@;
                let joined = s.out + s.queue;
                assert forall|i: int, j: int|
                    0 <= i < s.out.len() && 0 <= j < s.out.len() && i != j implies s.out[i]
                    != s.out[j] by {
                    assert(joined[i] == s.out[i]);
                    assert(joined[j] == s.out[j]);
                }
            }
            Ok(done.results)
        },
        Err(e) => Err(e),
    }
}

/// Searches breadth first from the start of the maze, as `breadth_first`
/// does, and keeps for each discovered cell the cell it was discovered
/// from. When the scan is over it walks these predecessors back from the
/// end to the start and returns the cells of that walk in the order from
/// the start to the end.
#[verifier::rlimit(40)]
pub fn backtracking_breadth_first(maze: &[Vec<u8>], adj_list: &AdjacencyList) -> (r: Result<
    Vec<Coord>,
    SolveError,
>)
    ensures
        match r {
            Ok(path) => shortest_route_outcome(maze.deep_view(), adj_list@) == Ok::<
                Seq<Coord>,
                SolveError,
            >(path@),
            Err(e) => shortest_route_outcome(maze.deep_view(), adj_list@) == Err::<
                Seq<Coord>,
                SolveError,
            >(e),
        },
        adj_list@ == adjacency(maze.deep_view()) ==> (r matches Ok(path) ==> all_open(
            maze.deep_view(),
            path@,
        )),
        r matches Ok(path) ==> path@.no_duplicates(),
{
    let maze_start = match get_start(maze) {
        Ok(p) => p,
        Err(e) => {
            return Err(e);
        },
    };
    let maze_end = match get_end(maze) {
        Ok(p) => p,
        Err(e) => {
            return Err(e);
        },
    };
    let done = match scan(maze, adj_list, maze_start, maze_end) {
        Ok(done) => done,
        Err(e) => {
            return Err(e);
        },
    };
    let ghost g = maze.deep_view();
    let ghost adj = adj_list@;
    let ghost s = done.state@;
    let marked = done.marked;
    let parents = done.parents;
    proof {
        assert(is_end(g, maze_end));
        assert(in_grid(g, maze_end));
        assert(in_mask(s.marked, maze_end)) by {
            assert(s.marked[maze_end.0 as int].len() == g[maze_end.0 as int].len());
            assert(g[maze_end.0 as int].len() == g[0].len());
        }
    }
    // Walk the predecessors back from the end.
    let mut back: Vec<Coord> = Vec::new();
    let mut current = maze_end;
    while !(current.0 == maze_start.0 && current.1 == maze_start.1)
        invariant
            g == maze.deep_view(),
            adj == adj_list@,
            setup_error(g) is None,
            maze_start == start_of(g),
            maze_end == end_of(g),
            breadth_scan(g, adj) == Some(s),
            marked.deep_view() == s.marked,
            parents_kept(parents@, s, maze_start),
            in_mask(s.marked, current),
            back@.len() == 0 ==> current == maze_end,
            back@.len() > 0 ==> is_marked(s.marked, current),
            is_marked(s.marked, current) ==> s.route.contains_key(maze_end) && s.route[maze_end]
                == s.route[current] + back@.reverse(),
        decreases
                (if is_marked(s.marked, current) {
                    s.route[current].len() + 1
                } else {
                    0
                }),
    {
        match marked_at(&marked, current) {
            Some(true) => {},
            _ => {
                proof {
                    assert(!is_marked(s.marked, current));
                    assert(current == maze_end);
                    assert(s.route.contains_key(maze_end) <==> is_marked(s.marked, maze_end));
                }
                return Err(SolveError::MissingParent);
            },
        }
        assert(is_marked(s.marked, current));
        let parent = parents[current.0][current.1];
        proof {
            let longer = back@.push(current);
            assert(parent == parent_at(parents@, current));
            assert(s.route.contains_key(parent) <==> is_marked(s.marked, parent));
            assert(s.route[current] == s.route[parent].push(current));
            assert(s.route[parent].push(current) + back@.reverse() =~= s.route[parent]
                + longer.reverse());
        }
        back.push(current);
        current = parent;
    }
    let mut results: Vec<Coord> = Vec::new();
    results.push(maze_start);
    let mut k: usize = back.len();
    while k > 0
        invariant
            k <= back@.len(),
            results@ == seq![maze_start] + back@.reverse().take(back@.len() - k),
        decreases k,
    {
        k -= 1;
        results.push(back[k]);
        assert(results@ =~= seq![maze_start] + back@.reverse().take(back@.len() - k));
    }
    proof {
        assert(results@ =~= seq![maze_start] + back@.reverse());
        assert(is_marked(s.marked, maze_start));
        assert(s.route.contains_key(maze_end) <==> is_marked(s.marked, maze_end));
        assert(is_marked(s.marked, maze_end));
        assert(route_plain(s, maze_end));
    }
    Ok(results)
}

} // verus!
