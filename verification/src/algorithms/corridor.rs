//! Grids with a single route: where the open cells form one corridor from
//! the start to the end, without branches, every algorithm records that
//! corridor, cell by cell.

use crate::algorithms::always_left::{always_left_path, walk_left};
use crate::algorithms::breadth_first::{
    breadth_first_outcome, dequeued, discover_all, initial_scan, scan_from,
    shortest_route_outcome, Scan,
};
use crate::algorithms::depth_first::{depth_first_outcome, dfs_from};
use crate::algorithms::moves::{can_move, has_neighbour, neighbour, preferred_move, Direction};
use crate::algorithms::wall_follower::{follow_wall, later_moves, wall_follower_path};
use crate::error::SolveError;
use crate::graph::{
    adjacency, lemma_linked_symmetric, lemma_neighbours_contains, linked, neighbours, next_to,
};
use crate::grid::{
    is_end, is_grid, is_open, is_path, is_start, lemma_end_unique, lemma_start_unique,
    setup_error, Coord,
};
use crate::mask::{
    blank_mask, in_mask, is_marked, lemma_blank_mask, lemma_mark, mark, mask_fits, unmarked,
};
use vstd::prelude::*;

verus! {

/// Whether `p` is one of the first `i` cells of `c`.
pub open spec fn among(c: Seq<Coord>, i: int, p: Coord) -> bool {
    exists|j: int| 0 <= j < i && j < c.len() && #[trigger] c[j] == p
}

/// Whether `c` is the single route of the grid: it leads from the start
/// to the end over path cells, each next to the one before it; it
/// repeats no cell and holds every cell that is not a wall; and no
/// two of its cells lie next to each other unless one follows the other.
pub open spec fn is_corridor(g: Seq<Seq<u8>>, c: Seq<Coord>) -> bool {
    &&& c.len() >= 1
    &&& is_start(g, c.first())
    &&& is_end(g, c.last())
    &&& c.no_duplicates()
    &&& forall|i: int| 0 <= i < c.len() ==> is_path(g, #[trigger] c[i])
    &&& forall|p: Coord| #[trigger] is_open(g, p) ==> c.contains(p)
    &&& forall|i: int| 0 <= i < c.len() - 1 ==> #[trigger] next_to(g, c, i)
    &&& forall|i: int, j: int|
        0 <= i < c.len() && 0 <= j < c.len() && linked(g, #[trigger] c[i], #[trigger] c[j]) ==> j
            == i + 1 || i == j + 1
}

/// Whether the mask fits the grid and marks exactly the first `i` cells
/// of `c`.
pub open spec fn marks(g: Seq<Seq<u8>>, m: Seq<Seq<bool>>, c: Seq<Coord>, i: int) -> bool {
    &&& mask_fits(g, m)
    &&& forall|p: Coord| #[trigger] is_marked(m, p) <==> among(c, i, p)
}

/// The cells next to a cell of the corridor are the one before it and the
/// one after it.
proof fn lemma_corridor_links(g: Seq<Seq<u8>>, c: Seq<Coord>, i: int, q: Coord)
    requires
        is_corridor(g, c),
        0 <= i < c.len(),
    ensures
        linked(g, c[i], q) <==> ((i + 1 < c.len() && q == c[i + 1]) || (i > 0 && q == c[i - 1])),
{
    if linked(g, c[i], q) {
        assert(is_open(g, q));
        let j = choose|j: int| 0 <= j < c.len() && c[j] == q;
        assert(linked(g, c[i], c[j]));
    }
    if i + 1 < c.len() && q == c[i + 1] {
        assert(next_to(g, c, i));
    }
    if i > 0 && q == c[i - 1] {
        assert(next_to(g, c, i - 1));
        assert(is_path(g, c[i - 1]));
        lemma_linked_symmetric(g, c[i - 1], c[i]);
    }
}

proof fn lemma_in_mask(g: Seq<Seq<u8>>, m: Seq<Seq<bool>>, p: Coord)
    requires
        is_grid(g),
        mask_fits(g, m),
        is_path(g, p),
    ensures
        in_mask(m, p),
{
    assert(m[p.0 as int].len() == g[p.0 as int].len());
    assert(g[p.0 as int].len() == g[0].len());
}

/// Marking the next cell of the corridor.
proof fn lemma_marks_next(g: Seq<Seq<u8>>, m: Seq<Seq<bool>>, c: Seq<Coord>, i: int)
    requires
        is_grid(g),
        is_corridor(g, c),
        0 <= i < c.len(),
        marks(g, m, c, i),
    ensures
        marks(g, mark(m, c[i]), c, i + 1),
        !is_marked(m, c[i]),
        in_mask(m, c[i]),
        unmarked(mark(m, c[i])) < unmarked(m),
{
    lemma_in_mask(g, m, c[i]);
    lemma_mark(m, c[i]);
    if is_marked(m, c[i]) {
        assert(among(c, i, c[i]));
    }
    assert forall|p: Coord| #[trigger] is_marked(mark(m, c[i]), p) <==> among(c, i + 1, p) by {
        assert(is_marked(m, p) <==> among(c, i, p));
        if among(c, i, p) {
            let j = choose|j: int| 0 <= j < i && j < c.len() && c[j] == p;
            assert(c[j] == p);
        }
        if among(c, i + 1, p) {
            let j = choose|j: int| 0 <= j < i + 1 && j < c.len() && c[j] == p;
            if j < i {
                assert(among(c, i, p));
            }
        }
        if p == c[i] {
            assert(c[i] == p);
        }
    }
}

/// From a cell of the corridor, with the cells before it marked, a walker
/// can move in a direction exactly when that direction leads to the next
/// cell of the corridor.
proof fn lemma_corridor_can_move(
    g: Seq<Seq<u8>>,
    m: Seq<Seq<bool>>,
    c: Seq<Coord>,
    i: int,
    d: Direction,
)
    requires
        is_grid(g),
        is_corridor(g, c),
        0 <= i < c.len() - 1,
        marks(g, m, c, i),
    ensures
        can_move(g, m, c[i], d) <==> (has_neighbour(c[i], d) && neighbour(c[i], d) == c[i + 1]),
{
    let n = neighbour(c[i], d);
    if has_neighbour(c[i], d) {
        if is_path(g, n) {
            assert(linked(g, c[i], n));
            lemma_corridor_links(g, c, i, n);
            lemma_in_mask(g, m, n);
            if n == c[i + 1] {
                if is_marked(m, n) {
                    assert(among(c, i, n));
                    let j = choose|j: int| 0 <= j < i && j < c.len() && c[j] == n;
                    assert(c[j] == c[i + 1]);
                }
                assert(!is_marked(m, n));
            } else {
                assert(c[i - 1] == n);
                assert(among(c, i, n));
                assert(is_marked(m, n));
            }
        } else {
            assert(is_path(g, c[i + 1]));
        }
    }
}

/// From a cell of the corridor, with the cells before it marked, the
/// walker moves to the next cell of the corridor and keeps nothing for
/// later.
proof fn lemma_corridor_move(g: Seq<Seq<u8>>, m: Seq<Seq<bool>>, c: Seq<Coord>, i: int)
    requires
        is_grid(g),
        is_corridor(g, c),
        0 <= i < c.len() - 1,
        marks(g, m, c, i),
    ensures
        preferred_move(g, m, c[i]) matches Some(d) && neighbour(c[i], d) == c[i + 1]
            && later_moves(g, m, c[i], d) == Seq::<Coord>::empty(),
{
    lemma_corridor_can_move(g, m, c, i, Direction::Left);
    lemma_corridor_can_move(g, m, c, i, Direction::Down);
    lemma_corridor_can_move(g, m, c, i, Direction::Right);
    lemma_corridor_can_move(g, m, c, i, Direction::Up);
    lemma_corridor_links(g, c, i, c[i + 1]);
    let d = preferred_move(g, m, c[i]).unwrap();
    assert(later_moves(g, m, c[i], d) =~= Seq::<Coord>::empty());
}

proof fn lemma_walk_left_corridor(g: Seq<Seq<u8>>, m: Seq<Seq<bool>>, c: Seq<Coord>, i: int)
    requires
        is_grid(g),
        is_corridor(g, c),
        0 <= i < c.len(),
        marks(g, m, c, i),
    ensures
        walk_left(g, c.last(), m, c[i]) == c.subrange(i + 1, c.len() as int),
    decreases c.len() - i,
{
    if i == c.len() - 1 {
        assert(c.subrange(i + 1, c.len() as int) =~= Seq::<Coord>::empty());
    } else {
        lemma_corridor_move(g, m, c, i);
        lemma_marks_next(g, m, c, i);
        lemma_walk_left_corridor(g, mark(m, c[i]), c, i + 1);
        assert(seq![c[i + 1]] + c.subrange(i + 2, c.len() as int) =~= c.subrange(
            i + 1,
            c.len() as int,
        ));
    }
}

proof fn lemma_follow_wall_corridor(g: Seq<Seq<u8>>, m: Seq<Seq<bool>>, c: Seq<Coord>, i: int)
    requires
        is_grid(g),
        is_corridor(g, c),
        0 <= i < c.len(),
        marks(g, m, c, i),
    ensures
        follow_wall(g, c.last(), m, c[i], Seq::empty()) == c.subrange(i, c.len() - 1),
    decreases c.len() - i,
{
    if i == c.len() - 1 {
        assert(c.subrange(i, c.len() - 1) =~= Seq::<Coord>::empty());
    } else {
        lemma_corridor_move(g, m, c, i);
        lemma_marks_next(g, m, c, i);
        lemma_follow_wall_corridor(g, mark(m, c[i]), c, i + 1);
        let d = preferred_move(g, m, c[i]).unwrap();
        assert(Seq::<Coord>::empty() + later_moves(g, m, c[i], d) =~= Seq::<Coord>::empty());
        assert(seq![c[i]] + c.subrange(i + 1, c.len() - 1) =~= c.subrange(i, c.len() - 1));
    }
}

/// Whether `q` is the cell after or the cell before cell `i` of `c`.
spec fn beside(c: Seq<Coord>, i: int, q: Coord) -> bool {
    (i + 1 < c.len() && q == c[i + 1]) || (i > 0 && q == c[i - 1])
}

/// Every cell of the corridor is a key of the graph, and its neighbour
/// list holds the cell after it and, besides, only the cell before it.
proof fn lemma_corridor_entry(g: Seq<Seq<u8>>, c: Seq<Coord>, i: int)
    requires
        is_corridor(g, c),
        0 <= i < c.len(),
    ensures
        adjacency(g).contains_key(c[i]),
        i + 1 < c.len() ==> adjacency(g)[c[i]].contains(c[i + 1]),
        forall|j: int|
            0 <= j < adjacency(g)[c[i]].len() ==> beside(c, i, #[trigger] adjacency(g)[c[i]][j]),
{
    let list = neighbours(g, c[i]);
    assert(is_path(g, c[i]));
    assert(adjacency(g).contains_key(c[i]));
    assert(adjacency(g)[c[i]] == list);
    if i + 1 < c.len() {
        lemma_corridor_links(g, c, i, c[i + 1]);
        lemma_neighbours_contains(g, c[i], c[i + 1]);
    }
    assert forall|j: int| 0 <= j < list.len() implies beside(c, i, #[trigger] list[j]) by {
        let q = list[j];
        assert(list.contains(q));
        lemma_neighbours_contains(g, c[i], q);
        lemma_corridor_links(g, c, i, q);
    }
}

/// What holds of a depth-first search that has recorded the first `i`
/// cells of the corridor.
spec fn dfs_on_corridor(
    g: Seq<Seq<u8>>,
    c: Seq<Coord>,
    i: int,
    stack: Seq<Coord>,
    m: Seq<Seq<bool>>,
    out: Seq<Coord>,
) -> bool {
    &&& marks(g, m, c, i)
    &&& out == c.take(i)
    &&& stack.contains(c[i])
    &&& forall|k: int|
        0 <= k < stack.len() ==> (#[trigger] stack[k]) == c[i] || among(c, i, stack[k])
}

#[verifier::rlimit(40)]
proof fn lemma_dfs_corridor(
    g: Seq<Seq<u8>>,
    c: Seq<Coord>,
    i: int,
    stack: Seq<Coord>,
    m: Seq<Seq<bool>>,
    out: Seq<Coord>,
)
    requires
        is_grid(g),
        is_corridor(g, c),
        0 <= i < c.len(),
        dfs_on_corridor(g, c, i, stack, m, out),
    ensures
        dfs_from(adjacency(g), c.last(), stack, m, out) == Some(c),
    decreases unmarked(m), stack.len(),
{
    let adj = adjacency(g);
    let end = c.last();
    let top = stack.last();
    let rest = stack.drop_last();
    let at = choose|k: int| 0 <= k < stack.len() && stack[k] == c[i];
    assert(stack[stack.len() - 1] == top);
    let x = if top == c[i] {
        i
    } else {
        choose|j: int| 0 <= j < i && j < c.len() && c[j] == top
    };
    assert(c[x] == top);
    lemma_corridor_entry(g, c, x);
    lemma_in_mask(g, m, top);
    if top == end {
        assert(x == c.len() - 1);
        assert(c.take(i).push(c[i]) =~= c);
    } else if m[top.0 as int][top.1 as int] {
        assert(is_marked(m, top));
        lemma_marks_next(g, m, c, i);
        assert(rest[at] == c[i]);
        assert forall|k: int| 0 <= k < rest.len() implies (#[trigger] rest[k]) == c[i] || among(
            c,
            i,
            rest[k],
        ) by {
            assert(rest[k] == stack[k]);
        }
        lemma_dfs_corridor(g, c, i, rest, m, out);
    } else {
        assert(!is_marked(m, top));
        assert(top == c[i]);
        lemma_marks_next(g, m, c, i);
        let list = adj[c[i]];
        let next = rest + list.reverse();
        let j = choose|j: int| 0 <= j < list.len() && list[j] == c[i + 1];
        assert(next[rest.len() + (list.len() - 1 - j)] == c[i + 1]);
        assert forall|k: int| 0 <= k < next.len() implies (#[trigger] next[k]) == c[i + 1] || among(
            c,
            i + 1,
            next[k],
        ) by {
            if k < rest.len() {
                assert(next[k] == stack[k]);
                if stack[k] == c[i] {
                    assert(c[i] == next[k]);
                } else {
                    let b = choose|b: int| 0 <= b < i && b < c.len() && c[b] == stack[k];
                    assert(c[b] == next[k]);
                }
            } else {
                let a = list.len() - 1 - (k - rest.len());
                assert(next[k] == list[a]);
                if list[a] != c[i + 1] {
                    assert(c[i - 1] == next[k]);
                }
            }
        }
        assert(c.take(i).push(c[i]) =~= c.take(i + 1));
        lemma_dfs_corridor(g, c, i + 1, next, mark(m, c[i]), out.push(c[i]));
    }
}

/// What holds of a breadth-first scan that has recorded the first `i`
/// cells of the corridor and has the next one waiting.
spec fn scan_on_corridor(g: Seq<Seq<u8>>, c: Seq<Coord>, i: int, s: Scan) -> bool {
    &&& s.queue == seq![c[i]]
    &&& marks(g, s.marked, c, i + 1)
    &&& s.out == c.take(i)
    &&& s.route.contains_key(c[i])
    &&& s.route[c[i]] == c.take(i + 1)
}

/// Looking at the first `k` neighbours of cell `i` of the corridor: the
/// next cell is queued as soon as it has been looked at, and nothing else
/// changes.
#[verifier::rlimit(40)]
proof fn lemma_discover_corridor(g: Seq<Seq<u8>>, c: Seq<Coord>, i: int, t: Scan, k: int)
    requires
        is_grid(g),
        is_corridor(g, c),
        0 <= i < c.len() - 1,
        t.queue == Seq::<Coord>::empty(),
        marks(g, t.marked, c, i + 1),
        t.out == c.take(i + 1),
        t.route.contains_key(c[i]),
        t.route[c[i]] == c.take(i + 1),
        0 <= k <= adjacency(g)[c[i]].len(),
    ensures
        discover_all(t, c[i], adjacency(g)[c[i]].take(k)) matches Some(u) && u.out == t.out && (
        if adjacency(g)[c[i]].take(k).contains(c[i + 1]) {
            scan_on_corridor(g, c, i + 1, u)
        } else {
            u == t
        }),
    decreases k,
{
    let list = adjacency(g)[c[i]];
    if k > 0 {
        lemma_discover_corridor(g, c, i, t, k - 1);
        assert(list.take(k).drop_last() =~= list.take(k - 1));
        let n = list[k - 1];
        assert(list.take(k).last() == n);
        let before = discover_all(t, c[i], list.take(k - 1)).unwrap();
        lemma_corridor_entry(g, c, i);
        assert(list[k - 1] == c[i + 1] || c[i - 1] == list[k - 1]);
        assert(is_path(g, n));
        let head = list.take(k - 1);
        let longer = list.take(k);
        if head.contains(c[i + 1]) {
            let a = choose|a: int| 0 <= a < head.len() && head[a] == c[i + 1];
            assert(longer[a] == c[i + 1]);
            lemma_in_mask(g, before.marked, n);
            if n == c[i + 1] {
                assert(among(c, i + 2, c[i + 1]));
            } else {
                assert(among(c, i + 2, c[i - 1]));
            }
            assert(is_marked(before.marked, n));
        } else {
            lemma_in_mask(g, t.marked, n);
            if n == c[i + 1] {
                lemma_marks_next(g, t.marked, c, i + 1);
                assert(c.take(i + 1).push(c[i + 1]) =~= c.take(i + 2));
                assert(Seq::<Coord>::empty().push(n) =~= seq![c[i + 1]]);
            } else {
                assert(among(c, i + 1, c[i - 1]));
                assert(is_marked(t.marked, n));
                if longer.contains(c[i + 1]) {
                    let a = choose|a: int| 0 <= a < longer.len() && longer[a] == c[i + 1];
                    assert(head[a] == c[i + 1]);
                }
            }
        }
    } else {
        assert(list.take(0) =~= Seq::<Coord>::empty());
    }
}

proof fn lemma_scan_corridor(g: Seq<Seq<u8>>, c: Seq<Coord>, i: int, s: Scan)
    requires
        is_grid(g),
        is_corridor(g, c),
        0 <= i < c.len(),
        scan_on_corridor(g, c, i, s),
    ensures
        scan_from(adjacency(g), c.last(), s) matches Some(f) && f.out == c && f.route.contains_key(
            c.last(),
        ) && f.route[c.last()] == c,
    decreases c.len() - i,
{
    let adj = adjacency(g);
    assert(s.queue[0] == c[i]);
    lemma_corridor_entry(g, c, i);
    let t = dequeued(s);
    if i == c.len() - 1 {
        assert(c.take(i).push(c[i]) =~= c);
        assert(c.take(i + 1) =~= c);
    } else {
        let list = adj[c[i]];
        assert(t.queue =~= Seq::<Coord>::empty());
        assert(c.take(i).push(c[i]) =~= c.take(i + 1));
        lemma_discover_corridor(g, c, i, t, list.len() as int);
        assert(list.take(list.len() as int) =~= list);
        let u = discover_all(t, c[i], list).unwrap();
        lemma_scan_corridor(g, c, i + 1, u);
    }
}

/// On a grid whose open cells form a single corridor `c` from the start
/// to the end, the wall follower, the depth-first search and the
/// breadth-first search all record exactly `c`; so do the greedy walker
/// and the shortest-path search.
pub proof fn lemma_single_route(g: Seq<Seq<u8>>, c: Seq<Coord>)
    requires
        is_grid(g),
        is_corridor(g, c),
    ensures
        setup_error(g) is None,
        wall_follower_path(g) == c,
        depth_first_outcome(g, adjacency(g)) == Ok::<Seq<Coord>, SolveError>(c),
        breadth_first_outcome(g, adjacency(g)) == Ok::<Seq<Coord>, SolveError>(c),
        always_left_path(g) == c,
        shortest_route_outcome(g, adjacency(g)) == Ok::<Seq<Coord>, SolveError>(c),
{
    lemma_start_unique(g, c.first(), c.first());
    lemma_end_unique(g, c.last(), c.last());
    let start = c[0];
    let blank = blank_mask(g);
    lemma_blank_mask(g);
    assert(marks(g, blank, c, 0));
    lemma_follow_wall_corridor(g, blank, c, 0);
    assert(c.subrange(0, c.len() - 1).push(c.last()) =~= c);
    lemma_walk_left_corridor(g, blank, c, 0);
    assert(seq![start] + c.subrange(1, c.len() as int) =~= c);
    assert(dfs_on_corridor(g, c, 0, seq![start], blank, Seq::empty())) by {
        assert(seq![start][0] == c[0]);
        assert(c.take(0) =~= Seq::<Coord>::empty());
    }
    lemma_dfs_corridor(g, c, 0, seq![start], blank, Seq::empty());
    let s = initial_scan(g);
    lemma_marks_next(g, blank, c, 0);
    assert(scan_on_corridor(g, c, 0, s)) by {
        assert(c.take(0) =~= Seq::<Coord>::empty());
        assert(c.take(1) =~= seq![start]);
    }
    lemma_scan_corridor(g, c, 0, s);
}

} // verus!
