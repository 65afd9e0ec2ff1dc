//! The graph of a grid: for each open cell, the path cells next to it, in
//! the fixed order down, right, up, left.

use crate::algorithms::moves::{
    down_of, has_neighbour, left_of, neighbour, right_of, up_of, Direction,
};
use crate::constants::{PATH, WALL};
use crate::grid::{in_grid, is_grid, is_open, is_path, Coord};
use vstd::prelude::*;

verus! {

/// The neighbour of `p` in direction `d` as a one-element sequence, if it
/// is a path cell of the grid; the empty sequence otherwise.
pub open spec fn link(g: Seq<Seq<u8>>, p: Coord, d: Direction) -> Seq<Coord> {
    if has_neighbour(p, d) && is_path(g, neighbour(p, d)) {
        seq![neighbour(p, d)]
    } else {
        Seq::empty()
    }
}

/// The path cells next to `p`, in the order down, right, up, left.
pub open spec fn neighbours(g: Seq<Seq<u8>>, p: Coord) -> Seq<Coord> {
    link(g, p, Direction::Down) + link(g, p, Direction::Right) + link(g, p, Direction::Up) + link(
        g,
        p,
        Direction::Left,
    )
}

/// The adjacency map of a grid. Its keys are the cells that are not
/// walls; each has, as its list, the path cells next to it, and the list
/// is empty where there are none. Walls are neither keys nor neighbours.
pub open spec fn adjacency(g: Seq<Seq<u8>>) -> Map<Coord, Seq<Coord>> {
    Map::new(|p: Coord| is_open(g, p), |p: Coord| neighbours(g, p))
}

/// Whether `q` is a path cell directly below, right of, above or left of
/// `p`.
pub open spec fn linked(g: Seq<Seq<u8>>, p: Coord, q: Coord) -> bool {
    is_path(g, q) && ({
        ||| has_neighbour(p, Direction::Down) && q == down_of(p)
        ||| has_neighbour(p, Direction::Right) && q == right_of(p)
        ||| has_neighbour(p, Direction::Up) && q == up_of(p)
        ||| has_neighbour(p, Direction::Left) && q == left_of(p)
    })
}

/// Whether the cell after position `i` of `t` is a path cell next to the
/// cell at position `i`.
pub open spec fn next_to(g: Seq<Seq<u8>>, t: Seq<Coord>, i: int) -> bool {
    linked(g, t[i], t[i + 1])
}

/// Whether each cell of `t` but the first is a path cell next to the cell
/// before it.
pub open spec fn is_trail(g: Seq<Seq<u8>>, t: Seq<Coord>) -> bool {
    forall|i: int| 0 <= i < t.len() - 1 ==> #[trigger] next_to(g, t, i)
}

/// A concatenation holds a value exactly when one of its parts does.
pub proof fn lemma_concat_contains<T>(x: Seq<T>, y: Seq<T>, q: T)
    ensures
        (x + y).contains(q) <==> (x.contains(q) || y.contains(q)),
{
    if x.contains(q) {
        let i = choose|i: int| 0 <= i < x.len() && x[i] == q;
        assert((x + y)[i] == q);
    }
    if y.contains(q) {
        let i = choose|i: int| 0 <= i < y.len() && y[i] == q;
        assert((x + y)[x.len() + i] == q);
    }
    if (x + y).contains(q) {
        let i = choose|i: int| 0 <= i < (x + y).len() && (x + y)[i] == q;
        if i < x.len() {
            assert(x[i] == q);
        } else {
            assert(y[i - x.len()] == q);
        }
    }
}

proof fn lemma_link_contains(g: Seq<Seq<u8>>, p: Coord, d: Direction, q: Coord)
    ensures
        link(g, p, d).contains(q) <==> (has_neighbour(p, d) && is_path(g, q) && q == neighbour(
            p,
            d,
        )),
{
    if has_neighbour(p, d) && is_path(g, neighbour(p, d)) {
        assert(link(g, p, d)[0] == neighbour(p, d));
    }
}

/// The neighbour list of `p` holds exactly the path cells next to `p`.
pub proof fn lemma_neighbours_contains(g: Seq<Seq<u8>>, p: Coord, q: Coord)
    ensures
        neighbours(g, p).contains(q) <==> linked(g, p, q),
{
    let d = link(g, p, Direction::Down);
    let r = link(g, p, Direction::Right);
    let u = link(g, p, Direction::Up);
    let l = link(g, p, Direction::Left);
    lemma_concat_contains(d + r + u, l, q);
    lemma_concat_contains(d + r, u, q);
    lemma_concat_contains(d, r, q);
    lemma_link_contains(g, p, Direction::Down, q);
    lemma_link_contains(g, p, Direction::Right, q);
    lemma_link_contains(g, p, Direction::Up, q);
    lemma_link_contains(g, p, Direction::Left, q);
}

/// Every cell of a neighbour list is a path cell of the grid.
pub proof fn lemma_neighbours_are_paths(g: Seq<Seq<u8>>, p: Coord)
    ensures
        forall|i: int|
            0 <= i < neighbours(g, p).len() ==> is_path(g, #[trigger] neighbours(g, p)[i]),
{
    assert forall|i: int| 0 <= i < neighbours(g, p).len() implies is_path(
        g,
        #[trigger] neighbours(g, p)[i],
    ) by {
        let q = neighbours(g, p)[i];
        assert(neighbours(g, p).contains(q));
        lemma_neighbours_contains(g, p, q);
    }
}

/// Being next to each other goes both ways.
pub proof fn lemma_linked_symmetric(g: Seq<Seq<u8>>, a: Coord, b: Coord)
    requires
        is_path(g, a),
        linked(g, a, b),
    ensures
        linked(g, b, a),
{
}

/// The graph of a grid is undirected: where path cell `b` stands in the
/// neighbour list of path cell `a`, `a` stands in the neighbour list of
/// `b`.
pub proof fn lemma_adjacency_symmetric(g: Seq<Seq<u8>>, a: Coord, b: Coord)
    requires
        is_path(g, a),
        adjacency(g).contains_key(a),
        adjacency(g)[a].contains(b),
    ensures
        is_path(g, b),
        adjacency(g).contains_key(b),
        adjacency(g)[b].contains(a),
{
    lemma_neighbours_contains(g, a, b);
    lemma_linked_symmetric(g, a, b);
    lemma_neighbours_contains(g, b, a);
}

/// Whether the cell after position `i` of `w` stands in the neighbour list
/// of the cell at position `i`.
pub open spec fn linked_at(adj: Map<Coord, Seq<Coord>>, w: Seq<Coord>, i: int) -> bool {
    adj[w[i]].contains(w[i + 1])
}

/// Whether `w` is a walk in the graph `adj`: a sequence of at least one
/// key in which each cell but the first stands in the neighbour list of
/// the cell before it.
pub open spec fn is_walk(adj: Map<Coord, Seq<Coord>>, w: Seq<Coord>) -> bool {
    &&& w.len() > 0
    &&& forall|i: int| 0 <= i < w.len() ==> adj.contains_key(#[trigger] w[i])
    &&& forall|i: int| 0 <= i < w.len() - 1 ==> #[trigger] linked_at(adj, w, i)
}

/// Whether a walk in `adj` leads from `a` to `b`.
pub open spec fn reachable(adj: Map<Coord, Seq<Coord>>, a: Coord, b: Coord) -> bool {
    exists|w: Seq<Coord>| #[trigger] is_walk(adj, w) && w.first() == a && w.last() == b
}

/// A walk goes on to any key in the neighbour list of its last cell.
pub proof fn lemma_walk_extend(adj: Map<Coord, Seq<Coord>>, w: Seq<Coord>, n: Coord)
    requires
        is_walk(adj, w),
        adj[w.last()].contains(n),
        adj.contains_key(n),
    ensures
        is_walk(adj, w.push(n)),
        w.push(n).first() == w.first(),
        w.push(n).last() == n,
{
    let longer = w.push(n);
    assert forall|i: int| 0 <= i < longer.len() implies adj.contains_key(#[trigger] longer[i]) by {
        if i < w.len() {
            assert(adj.contains_key(w[i]));
        }
    }
    assert forall|i: int| 0 <= i < longer.len() - 1 implies #[trigger] linked_at(
        adj,
        longer,
        i,
    ) by {
        if i < w.len() - 1 {
            assert(linked_at(adj, w, i));
            assert(longer[i] == w[i]);
            assert(longer[i + 1] == w[i + 1]);
        } else {
            assert(longer[i] == w.last());
            assert(longer[i + 1] == n);
        }
    }
}

/// Whether every neighbour that `adj` lists is a cell of the grid and has
/// a list of its own.
pub open spec fn sound_graph(g: Seq<Seq<u8>>, adj: Map<Coord, Seq<Coord>>) -> bool {
    forall|p: Coord, j: int|
        adj.contains_key(p) && 0 <= j < adj[p].len() ==> in_grid(g, #[trigger] adj[p][j])
            && adj.contains_key(adj[p][j])
}

/// In the graph of a grid every neighbour is a cell of the grid and a key.
pub proof fn lemma_adjacency_sound(g: Seq<Seq<u8>>)
    ensures
        sound_graph(g, adjacency(g)),
{
    let adj = adjacency(g);
    assert forall|p: Coord, j: int| adj.contains_key(p) && 0 <= j < adj[p].len() implies in_grid(
        g,
        #[trigger] adj[p][j],
    ) && adj.contains_key(adj[p][j]) by {
        let n = adj[p][j];
        assert(neighbours(g, p).contains(n));
        lemma_neighbours_contains(g, p, n);
    }
}

/// An adjacency structure: for each of its keys an ordered list of
/// neighbours, which may be empty. Its view is the map from key to list.
/// The structure is made with room for the cells of one grid and holds no
/// key outside that room.
pub struct AdjacencyList {
    table: Vec<Vec<Option<Vec<Coord>>>>,
}

impl View for AdjacencyList {
    type V = Map<Coord, Seq<Coord>>;

    closed spec fn view(&self) -> Map<Coord, Seq<Coord>> {
        Map::new(
            |p: Coord| self.covers(p) && self.table@[p.0 as int]@[p.1 as int] is Some,
            |p: Coord| self.table@[p.0 as int]@[p.1 as int]->0@,
        )
    }
}

impl AdjacencyList {
    /// Whether the structure has room for the key `p`.
    pub closed spec fn covers(&self, p: Coord) -> bool {
        p.0 < self.table@.len() && p.1 < self.table@[p.0 as int]@.len()
    }

    /// An adjacency structure without entries, with room for the cells of
    /// a grid of the given size.
    pub fn new(rows: usize, cols: usize) -> (adj_list: Self)
        ensures
            adj_list@ == Map::<Coord, Seq<Coord>>::empty(),
            forall|p: Coord| #[trigger] adj_list.covers(p) <==> (p.0 < rows && p.1 < cols),
    {
        let mut table: Vec<Vec<Option<Vec<Coord>>>> = Vec::new();
        let mut r: usize = 0;
        while r < rows
            invariant
                r <= rows,
                table@.len() == r,
                forall|i: int| 0 <= i < r ==> (#[trigger] table@[i])@.len() == cols,
                forall|i: int, j: int|
                    0 <= i < r && 0 <= j < cols ==> (#[trigger] table@[i]@[j]) is None,
            decreases rows - r,
        {
            let mut row: Vec<Option<Vec<Coord>>> = Vec::new();
            let mut c: usize = 0;
            while c < cols
                invariant
                    c <= cols,
                    row@.len() == c,
                    forall|j: int| 0 <= j < c ==> (#[trigger] row@[j]) is None,
                decreases cols - c,
            {
                row.push(None);
                c += 1;
            }
            table.push(row);
            r += 1;
        }
        let adj_list = AdjacencyList { table };
        assert(adj_list@ =~= Map::<Coord, Seq<Coord>>::empty());
        adj_list
    }

    /// The neighbour list of `key`, if it has one.
    pub fn get(&self, key: Coord) -> (nodes: Option<&Vec<Coord>>)
        ensures
            match nodes {
                Some(list) => self@.contains_key(key) && list@ == self@[key],
                None => !self@.contains_key(key),
            },
    {
        if key.0 < self.table.len() && key.1 < self.table[key.0].len() {
            self.table[key.0][key.1].as_ref()
        } else {
            None
        }
    }

    /// Whether `key` has a neighbour list.
    pub fn contains_key(&self, key: Coord) -> (b: bool)
        ensures
            b == self@.contains_key(key),
    {
        key.0 < self.table.len() && key.1 < self.table[key.0].len()
            && self.table[key.0][key.1].is_some()
    }

    /// Gives `key` the neighbour list `nodes`, in place of the list it
    /// had, if any. A key for which the structure has no room is not
    /// added.
    pub fn insert(&mut self, key: Coord, nodes: Vec<Coord>)
        ensures
            final(self)@ == (if old(self).covers(key) {
                old(self)@.insert(key, nodes@)
            } else {
                old(self)@
            }),
            forall|p: Coord| final(self).covers(p) == old(self).covers(p),
    {
        let (x, y) = key;
        if x < self.table.len() && y < self.table[x].len() {
            self.table[x][y] = Some(nodes);
            proof {
                let before = old(self).table@;
                let after = self.table@;
                assert(after.len() == before.len());
                assert(after[x as int]@.len() == before[x as int]@.len());
                assert(after[x as int]@[y as int] == Some(nodes));
                assert(forall|r: int| 0 <= r < before.len() && r != x ==> after[r] == before[r]);
                assert(forall|c: int|
                    0 <= c < before[x as int]@.len() && c != y ==> after[x as int]@[c]
                        == before[x as int]@[c]);
                assert(forall|p: Coord| self.covers(p) == old(self).covers(p));
                assert(self@ =~~= old(self)@.insert(key, nodes@));
            }
        }
    }
}

/// The neighbour list of `p` in `adj`, empty where `p` is no key.
pub open spec fn entry(adj: Map<Coord, Seq<Coord>>, p: Coord) -> Seq<Coord> {
    if adj.contains_key(p) {
        adj[p]
    } else {
        Seq::empty()
    }
}

/// Appends `next` to the neighbour list of `current`, which begins a new
/// list if `current` had none. A key for which the structure has no room
/// is not added.
pub fn add_node(adj_list: &mut AdjacencyList, current: Coord, next: Coord)
    ensures
        final(adj_list)@ == (if old(adj_list).covers(current) {
            old(adj_list)@.insert(current, entry(old(adj_list)@, current).push(next))
        } else {
            old(adj_list)@
        }),
        forall|p: Coord| final(adj_list).covers(p) == old(adj_list).covers(p),
{
    let mut nodes: Vec<Coord> = Vec::new();
    match adj_list.get(current) {
        Some(list) => {
            let mut k: usize = 0;
            while k < list.len()
                invariant
                    k <= list@.len(),
                    nodes@ == list@.take(k as int),
                decreases list@.len() - k,
            {
                nodes.push(list[k]);
                assert(nodes@ =~= list@.take(k + 1));
                k += 1;
            }
            assert(list@.take(list@.len() as int) =~= list@);
        },
        None => {},
    }
    nodes.push(next);
    adj_list.insert(current, nodes);
}

/// Whether `p` comes before row `i`, column `j` in row-major order.
spec fn before(p: Coord, i: int, j: int) -> bool {
    p.0 < i || (p.0 == i && p.1 < j)
}

/// Whether `adj` holds the entries of the graph of `g` for just the cells
/// before row `i`, column `j`.
spec fn built(g: Seq<Seq<u8>>, adj: Map<Coord, Seq<Coord>>, i: int, j: int) -> bool {
    &&& forall|p: Coord| #[trigger]
        adj.contains_key(p) <==> (adjacency(g).contains_key(p) && before(p, i, j))
    &&& forall|p: Coord| #[trigger] adj.contains_key(p) ==> adj[p] == neighbours(g, p)
}

/// Adding the entry of the cell at row `i`, column `j`, if the graph has
/// one, to a structure that holds the entries of the cells before it
/// gives a structure that holds the entries of the cells before the next
/// column.
proof fn lemma_built_next(
    g: Seq<Seq<u8>>,
    base: Map<Coord, Seq<Coord>>,
    adj: Map<Coord, Seq<Coord>>,
    i: int,
    j: int,
)
    requires
        0 <= i <= usize::MAX,
        0 <= j <= usize::MAX,
        built(g, base, i, j),
        adj == (if is_open(g, (i as usize, j as usize)) {
            base.insert((i as usize, j as usize), neighbours(g, (i as usize, j as usize)))
        } else {
            base
        }),
    ensures
        built(g, adj, i, j + 1),
{
    let p = (i as usize, j as usize);
    assert forall|q: Coord| #[trigger]
        adj.contains_key(q) <==> (adjacency(g).contains_key(q) && before(q, i, j + 1)) by {
        assert(base.contains_key(q) <==> (adjacency(g).contains_key(q) && before(q, i, j)));
        if q != p {
            assert(before(q, i, j + 1) == before(q, i, j));
        }
    }
    assert forall|q: Coord| #[trigger] adj.contains_key(q) implies adj[q] == neighbours(g, q) by {
        if q != p {
            assert(base.contains_key(q));
        }
    }
}

/// Gives the cell at row `i`, column `j`, which is not a wall, its entry:
/// the path cells next to it, in the order down, right, up, left.
#[verifier::rlimit(40)]
fn link_cell(adj_list: &mut AdjacencyList, maze: &Vec<Vec<u8>>, i: usize, j: usize)
    requires
        is_grid(maze.deep_view()),
        in_grid(maze.deep_view(), (i, j)),
        forall|p: Coord| #[trigger] old(adj_list).covers(p) <==> in_grid(maze.deep_view(), p),
    ensures
        final(adj_list)@ == old(adj_list)@.insert((i, j), neighbours(maze.deep_view(), (i, j))),
        forall|p: Coord| final(adj_list).covers(p) == old(adj_list).covers(p),
{
    let ghost g = maze.deep_view();
    let ghost base = adj_list@;
    let ghost p: Coord = (i, j);
    let rows = maze.len();
    let cols = maze[0].len();
    proof {
        assert forall|k: int| 0 <= k < maze@.len() implies (#[trigger] g[k]) == maze@[k]@ by {
            assert(g[k] =~= maze@[k]@);
        }
        assert(g[i as int].len() == cols);
        assert(adj_list.covers(p));
    }
    adj_list.insert((i, j), Vec::new());
    assert(adj_list@ =~~= base.insert(p, Seq::<Coord>::empty()));
    assert(adj_list.covers(p));
    if i != rows - 1 {
        assert(g[i + 1].len() == cols);
        if maze[i + 1][j] == PATH {
            add_node(adj_list, (i, j), (i + 1, j));
        }
    }
    let ghost d = link(g, p, Direction::Down);
    assert(adj_list@ =~~= base.insert(p, d));
    assert(adj_list.covers(p));
    if j != cols - 1 && maze[i][j + 1] == PATH {
        add_node(adj_list, (i, j), (i, j + 1));
    }
    let ghost r = link(g, p, Direction::Right);
    assert(adj_list@ =~~= base.insert(p, d + r));
    assert(adj_list.covers(p));
    if i != 0 {
        assert(g[i - 1].len() == cols);
        if maze[i - 1][j] == PATH {
            add_node(adj_list, (i, j), (i - 1, j));
        }
    }
    let ghost u = link(g, p, Direction::Up);
    assert(adj_list@ =~~= base.insert(p, d + r + u));
    assert(adj_list.covers(p));
    if j != 0 && maze[i][j - 1] == PATH {
        add_node(adj_list, (i, j), (i, j - 1));
    }
    assert(adj_list@ =~~= base.insert(p, neighbours(g, p)));
}

/// Builds the adjacency structure of a grid: each cell that is not a wall
/// gets an entry that lists, in the order down, right, up, left, the path
/// cells next to it.
#[verifier::rlimit(40)]
pub fn maze_to_adjacency_list(maze: &Vec<Vec<u8>>) -> (adj_list: AdjacencyList)
    requires
        is_grid(maze.deep_view()),
    ensures
        adj_list@ == adjacency(maze.deep_view()),
{
    let ghost g = maze.deep_view();
    let rows = maze.len();
    let cols = maze[0].len();
    proof {
        assert forall|k: int| 0 <= k < maze@.len() implies (#[trigger] g[k]) == maze@[k]@ by {
            assert(g[k] =~= maze@[k]@);
        }
    }
    let mut adj_list = AdjacencyList::new(rows, cols);
    let mut i: usize = 0;
    while i < rows
        invariant
            g == maze.deep_view(),
            is_grid(g),
            rows == g.len(),
            cols == g[0].len(),
            g.len() == maze@.len(),
            forall|k: int| 0 <= k < maze@.len() ==> (#[trigger] g[k]) == maze@[k]@,
            i <= rows,
            forall|p: Coord| #[trigger] adj_list.covers(p) <==> in_grid(g, p),
            built(g, adj_list@, i as int, 0),
        decreases rows - i,
    {
        let mut j: usize = 0;
        while j < cols
            invariant
                g == maze.deep_view(),
                is_grid(g),
                rows == g.len(),
                cols == g[0].len(),
                g.len() == maze@.len(),
                forall|k: int| 0 <= k < maze@.len() ==> (#[trigger] g[k]) == maze@[k]@,
                i < rows,
                j <= cols,
                forall|p: Coord| #[trigger] adj_list.covers(p) <==> in_grid(g, p),
                built(g, adj_list@, i as int, j as int),
            decreases cols - j,
        {
            let ghost base = adj_list@;
            assert(g[i as int].len() == cols);
            if maze[i][j] != WALL {
                link_cell(&mut adj_list, maze, i, j);
            }
            proof {
                lemma_built_next(g, base, adj_list@, i as int, j as int);
            }
            j += 1;
        }
        proof {
            lemma_built_row(g, adj_list@, i as int, cols as int);
        }
        i += 1;
    }
    proof {
        lemma_built_all(g, adj_list@);
    }
    adj_list
}

/// The entries of the cells before the end of a row are those of the
/// cells before the next row.
proof fn lemma_built_row(g: Seq<Seq<u8>>, adj: Map<Coord, Seq<Coord>>, i: int, cols: int)
    requires
        cols == g[0].len(),
        built(g, adj, i, cols),
    ensures
        built(g, adj, i + 1, 0),
{
    assert forall|q: Coord| #[trigger]
        adj.contains_key(q) <==> (adjacency(g).contains_key(q) && before(q, i + 1, 0)) by {
        assert(adj.contains_key(q) <==> (adjacency(g).contains_key(q) && before(q, i, cols)));
    }
}

/// The entries of the cells before the row after the last are those of
/// the whole graph.
proof fn lemma_built_all(g: Seq<Seq<u8>>, adj: Map<Coord, Seq<Coord>>)
    requires
        built(g, adj, g.len() as int, 0),
    ensures
        adj == adjacency(g),
{
    assert forall|q: Coord| adj.contains_key(q) <==> adjacency(g).contains_key(q) by {
        assert(adj.contains_key(q) <==> (adjacency(g).contains_key(q) && before(
            q,
            g.len() as int,
            0,
        )));
    }
    assert(adj =~= adjacency(g));
}

} // verus!
