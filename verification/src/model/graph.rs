//! The mathematical picture of a grid: its size and the links of its cells,
//! with the notions of graph theory that the contracts speak of.

use vstd::prelude::*;
use crate::model::cell::{Position, coordinate_adjacent, lemma_push_contains};

verus! {

/// Row-major order: `a` stands in an earlier row than `b`, or earlier in the same row.
pub open spec fn precedes(a: Position, b: Position) -> bool {
    a.y < b.y || (a.y == b.y && a.x < b.x)
}

/// The passage between `a` and `b`, written with the earlier cell first, so
/// that each passage has one name whichever way it is asked for.
pub open spec fn passage(a: Position, b: Position) -> (Position, Position) {
    if precedes(a, b) {
        (a, b)
    } else {
        (b, a)
    }
}

/// A grid as mathematics sees it.
pub struct GridModel {
    /// Number of columns.
    pub width: nat,
    /// Number of rows.
    pub height: nat,
    /// For each cell the cells it has a passage to, in the order in which
    /// the passages were opened.
    pub links: Map<Position, Seq<Position>>,
}

impl GridModel {
    /// Whether `p` is a cell of this grid.
    pub open spec fn contains(self, p: Position) -> bool {
        p.x < self.width && p.y < self.height
    }

    /// The place of `p` when the cells are counted row by row from zero.
    pub open spec fn index_of(self, p: Position) -> int {
        p.y * self.width + p.x
    }

    /// The cells of the grid, row by row.
    pub open spec fn cells(self) -> Seq<Position> {
        Seq::new(
            self.width * self.height,
            |k: int|
                Position {
                    x: (k % self.width as int) as usize,
                    y: (k / self.width as int) as usize,
                },
        )
    }

    /// Whether `v` lists the cells of the grid row by row, each once.
    pub open spec fn lists_cells(self, v: Seq<Position>) -> bool {
        &&& v.len() == self.width * self.height
        &&& forall|k: int|
            0 <= k < v.len() ==> self.contains(#[trigger] v[k]) && self.index_of(v[k]) == k
    }

    /// The passages, each written with its earlier cell first.
    pub open spec fn passages(self) -> Set<(Position, Position)> {
        Set::new(
            |e: (Position, Position)|
                self.contains(e.0) && self.contains(e.1) && precedes(e.0, e.1)
                    && self.links[e.0].contains(e.1),
        )
    }

    /// The cells of the grid, and no others, have links. No cell is linked
    /// twice to the same cell. Every link leads to a touching cell of the
    /// grid and has a link back. There are finitely many passages.
    pub open spec fn wf(self) -> bool {
        &&& self.width >= 1
        &&& self.height >= 1
        &&& forall|p: Position| #[trigger] self.links.dom().contains(p) <==> self.contains(p)
        &&& forall|p: Position| self.contains(p) ==> (#[trigger] self.links[p]).no_duplicates()
        &&& forall|p: Position, q: Position|
            self.contains(p) && #[trigger] self.links[p].contains(q) ==> {
                &&& self.contains(q)
                &&& coordinate_adjacent(p, q)
                &&& self.links[q].contains(p)
            }
        &&& self.passages().finite()
    }

    /// Whether a passage joins `a` and `b`.
    pub open spec fn adjacent(self, a: Position, b: Position) -> bool {
        self.passages().contains(passage(a, b))
    }

    /// The number of passages.
    pub open spec fn edge_count(self) -> nat {
        self.passages().len()
    }

    /// The same grid with a passage between `a` and `b`: unchanged if there
    /// is one, else each of the two cells gets a link to the other.
    pub open spec fn with_passage(self, a: Position, b: Position) -> GridModel {
        if self.adjacent(a, b) {
            self
        } else {
            GridModel {
                links: self.links.insert(a, self.links[a].push(b)).insert(
                    b,
                    self.links[b].push(a),
                ),
                ..self
            }
        }
    }

    /// The same grid with a passage between each cell of `cells` from
    /// place `k` on and the cell after it, the later passages opened first.
    pub open spec fn with_steps(self, cells: Seq<Position>, k: int) -> GridModel
        decreases cells.len() - k,
    {
        if 0 <= k < cells.len() - 1 {
            self.with_steps(cells, k + 1).with_passage(cells[k], cells[k + 1])
        } else {
            self
        }
    }

    /// The same grid with a passage between each cell of `cells` and the
    /// cell after it, the later passages opened first.
    pub open spec fn with_walk(self, cells: Seq<Position>) -> GridModel {
        self.with_steps(cells, 0)
    }

    /// The grid of the same size without any passage.
    pub open spec fn cleared(self) -> GridModel {
        GridModel {
            links: Map::new(|p: Position| self.contains(p), |p: Position| Seq::empty()),
            ..self
        }
    }

    /// Whether a passage joins cell `i` of `w` and the cell after it.
    pub open spec fn passes(self, w: Seq<Position>, i: int) -> bool {
        self.adjacent(w[i], w[i + 1])
    }

    /// Whether `w` is a way through the maze: it starts on the grid and each
    /// of its steps goes through a passage.
    pub open spec fn is_walk(self, w: Seq<Position>) -> bool {
        &&& w.len() >= 1
        &&& self.contains(w[0])
        &&& forall|i: int| 0 <= i < w.len() - 1 ==> #[trigger] self.passes(w, i)
    }

    /// Whether `w` is a way through the maze from `a` to `b`.
    pub open spec fn joins(self, w: Seq<Position>, a: Position, b: Position) -> bool {
        self.is_walk(w) && w[0] == a && w.last() == b
    }

    /// Whether some way through the maze leads from `a` to `b`.
    pub open spec fn reachable(self, a: Position, b: Position) -> bool {
        exists|w: Seq<Position>| self.joins(w, a, b)
    }

    /// Whether every cell can be reached from every other.
    pub open spec fn connected(self) -> bool {
        forall|a: Position, b: Position|
            self.contains(a) && self.contains(b) ==> #[trigger] self.reachable(a, b)
    }

    /// Whether `c` is a round trip: at least three cells, none twice, each
    /// joined to the next by a passage and the last to the first.
    pub open spec fn is_cycle(self, c: Seq<Position>) -> bool {
        &&& c.len() >= 3
        &&& c.no_duplicates()
        &&& forall|i: int| 0 <= i < c.len() - 1 ==> #[trigger] self.passes(c, i)
        &&& self.adjacent(c.last(), c[0])
    }

    /// Whether the maze has no round trip.
    pub open spec fn acyclic(self) -> bool {
        forall|c: Seq<Position>| !self.is_cycle(c)
    }

    /// Whether the passages form a spanning tree of the grid: every cell is
    /// reachable from every other, there is no round trip, and the passages
    /// are one fewer than the cells.
    pub open spec fn is_spanning_tree(self) -> bool {
        &&& self.connected()
        &&& self.acyclic()
        &&& self.edge_count() == self.width * self.height - 1
    }

    /// Whether `w` is a shortest way from `a` to `b`.
    pub open spec fn is_shortest(self, w: Seq<Position>, a: Position, b: Position) -> bool {
        &&& self.joins(w, a, b)
        &&& forall|v: Seq<Position>| #[trigger] self.joins(v, a, b) ==> w.len() <= v.len()
    }
}

/// Counted row by row, every cell of the grid has a place below the number
/// of cells.
pub proof fn lemma_index_in_range(g: GridModel, p: Position)
    requires
        g.contains(p),
    ensures
        0 <= g.index_of(p) < g.width * g.height,
{
    let w = g.width as int;
    let h = g.height as int;
    let x = p.x as int;
    let y = p.y as int;
    assert(0 <= y * w + x < w * h) by (nonlinear_arith)
        requires
            0 <= x < w,
            0 <= y < h,
    ;
}

/// Counted row by row, two cells with the same place are the same cell.
pub proof fn lemma_index_injective(g: GridModel, p: Position, q: Position)
    requires
        g.contains(p),
        g.contains(q),
        g.index_of(p) == g.index_of(q),
    ensures
        p == q,
{
    let w = g.width as int;
    let px = p.x as int;
    let py = p.y as int;
    let qx = q.x as int;
    let qy = q.y as int;
    assert(py == qy) by (nonlinear_arith)
        requires
            0 <= px < w,
            0 <= qx < w,
            0 <= py,
            0 <= qy,
            py * w + px == qy * w + qx,
    ;
}

/// A list of the cells row by row holds every cell of the grid at its place,
/// and none twice; there is one such list only.
pub proof fn lemma_lists_cells(g: GridModel, v: Seq<Position>)
    requires
        g.lists_cells(v),
    ensures
        v.no_duplicates(),
        forall|p: Position| g.contains(p) ==> v[#[trigger] g.index_of(p)] == p,
        forall|p: Position| g.contains(p) ==> v.contains(p),
        v == g.cells(),
{
    assert forall|k: int| 0 <= k < v.len() implies v[k] == g.cells()[k] by {
        let p = v[k];
        vstd::arithmetic::div_mod::lemma_fundamental_div_mod_converse(
            k,
            g.width as int,
            p.y as int,
            p.x as int,
        );
    }
    assert(v =~= g.cells());
    assert forall|p: Position| g.contains(p) implies v[#[trigger] g.index_of(p)] == p by {
        lemma_index_in_range(g, p);
        lemma_index_injective(g, p, v[g.index_of(p)]);
    }
    assert forall|p: Position| g.contains(p) implies v.contains(p) by {
        lemma_index_in_range(g, p);
        assert(v[g.index_of(p)] == p);
    }
}

/// A passage has the same name from either end.
pub proof fn lemma_passage_symmetric(a: Position, b: Position)
    ensures
        passage(a, b) == passage(b, a),
{
}

/// Being joined by a passage does not depend on the order in which the two
/// cells are named.
pub proof fn lemma_adjacent_symmetric(g: GridModel, a: Position, b: Position)
    ensures
        g.adjacent(a, b) == g.adjacent(b, a),
{
    lemma_passage_symmetric(a, b);
}

/// Two cells joined by a passage are distinct cells of the grid that touch.
pub proof fn lemma_adjacent_cells(g: GridModel, a: Position, b: Position)
    requires
        g.wf(),
        g.adjacent(a, b),
    ensures
        g.contains(a),
        g.contains(b),
        coordinate_adjacent(a, b),
        a != b,
{
    let e = passage(a, b);
    assert(g.links[e.0].contains(e.1));
}

/// The links of a cell lead to the cells that it has a passage to.
pub proof fn lemma_links_are_passages(g: GridModel, p: Position, q: Position)
    requires
        g.wf(),
        g.contains(p),
    ensures
        g.links[p].contains(q) <==> g.adjacent(p, q),
{
    if g.links[p].contains(q) {
        assert(g.links[q].contains(p));
    }
    if g.adjacent(p, q) {
        let e = passage(p, q);
        assert(g.links[e.0].contains(e.1));
    }
}

/// A grid without any passage is well formed and has no passage; a grid
/// that has no passage is such a grid.
pub proof fn lemma_cleared(g: GridModel)
    requires
        g.wf(),
    ensures
        g.cleared().wf(),
        g.cleared().passages() == Set::<(Position, Position)>::empty(),
        g.cleared().edge_count() == 0,
        g.edge_count() == 0 ==> g == g.cleared(),
{
    let c = g.cleared();
    assert(c.passages() =~= Set::<(Position, Position)>::empty());
    if g.edge_count() == 0 {
        g.passages().lemma_len0_is_empty();
        assert forall|p: Position| g.contains(p) implies g.links[p] == Seq::<Position>::empty() by {
            if g.links[p].len() > 0 {
                let q = g.links[p][0];
                assert(g.links[p].contains(q));
                lemma_links_are_passages(g, p, q);
                assert(g.passages().contains(passage(p, q)));
            }
            assert(g.links[p] =~= Seq::<Position>::empty());
        }
        assert(g.links =~= c.links);
    }
}

/// Grids of the same size are the same grid once their passages are gone.
pub proof fn lemma_cleared_by_size(g: GridModel, h: GridModel)
    requires
        g.width == h.width,
        g.height == h.height,
    ensures
        g.cleared() == h.cleared(),
{
    assert(g.cleared().links =~= h.cleared().links);
}

/// Opening a passage between two touching cells of a grid gives a grid with
/// that passage besides those it had.
pub proof fn lemma_with_passage(g: GridModel, a: Position, b: Position)
    requires
        g.wf(),
        g.contains(a),
        g.contains(b),
        coordinate_adjacent(a, b),
    ensures
        g.with_passage(a, b).wf(),
        g.with_passage(a, b).width == g.width,
        g.with_passage(a, b).height == g.height,
        g.with_passage(a, b).passages() == g.passages().insert(passage(a, b)),
        g.with_passage(a, b).edge_count() == g.edge_count() + (if g.adjacent(a, b) {
            0nat
        } else {
            1nat
        }),
{
    let h = g.with_passage(a, b);
    if g.adjacent(a, b) {
        assert(g.passages().insert(passage(a, b)) =~= g.passages());
    } else {
        lemma_links_are_passages(g, a, b);
        lemma_links_are_passages(g, b, a);
        lemma_adjacent_symmetric(g, a, b);
        assert(h.links[a] == g.links[a].push(b));
        assert(h.links[b] == g.links[b].push(a));
        assert forall|p: Position| g.contains(p) && p != a && p != b implies #[trigger] h.links[p]
            == g.links[p] by {}
        assert forall|p: Position| h.contains(p) implies (
        #[trigger] h.links[p]).no_duplicates() by {
            assert(g.links[p].no_duplicates());
        }
        assert forall|p: Position, q: Position|
            h.contains(p) && #[trigger] h.links[p].contains(q) implies {
            &&& h.contains(q)
            &&& coordinate_adjacent(p, q)
            &&& h.links[q].contains(p)
        } by {
            lemma_push_contains(g.links[a], b, q);
            lemma_push_contains(g.links[b], a, q);
            if g.links[p].contains(q) {
                assert(g.links[q].contains(p));
                lemma_push_contains(g.links[a], b, p);
                lemma_push_contains(g.links[b], a, p);
            } else if p == a {
                lemma_push_contains(g.links[b], a, a);
            } else {
                lemma_push_contains(g.links[a], b, b);
            }
        }
        assert(h.passages() =~= g.passages().insert(passage(a, b))) by {
            assert forall|e: (Position, Position)|
                h.passages().contains(e) <==> g.passages().insert(passage(a, b)).contains(e) by {
                lemma_push_contains(g.links[a], b, e.1);
                lemma_push_contains(g.links[b], a, e.1);
            }
        }
    }
}

/// Every cell that a way through the maze passes lies on the grid.
pub proof fn lemma_walk_stays_on_grid(g: GridModel, w: Seq<Position>, k: int)
    requires
        g.wf(),
        g.is_walk(w),
        0 <= k < w.len(),
    ensures
        g.contains(w[k]),
    decreases k,
{
    if k > 0 {
        lemma_walk_stays_on_grid(g, w, k - 1);
        assert(g.passes(w, k - 1));
        lemma_adjacent_cells(g, w[k - 1], w[k]);
    }
}

/// A way through the maze can be walked backwards.
pub proof fn lemma_walk_reverse(g: GridModel, w: Seq<Position>)
    requires
        g.wf(),
        g.is_walk(w),
    ensures
        g.is_walk(w.reverse()),
        w.reverse()[0] == w.last(),
        w.reverse().last() == w[0],
{
    let r = w.reverse();
    lemma_walk_stays_on_grid(g, w, w.len() - 1);
    assert forall|i: int| 0 <= i < r.len() - 1 implies #[trigger] g.passes(r, i) by {
        let j = w.len() - 2 - i;
        assert(g.passes(w, j));
        lemma_adjacent_symmetric(g, w[j], w[j + 1]);
    }
}

/// Two ways through the maze, the second starting where the first ends, make
/// one way.
pub proof fn lemma_walk_concat(g: GridModel, u: Seq<Position>, v: Seq<Position>)
    requires
        g.is_walk(u),
        g.is_walk(v),
        u.last() == v[0],
    ensures
        g.is_walk(u + v.subrange(1, v.len() as int)),
        (u + v.subrange(1, v.len() as int))[0] == u[0],
        (u + v.subrange(1, v.len() as int)).last() == v.last(),
{
    let t = v.subrange(1, v.len() as int);
    let w = u + t;
    assert forall|i: int| 0 <= i < w.len() - 1 implies #[trigger] g.passes(w, i) by {
        if i < u.len() - 1 {
            assert(g.passes(u, i));
        } else if i == u.len() - 1 {
            assert(g.passes(v, 0));
        } else {
            let j = i - u.len() + 1;
            assert(g.passes(v, j));
        }
    }
}

/// If `b` can be reached from `a`, then `a` can be reached from `b`.
pub proof fn lemma_reachable_symmetric(g: GridModel, a: Position, b: Position)
    requires
        g.wf(),
        g.reachable(a, b),
    ensures
        g.reachable(b, a),
{
    let w = choose|w: Seq<Position>| g.joins(w, a, b);
    lemma_walk_reverse(g, w);
    assert(g.joins(w.reverse(), b, a));
}

/// If `b` can be reached from `a` and `c` from `b`, then `c` can be reached
/// from `a`.
pub proof fn lemma_reachable_transitive(g: GridModel, a: Position, b: Position, c: Position)
    requires
        g.reachable(a, b),
        g.reachable(b, c),
    ensures
        g.reachable(a, c),
{
    let u = choose|w: Seq<Position>| g.joins(w, a, b);
    let v = choose|w: Seq<Position>| g.joins(w, b, c);
    lemma_walk_concat(g, u, v);
    assert(g.joins(u + v.subrange(1, v.len() as int), a, c));
}

} // verus!
