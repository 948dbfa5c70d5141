//! Trees grown one leaf at a time, and why such a graph is connected and
//! free of round trips.

use vstd::prelude::*;
use crate::model::cell::{Position, coordinate_adjacent};
use crate::model::graph::{
    GridModel, lemma_adjacent_symmetric, lemma_reachable_symmetric, lemma_reachable_transitive,
    lemma_with_passage, passage,
};

verus! {

/// How a tree hangs from its root: for each cell but the root the cell it
/// hangs from, and how many passages lie between the cell and the root.
pub struct Hanging {
    pub root: Position,
    pub parent: Map<Position, Position>,
    pub depth: Map<Position, nat>,
}

impl Hanging {
    /// A tree of the root alone.
    pub open spec fn rooted_at(root: Position) -> Hanging {
        Hanging { root, parent: Map::empty(), depth: Map::empty() }
    }

    /// The tree with `leaf` hung from `anchor`.
    pub open spec fn with_leaf(self, leaf: Position, anchor: Position) -> Hanging {
        Hanging {
            root: self.root,
            parent: self.parent.insert(leaf, anchor),
            depth: self.depth.insert(leaf, self.depth[anchor] + 1),
        }
    }
}

/// Whether the passages of `g` are those of a tree on `members` that hangs
/// as `t` says: every member but the root is joined to the cell it hangs from,
/// which is a member nearer to the root, and there is no other passage.
pub open spec fn hangs_as(g: GridModel, members: Set<Position>, t: Hanging) -> bool {
    &&& members.contains(t.root)
    &&& forall|v: Position| #[trigger] members.contains(v) ==> g.contains(v)
    &&& forall|v: Position| #[trigger]
        members.contains(v) && v != t.root ==> {
            &&& members.contains(t.parent[v])
            &&& g.adjacent(v, t.parent[v])
            &&& t.depth[t.parent[v]] < t.depth[v]
        }
    &&& forall|e: (Position, Position)| #[trigger]
        g.passages().contains(e) ==> {
            &&& members.contains(e.0)
            &&& members.contains(e.1)
            &&& (e.0 != t.root && t.parent[e.0] == e.1) || (e.1 != t.root && t.parent[e.1] == e.0)
        }
}

/// A grid without passages holds the tree of any one of its cells alone.
pub proof fn lemma_tree_of_one(g: GridModel, root: Position)
    requires
        g.contains(root),
        g.passages() == Set::<(Position, Position)>::empty(),
    ensures
        hangs_as(g, set![root], Hanging::rooted_at(root)),
{
}

/// Hanging a new cell from a member by a new passage gives a tree again,
/// with one passage more.
pub proof fn lemma_tree_grows(
    g: GridModel,
    members: Set<Position>,
    t: Hanging,
    leaf: Position,
    anchor: Position,
)
    requires
        g.wf(),
        hangs_as(g, members, t),
        members.contains(anchor),
        !members.contains(leaf),
        g.contains(leaf),
        coordinate_adjacent(leaf, anchor),
    ensures
        hangs_as(g.with_passage(leaf, anchor), members.insert(leaf), t.with_leaf(leaf, anchor)),
        g.with_passage(leaf, anchor).wf(),
        g.with_passage(leaf, anchor).edge_count() == g.edge_count() + 1,
{
    let e = passage(leaf, anchor);
    let g2 = g.with_passage(leaf, anchor);
    let m2 = members.insert(leaf);
    let t2 = t.with_leaf(leaf, anchor);
    lemma_with_passage(g, leaf, anchor);
    assert(!g.passages().contains(e));
    assert forall|v: Position| #[trigger] m2.contains(v) && v != t2.root implies {
        &&& m2.contains(t2.parent[v])
        &&& g2.adjacent(v, t2.parent[v])
        &&& t2.depth[t2.parent[v]] < t2.depth[v]
    } by {
        if v != leaf {
            assert(members.contains(v));
            assert(g.adjacent(v, t.parent[v]));
        }
    }
    assert forall|d: (Position, Position)| #[trigger] g2.passages().contains(d) implies {
        &&& m2.contains(d.0)
        &&& m2.contains(d.1)
        &&& (d.0 != t2.root && t2.parent[d.0] == d.1) || (d.1 != t2.root && t2.parent[d.1] == d.0)
    } by {
        if d != e {
            assert(g.passages().contains(d));
        }
    }
}

/// In a tree every member can be reached from the root.
pub proof fn lemma_tree_reaches_root(g: GridModel, members: Set<Position>, t: Hanging, v: Position)
    requires
        hangs_as(g, members, t),
        members.contains(v),
    ensures
        g.reachable(v, t.root),
    decreases t.depth[v],
{
    if v == t.root {
        assert(g.joins(seq![v], v, v));
    } else {
        let up = t.parent[v];
        lemma_tree_reaches_root(g, members, t, up);
        let hop = seq![v, up];
        assert(g.is_walk(hop)) by {
            assert forall|i: int| 0 <= i < hop.len() - 1 implies #[trigger] g.passes(hop, i) by {
                assert(hop[0] == v && hop[1] == up);
            }
        }
        assert(g.joins(hop, v, up));
        lemma_reachable_transitive(g, v, up, t.root);
    }
}

/// A tree on all the cells of a grid joins every cell to every other.
pub proof fn lemma_tree_connected(g: GridModel, members: Set<Position>, t: Hanging)
    requires
        g.wf(),
        hangs_as(g, members, t),
        forall|p: Position| g.contains(p) ==> members.contains(p),
    ensures
        g.connected(),
{
    assert forall|a: Position, b: Position| g.contains(a) && g.contains(b) implies #[trigger]
        g.reachable(a, b) by {
        lemma_tree_reaches_root(g, members, t, a);
        lemma_tree_reaches_root(g, members, t, b);
        lemma_reachable_symmetric(g, b, t.root);
        lemma_reachable_transitive(g, a, t.root, b);
    }
}

/// A place of `c` whose cell lies at least as deep as every other cell of `c`.
proof fn lemma_deepest(c: Seq<Position>, depth: Map<Position, nat>, n: int) -> (m: int)
    requires
        1 <= n <= c.len(),
    ensures
        0 <= m < n,
        forall|i: int| 0 <= i < n ==> depth[c[i]] <= depth[c[m]],
    decreases n,
{
    if n == 1 {
        0
    } else {
        let m = lemma_deepest(c, depth, n - 1);
        if depth[c[n - 1]] > depth[c[m]] {
            n - 1
        } else {
            m
        }
    }
}

/// Of two cells of a tree joined by a passage, the shallower is the one the
/// deeper hangs from.
proof fn lemma_passage_goes_up(
    g: GridModel,
    members: Set<Position>,
    t: Hanging,
    low: Position,
    high: Position,
)
    requires
        hangs_as(g, members, t),
        g.adjacent(low, high),
        t.depth[high] <= t.depth[low],
    ensures
        low != t.root,
        t.parent[low] == high,
{
    let e = passage(low, high);
    assert(g.passages().contains(e));
    assert(members.contains(e.0) && members.contains(e.1));
    if high != t.root && t.parent[high] == low {
        assert(members.contains(high));
        assert(t.depth[low] < t.depth[high]);
    }
}

/// A tree has no round trip.
pub proof fn lemma_tree_acyclic(g: GridModel, members: Set<Position>, t: Hanging)
    requires
        hangs_as(g, members, t),
    ensures
        g.acyclic(),
{
    assert forall|c: Seq<Position>| !g.is_cycle(c) by {
        if g.is_cycle(c) {
            let n = c.len() as int;
            let m = lemma_deepest(c, t.depth, n);
            let before = if m == 0 {
                n - 1
            } else {
                m - 1
            };
            let after = if m == n - 1 {
                0
            } else {
                m + 1
            };
            assert(g.adjacent(c[before], c[m])) by {
                if m > 0 {
                    assert(g.passes(c, m - 1));
                }
            }
            assert(g.adjacent(c[m], c[after])) by {
                if m < n - 1 {
                    assert(g.passes(c, m));
                }
            }
            lemma_adjacent_symmetric(g, c[before], c[m]);
            lemma_passage_goes_up(g, members, t, c[m], c[before]);
            lemma_passage_goes_up(g, members, t, c[m], c[after]);
            assert(before != after);
            assert(c[before] != c[after]);
        }
    }
}

} // verus!
