//! A mouse that explores the maze breadth first, on foot: between two cells
//! of the search it walks back to where their ways from the start part, and
//! forth again.

use vstd::prelude::*;
use crate::error::MazeError;
use crate::model::cell::{
    Position, contains_position, find_position, first_index, lemma_first_index,
    lemma_push_contains, reverse_positions,
};
use crate::model::graph::{
    GridModel, lemma_adjacent_cells, lemma_index_in_range, lemma_index_injective,
    lemma_links_are_passages, lemma_walk_concat, lemma_walk_reverse, lemma_walk_stays_on_grid,
};
use crate::model::grid::Grid;

verus! {

/// The cells through which a search came to `p`, from the start down to the
/// cell that `p` was first seen from: `previous` holds for each cell the
/// cell it was first seen from, and `depth` how far from the start it was.
pub open spec fn way_to(
    previous: Map<Position, Position>,
    depth: Map<Position, nat>,
    p: Position,
) -> Seq<Position>
    decreases depth[p],
{
    if previous.dom().contains(p) && depth[previous[p]] < depth[p] {
        way_to(previous, depth, previous[p]).push(previous[p])
    } else {
        Seq::empty()
    }
}

/// Where a breadth-first exploration on foot stands.
pub struct Exploration {
    /// The cells walked so far.
    pub path: Seq<Position>,
    /// The cells seen and not yet explored, the next one first.
    pub to_visit: Seq<Position>,
    /// The cells explored.
    pub visited: Seq<Position>,
    /// For each cell that was seen from another, that other cell.
    pub previous: Map<Position, Position>,
    /// For each cell seen, how many passages lie between the start and it
    /// on the way by which it was seen.
    pub depth: Map<Position, nat>,
}

impl Exploration {
    /// Before the first step: nothing walked, the start waiting.
    pub open spec fn begin(start: Position) -> Exploration {
        Exploration {
            path: Seq::empty(),
            to_visit: seq![start],
            visited: Seq::empty(),
            previous: Map::empty(),
            depth: Map::empty().insert(start, 0nat),
        }
    }

    /// The way from the start to the cell the walk stands on, that cell
    /// included; empty before the first step.
    pub open spec fn way_here(self) -> Seq<Position> {
        if self.path.len() > 0 {
            way_to(self.previous, self.depth, self.path.last()).push(self.path.last())
        } else {
            Seq::empty()
        }
    }

    /// The cells walked once the walk has gone on to `next`.
    pub open spec fn path_through(self, next: Position) -> Seq<Position> {
        (self.path + detour(way_to(self.previous, self.depth, next), self.way_here())).push(next)
    }

    /// The exploration after it looked from `from` at `neighbor`: a cell
    /// neither explored nor seen before is noted as seen from `from` and
    /// waits to be explored.
    pub open spec fn looks_at(self, from: Position, neighbor: Position) -> Exploration {
        if !self.visited.contains(neighbor) && !self.previous.dom().contains(neighbor) {
            Exploration {
                to_visit: self.to_visit.push(neighbor),
                previous: self.previous.insert(neighbor, from),
                depth: self.depth.insert(neighbor, self.depth[from] + 1),
                ..self
            }
        } else {
            self
        }
    }

    /// Whether the next turn ends the exploration on `goal`: the first
    /// waiting cell is `goal` and was not explored before.
    pub open spec fn arrives_at(self, goal: Position) -> bool {
        self.to_visit.len() > 0 && self.to_visit[0] == goal && !self.visited.contains(goal)
    }

    /// The exploration one turn later. The first waiting cell is taken. If
    /// it was explored before, nothing else happens. Else the walk goes to
    /// it, the cell counts as explored, and the walk looks at the cells that
    /// it has a link to in `g`, in the order of the links.
    pub open spec fn turn(self, g: GridModel) -> Exploration {
        let next = self.to_visit[0];
        let rest = self.to_visit.remove(0);
        if self.visited.contains(next) {
            Exploration { to_visit: rest, ..self }
        } else {
            (Exploration {
                path: self.path_through(next),
                to_visit: rest,
                visited: self.visited.push(next),
                ..self
            }).looks_around(next, g.links[next], 0)
        }
    }

    /// The exploration after it looked from `from` at the cells of
    /// `neighbors` from place `i` on, in order.
    pub open spec fn looks_around(
        self,
        from: Position,
        neighbors: Seq<Position>,
        i: int,
    ) -> Exploration
        decreases neighbors.len() - i,
    {
        if 0 <= i < neighbors.len() {
            self.looks_at(from, neighbors[i]).looks_around(from, neighbors, i + 1)
        } else {
            self
        }
    }
}

/// What a breadth-first exploration on foot comes to within `fuel` turns:
/// `None` if it needs more turns, else the cells it walked until it stood
/// on `goal`, or `None` if it ran out of cells to explore.
pub open spec fn explore(
    g: GridModel,
    goal: Position,
    s: Exploration,
    fuel: nat,
) -> Option<Option<Seq<Position>>>
    decreases fuel,
{
    if fuel == 0 {
        None
    } else if s.to_visit.len() == 0 {
        Some(None)
    } else if s.arrives_at(goal) {
        Some(Some(s.path_through(goal)))
    } else {
        explore(g, goal, s.turn(g), (fuel - 1) as nat)
    }
}

/// More turns than an exploration needs do not change what it comes to.
pub proof fn lemma_explore_settles(
    g: GridModel,
    goal: Position,
    s: Exploration,
    fuel: nat,
    more: nat,
)
    requires
        explore(g, goal, s, fuel) is Some,
        fuel <= more,
    ensures
        explore(g, goal, s, more) == explore(g, goal, s, fuel),
    decreases fuel,
{
    if s.to_visit.len() > 0 && !s.arrives_at(goal) {
        lemma_explore_settles(g, goal, s.turn(g), (fuel - 1) as nat, (more - 1) as nat);
    }
}

/// An exploration that is some turns ahead of another stays ahead by one
/// turn more after its next turn.
proof fn lemma_one_turn_on(
    g: GridModel,
    goal: Position,
    origin: Exploration,
    before: Exploration,
    done: nat,
)
    requires
        before.to_visit.len() > 0,
        !before.arrives_at(goal),
        forall|f: nat| #[trigger]
            explore(g, goal, before, f) == explore(g, goal, origin, done + f),
    ensures
        forall|f: nat| #[trigger]
            explore(g, goal, before.turn(g), f) == explore(
                g,
                goal,
                origin,
                done + 1 + f,
            ),
{
    assert forall|f: nat| #[trigger]
        explore(g, goal, before.turn(g), f) == explore(
            g,
            goal,
            origin,
            done + 1 + f,
        ) by {
        assert(explore(g, goal, before, (f + 1) as nat) == explore(
            g,
            goal,
            origin,
            done + (f + 1) as nat,
        ));
    }
}

/// An exploration that is some turns ahead of another and ends with its
/// next turn shows what the other comes to.
proof fn lemma_last_turn(
    g: GridModel,
    goal: Position,
    origin: Exploration,
    before: Exploration,
    done: nat,
)
    requires
        before.to_visit.len() == 0 || before.arrives_at(goal),
        forall|f: nat| #[trigger]
            explore(g, goal, before, f) == explore(g, goal, origin, done + f),
    ensures
        explore(g, goal, origin, done + 1) == (if before.to_visit.len() == 0 {
            Some(None::<Seq<Position>>)
        } else {
            Some(Some(before.path_through(goal)))
        }),
{
    assert(explore(g, goal, before, 1) == explore(g, goal, origin, done + 1));
}

/// What a search handed back, as the exploration knows it.
pub open spec fn outcome_of(r: Result<Vec<Position>, MazeError>) -> Option<Seq<Position>> {
    match r {
        Ok(path) => Some(path@),
        Err(_) => None,
    }
}

/// Something that finds a way through a maze.
pub trait Algo {
    /// The cell that the search sets out from.
    spec fn start(&self) -> Position;

    /// A way through the maze from the start to `end_pos`.
    ///
    /// The search is refused with `InvalidPosition` when the start or
    /// `end_pos` is not on the grid, and fails with `UnreachableGoal` when
    /// no way leads from the one to the other.
    fn solve(&self, end_pos: Position, grid: &Grid) -> (r: Result<Vec<Position>, MazeError>)
        requires
            grid.wf(),
        ensures
            r == Err::<Vec<Position>, MazeError>(MazeError::InvalidPosition) <==> !(
            grid@.contains(self.start()) && grid@.contains(end_pos)),
            r == Err::<Vec<Position>, MazeError>(MazeError::UnreachableGoal) <==> grid@.contains(
                self.start(),
            ) && grid@.contains(end_pos) && !grid@.reachable(self.start(), end_pos),
            r is Ok <==> grid@.contains(self.start()) && grid@.contains(end_pos)
                && grid@.reachable(self.start(), end_pos),
            r matches Ok(path) ==> grid@.joins(path@, self.start(), end_pos),
            r matches Ok(path) ==> forall|w: Seq<Position>| #[trigger]
                grid@.is_shortest(w, self.start(), end_pos) ==> path@.len() >= w.len(),
    ;
}

/// For each cell, the cell from which the search first saw it.
struct Discoveries {
    /// Row by row, the discoverer of each cell that has one.
    previous: Vec<Option<Position>>,
    /// How many cells lie between a cell and the one without a discoverer.
    depth: Ghost<Map<Position, nat>>,
}

/// How many places of `table` are empty.
spec fn vacancies(table: Seq<Option<Position>>) -> nat
    decreases table.len(),
{
    if table.len() == 0 {
        0
    } else {
        vacancies(table.drop_last()) + if table.last() is None {
            1nat
        } else {
            0nat
        }
    }
}

/// Filling an empty place leaves one empty place fewer.
proof fn lemma_vacancy_filled(table: Seq<Option<Position>>, k: int, q: Position)
    requires
        0 <= k < table.len(),
        table[k] is None,
    ensures
        vacancies(table.update(k, Some(q))) == vacancies(table) - 1,
    decreases table.len(),
{
    let filled = table.update(k, Some(q));
    if k == table.len() - 1 {
        assert(filled.drop_last() =~= table.drop_last());
    } else {
        lemma_vacancy_filled(table.drop_last(), k, q);
        assert(filled.drop_last() =~= table.drop_last().update(k, Some(q)));
    }
}

impl Discoveries {
    /// The discoverer of `p`, if it has one.
    spec fn entry(&self, g: GridModel, p: Position) -> Option<Position> {
        self.previous@[g.index_of(p)]
    }

    /// The table as a map from the cells that have a discoverer.
    spec fn as_map(&self, g: GridModel) -> Map<Position, Position> {
        Map::new(
            |p: Position| g.contains(p) && self.entry(g, p) is Some,
            |p: Position| self.entry(g, p)->0,
        )
    }

    /// Every discoverer is a cell of the grid, joined by a passage to the
    /// cell it discovered and nearer to the start than it.
    spec fn wf(&self, g: GridModel) -> bool {
        &&& self.previous@.len() == g.width * g.height
        &&& forall|p: Position|
            g.contains(p) ==> (#[trigger] self.entry(g, p) matches Some(q) ==> {
                &&& g.contains(q)
                &&& g.adjacent(q, p)
                &&& self.depth@[q] < self.depth@[p]
            })
    }

    /// The discoverers that lead to `p`, from the start down to the
    /// discoverer of `p`.
    spec fn chain(&self, g: GridModel, p: Position) -> Seq<Position> {
        way_to(self.as_map(g), self.depth@, p)
    }

    /// How the chain of a cell follows from the chain of its discoverer.
    proof fn lemma_chain(&self, g: GridModel, p: Position)
        requires
            self.wf(g),
            g.contains(p),
        ensures
            self.chain(g, p) == (match self.entry(g, p) {
                Some(q) => self.chain(g, q).push(q),
                None => Seq::empty(),
            }),
    {
    }

    /// The table for a grid on which nothing was discovered yet.
    fn new(grid: &Grid, Ghost(start): Ghost<Position>) -> (table: Discoveries)
        requires
            grid.wf(),
        ensures
            table.wf(grid@),
            forall|p: Position| grid@.contains(p) ==> #[trigger] table.entry(grid@, p) is None,
            table.as_map(grid@) == Map::<Position, Position>::empty(),
            table.depth@ == Map::<Position, nat>::empty().insert(start, 0nat),
    {
        let (columns, rows) = grid.get_number_of_cells_x_y();
        let width: usize = columns as usize;
        let height: usize = rows as usize;
        assert(width * height <= 65535 * 65535) by (nonlinear_arith)
            requires
                0 <= width <= 65535,
                0 <= height <= 65535,
        ;
        let total: usize = width * height;
        let mut previous: Vec<Option<Position>> = Vec::new();
        let mut k: usize = 0;
        while k < total
            invariant
                k <= total,
                previous.len() == k,
                forall|i: int| 0 <= i < k ==> previous@[i] is None,
            decreases total - k,
        {
            previous.push(None);
            k = k + 1;
        }
        let table = Discoveries { previous, depth: Ghost(Map::empty().insert(start, 0nat)) };
        proof {
            assert forall|p: Position| !(#[trigger] table.as_map(grid@).dom().contains(p)) by {
                if grid@.contains(p) {
                    lemma_index_in_range(grid@, p);
                }
            }
            assert(table.as_map(grid@) =~= Map::<Position, Position>::empty());
            assert forall|p: Position| grid@.contains(p) implies #[trigger] table.entry(
                grid@,
                p,
            ) is None by {
                lemma_index_in_range(grid@, p);
            }
        }
        table
    }

    /// The discoverer of a cell of the grid, if it has one.
    fn get(&self, grid: &Grid, pos: Position) -> (found: Option<Position>)
        requires
            grid.wf(),
            self.wf(grid@),
            grid@.contains(pos),
        ensures
            found == self.entry(grid@, pos),
    {
        let i = grid.position_index(pos);
        self.previous[i]
    }

    /// Notes that `child` was first seen from `parent`.
    fn record(&mut self, grid: &Grid, child: Position, parent: Position)
        requires
            grid.wf(),
            old(self).wf(grid@),
            grid@.contains(child),
            grid@.contains(parent),
            grid@.adjacent(parent, child),
            old(self).entry(grid@, child) is None,
            forall|c: Position|
                grid@.contains(c) ==> #[trigger] old(self).entry(grid@, c) != Some(child),
        ensures
            final(self).wf(grid@),
            final(self).entry(grid@, child) == Some(parent),
            forall|c: Position|
                grid@.contains(c) && c != child ==> #[trigger] final(self).entry(grid@, c)
                    == old(self).entry(grid@, c),
            vacancies(final(self).previous@) == vacancies(old(self).previous@) - 1,
            final(self).as_map(grid@) == old(self).as_map(grid@).insert(child, parent),
            final(self).depth@ == old(self).depth@.insert(child, old(self).depth@[parent] + 1),
    {
        let i = grid.position_index(child);
        proof {
            lemma_vacancy_filled(self.previous@, i as int, parent);
        }
        self.previous.set(i, Some(parent));
        proof {
            let g = grid@;
            grid.lemma_view();
            lemma_adjacent_cells(g, parent, child);
            let deeper = self.depth@[parent] + 1;
            self.depth@ = self.depth@.insert(child, deeper);
            assert forall|c: Position| g.contains(c) && c != child implies #[trigger] self.entry(
                g,
                c,
            ) == old(self).entry(g, c) by {
                lemma_index_in_range(g, c);
                if g.index_of(c) == g.index_of(child) {
                    lemma_index_injective(g, c, child);
                }
            }
            assert forall|p: Position| g.contains(p) implies (#[trigger] self.entry(
                g,
                p,
            ) matches Some(q) ==> {
                &&& g.contains(q)
                &&& g.adjacent(q, p)
                &&& self.depth@[q] < self.depth@[p]
            }) by {
                if p != child {
                    assert(self.entry(g, p) == old(self).entry(g, p));
                    assert(old(self).entry(g, p) != Some(child));
                }
            }
            assert(self.as_map(g) =~= old(self).as_map(g).insert(child, parent)) by {
                assert forall|p: Position|
                    self.as_map(g).dom().contains(p) <==> old(self).as_map(g).insert(
                        child,
                        parent,
                    ).dom().contains(p) by {
                    if g.contains(p) && p != child {
                        assert(self.entry(g, p) == old(self).entry(g, p));
                    }
                }
                assert forall|p: Position| self.as_map(g).dom().contains(p) implies self.as_map(
                    g,
                )[p] == old(self).as_map(g).insert(child, parent)[p] by {
                    if p != child {
                        assert(self.entry(g, p) == old(self).entry(g, p));
                    }
                }
            }
        }
    }
}

/// The cells through which the search came to `pos`, from the start down
/// to the discoverer of `pos`. The cell `pos` itself is not among them.
fn construct_path_to_pos(pos: &Position, previouses: &Discoveries, grid: &Grid) -> (v: Vec<
    Position,
>)
    requires
        grid.wf(),
        previouses.wf(grid@),
        grid@.contains(*pos),
    ensures
        v@ == way_to(previouses.as_map(grid@), previouses.depth@, *pos),
{
    let mut p = *pos;
    let mut v: Vec<Position> = Vec::new();
    let mut found = previouses.get(grid, p);
    proof {
        assert(previouses.chain(grid@, *pos) =~= previouses.chain(grid@, p) + v@.reverse());
    }
    while found.is_some()
        invariant
            grid.wf(),
            previouses.wf(grid@),
            grid@.contains(p),
            found == previouses.entry(grid@, p),
            previouses.chain(grid@, *pos) == previouses.chain(grid@, p) + v@.reverse(),
        decreases previouses.depth@[p],
    {
        let q = found.unwrap();
        proof {
            previouses.lemma_chain(grid@, p);
            assert(v@.push(q).reverse() =~= seq![q] + v@.reverse());
            assert(previouses.chain(grid@, q).push(q) + v@.reverse() =~= previouses.chain(
                grid@,
                q,
            ) + (seq![q] + v@.reverse()));
        }
        v.push(q);
        p = q;
        found = previouses.get(grid, p);
    }
    proof {
        previouses.lemma_chain(grid@, p);
        assert(previouses.chain(grid@, p) + v@.reverse() =~= v@.reverse());
    }
    reverse_positions(&v)
}

/// The last place below `n` at which `next` holds a cell that `current`
/// holds too, or -1 if there is none.
pub open spec fn deepest_shared(next: Seq<Position>, current: Seq<Position>, n: int) -> int
    decreases n,
{
    if n <= 0 {
        -1
    } else if current.contains(next[n - 1]) {
        n - 1
    } else {
        deepest_shared(next, current, n - 1)
    }
}

/// Where two ways from the start part: the place in `current`, and the
/// place in `next`, of the last cell of `next` that `current` holds too.
/// Both are zero if the two ways share no cell.
pub open spec fn branch_point(next: Seq<Position>, current: Seq<Position>) -> (int, int) {
    let i = deepest_shared(next, current, next.len() as int);
    if i >= 0 {
        (first_index(current, next[i]), i)
    } else {
        (0, 0)
    }
}

/// The cells to walk from the end of `current` to the end of `next`: back
/// along `current` to the branch point, the branch point included and the
/// end of `current` left out, then forth along `next` from just after its
/// branch point.
pub open spec fn detour(next: Seq<Position>, current: Seq<Position>) -> Seq<Position> {
    let (in_current, in_next) = branch_point(next, current);
    let back = if current.len() > 0 {
        current.subrange(in_current, current.len() - 1).reverse()
    } else {
        Seq::empty()
    };
    let forth = if in_next + 1 <= next.len() {
        next.subrange(in_next + 1, next.len() as int)
    } else {
        Seq::empty()
    };
    back + forth
}

/// Where the deepest shared cell lies, if there is one.
proof fn lemma_deepest_shared(next: Seq<Position>, current: Seq<Position>, n: int)
    requires
        0 <= n <= next.len(),
    ensures
        -1 <= deepest_shared(next, current, n) < n,
        deepest_shared(next, current, n) >= 0 ==> current.contains(
            next[deepest_shared(next, current, n)],
        ),
        forall|i: int|
            deepest_shared(next, current, n) < i < n ==> !current.contains(#[trigger] next[i]),
    decreases n,
{
    if n > 0 && !current.contains(next[n - 1]) {
        lemma_deepest_shared(next, current, n - 1);
    }
}

/// Lengthens `current_path` by the cells to walk from the end of
/// `absolute_path_to_current_pos` to the end of `absolute_path_to_next_pos`.
pub fn backtrack_to_current_pos(
    current_path: &mut Vec<Position>,
    absolute_path_to_next_pos: &Vec<Position>,
    absolute_path_to_current_pos: &Vec<Position>,
)
    ensures
        final(current_path)@ == old(current_path)@ + detour(
            absolute_path_to_next_pos@,
            absolute_path_to_current_pos@,
        ),
{
    let ghost next = absolute_path_to_next_pos@;
    let ghost current = absolute_path_to_current_pos@;
    let mut index_common_pos_in_current_path: usize = 0;
    let mut index_common_pos_in_next_pos_path: usize = 0;
    let mut i: usize = absolute_path_to_next_pos.len();
    let mut searching: bool = true;
    while searching && i > 0
        invariant
            next == absolute_path_to_next_pos@,
            current == absolute_path_to_current_pos@,
            i <= next.len(),
            searching ==> deepest_shared(next, current, next.len() as int) == deepest_shared(
                next,
                current,
                i as int,
            ),
            searching ==> index_common_pos_in_current_path == 0
                && index_common_pos_in_next_pos_path == 0,
            !searching ==> (
                index_common_pos_in_current_path as int,
                index_common_pos_in_next_pos_path as int,
            ) == branch_point(next, current),
            !searching ==> index_common_pos_in_current_path < current.len(),
            !searching ==> index_common_pos_in_next_pos_path < next.len(),
        decreases i,
    {
        i = i - 1;
        match find_position(absolute_path_to_current_pos, absolute_path_to_next_pos[i]) {
            Some(v) => {
                index_common_pos_in_current_path = v;
                index_common_pos_in_next_pos_path = i;
                searching = false;
            },
            None => {},
        }
    }
    assert((index_common_pos_in_current_path as int, index_common_pos_in_next_pos_path as int)
        == branch_point(next, current));

    let mut return_to_common_root_path: Vec<Position> = Vec::new();
    if absolute_path_to_current_pos.len() > 0 {
        let mut k: usize = absolute_path_to_current_pos.len() - 1;
        while k > index_common_pos_in_current_path
            invariant
                current == absolute_path_to_current_pos@,
                index_common_pos_in_current_path <= k <= current.len() - 1,
                return_to_common_root_path@ == current.subrange(
                    k as int,
                    current.len() - 1,
                ).reverse(),
            decreases k,
        {
            k = k - 1;
            return_to_common_root_path.push(absolute_path_to_current_pos[k]);
            assert(return_to_common_root_path@ =~= current.subrange(
                k as int,
                current.len() - 1,
            ).reverse());
        }
    }
    let mut to_current_pos: Vec<Position> = Vec::new();
    let mut j: usize = index_common_pos_in_next_pos_path + 1;
    while j < absolute_path_to_next_pos.len()
        invariant
            next == absolute_path_to_next_pos@,
            index_common_pos_in_next_pos_path + 1 <= j,
            index_common_pos_in_next_pos_path + 1 <= next.len() ==> j <= next.len(),
            index_common_pos_in_next_pos_path + 1 > next.len() ==> to_current_pos@.len() == 0,
            j <= next.len() ==> to_current_pos@ == next.subrange(
                index_common_pos_in_next_pos_path + 1,
                j as int,
            ),
        decreases next.len() - j,
    {
        to_current_pos.push(absolute_path_to_next_pos[j]);
        assert(to_current_pos@ =~= next.subrange(
            index_common_pos_in_next_pos_path + 1,
            j + 1,
        ));
        j = j + 1;
    }
    let ghost back = return_to_common_root_path@;
    let ghost forth = to_current_pos@;
    proof {
        if current.len() > 0 {
            assert(back == current.subrange(
                index_common_pos_in_current_path as int,
                current.len() - 1,
            ).reverse());
        }
        if index_common_pos_in_next_pos_path + 1 <= next.len() {
            assert(forth == next.subrange(
                index_common_pos_in_next_pos_path + 1,
                next.len() as int,
            ));
        }
        assert(detour(next, current) == back + forth);
    }
    current_path.append(&mut return_to_common_root_path);
    current_path.append(&mut to_current_pos);
    assert(current_path@ =~= old(current_path)@ + (back + forth));
}

/// The exploration that the lists and the table of a search stand for.
spec fn state_of(
    path: Seq<Position>,
    to_visit: Seq<Position>,
    visited: Seq<Position>,
    table: &Discoveries,
    g: GridModel,
) -> Exploration {
    Exploration { path, to_visit, visited, previous: table.as_map(g), depth: table.depth@ }
}

/// Whether the search has seen `c`: it is the start, or it has a discoverer.
spec fn known(table: &Discoveries, g: GridModel, start: Position, c: Position) -> bool {
    c == start || table.entry(g, c) is Some
}

/// Whether every discoverer has been seen itself, and the start has no
/// discoverer.
spec fn rooted(table: &Discoveries, g: GridModel, start: Position) -> bool {
    &&& table.entry(g, start) is None
    &&& forall|c: Position|
        g.contains(c) ==> (#[trigger] table.entry(g, c) matches Some(q) ==> known(
            table,
            g,
            start,
            q,
        ))
}

/// A way through the maze stays one when it is lengthened through a passage.
proof fn lemma_walk_push(g: GridModel, w: Seq<Position>, c: Position)
    requires
        g.is_walk(w),
        g.adjacent(w.last(), c),
    ensures
        g.is_walk(w.push(c)),
{
    let longer = w.push(c);
    assert forall|i: int| 0 <= i < longer.len() - 1 implies #[trigger] g.passes(longer, i) by {
        if i < w.len() - 1 {
            assert(g.passes(w, i));
        }
    }
}

/// A stretch of a way through the maze is a way through the maze.
proof fn lemma_walk_stretch(g: GridModel, w: Seq<Position>, a: int, b: int)
    requires
        g.wf(),
        g.is_walk(w),
        0 <= a < b <= w.len(),
    ensures
        g.is_walk(w.subrange(a, b)),
{
    let part = w.subrange(a, b);
    lemma_walk_stays_on_grid(g, w, a);
    assert forall|i: int| 0 <= i < part.len() - 1 implies #[trigger] g.passes(part, i) by {
        assert(g.passes(w, a + i));
    }
}

/// The discoverers that lead to a cell the search has seen, with the cell
/// itself at the end, are a way through the maze from the start.
proof fn lemma_chain_is_walk(table: &Discoveries, g: GridModel, start: Position, c: Position)
    requires
        g.wf(),
        table.wf(g),
        rooted(table, g, start),
        g.contains(start),
        g.contains(c),
        known(table, g, start, c),
    ensures
        g.is_walk(table.chain(g, c).push(c)),
        table.chain(g, c).push(c)[0] == start,
    decreases table.depth@[c],
{
    table.lemma_chain(g, c);
    match table.entry(g, c) {
        None => {
            assert(table.chain(g, c).push(c) =~= seq![start]);
        },
        Some(q) => {
            lemma_chain_is_walk(table, g, start, q);
            lemma_walk_push(g, table.chain(g, q).push(q), c);
        },
    }
}

/// Walking back along one way from the start and forth along another is a
/// way through the maze.
proof fn lemma_detour_is_walk(
    g: GridModel,
    path: Seq<Position>,
    current: Seq<Position>,
    next: Seq<Position>,
    goal: Position,
)
    requires
        g.wf(),
        g.is_walk(path),
        g.is_walk(current),
        g.is_walk(next.push(goal)),
        path.last() == current.last(),
        next.len() >= 1,
        next[0] == current[0],
    ensures
        g.is_walk((path + detour(next, current)).push(goal)),
        (path + detour(next, current)).push(goal)[0] == path[0],
{
    let i = deepest_shared(next, current, next.len() as int);
    lemma_deepest_shared(next, current, next.len() as int);
    assert(current.contains(next[0])) by {
        assert(current[0] == next[0]);
    }
    assert(i >= 0) by {
        if i < 0 {
            assert(!current.contains(next[0]));
        }
    }
    lemma_first_index(current, next[i], current.index_of(next[i]));
    let ic = first_index(current, next[i]);
    let whole = next.push(goal);
    let back_walk = current.subrange(ic, current.len() as int);
    lemma_walk_stretch(g, current, ic, current.len() as int);
    lemma_walk_reverse(g, back_walk);
    let returning = back_walk.reverse();
    lemma_walk_concat(g, path, returning);
    let back = current.subrange(ic, current.len() - 1).reverse();
    assert(returning.subrange(1, returning.len() as int) =~= back);
    let forth_walk = whole.subrange(i, whole.len() as int);
    lemma_walk_stretch(g, whole, i, whole.len() as int);
    lemma_walk_concat(g, path + back, forth_walk);
    let forth = next.subrange(i + 1, next.len() as int);
    assert(forth_walk.subrange(1, forth_walk.len() as int) =~= forth.push(goal));
    assert((path + back) + forth.push(goal) =~= (path + (back + forth)).push(goal));
    assert(detour(next, current) == back + forth);
}

/// A way through the maze that sets out from a set of cells which passages
/// do not lead out of stays in that set.
proof fn lemma_walk_stays_inside(g: GridModel, inside: Seq<Position>, w: Seq<Position>, k: int)
    requires
        g.is_walk(w),
        inside.contains(w[0]),
        forall|v: Position, x: Position|
            inside.contains(v) && #[trigger] g.adjacent(v, x) ==> inside.contains(x),
        0 <= k < w.len(),
    ensures
        inside.contains(w[k]),
    decreases k,
{
    if k > 0 {
        lemma_walk_stays_inside(g, inside, w, k - 1);
        assert(g.passes(w, k - 1));
    }
}

/// A mouse that explores the maze breadth first and walks every step of it.
pub struct BFSMouse {
    pos: Position,
}

impl BFSMouse {
    /// Moves the mouse to `position`.
    pub fn set_new_position(&mut self, position: Position)
        ensures
            final(self).start() == position,
    {
        self.pos = position;
    }

    /// A mouse that stands on `pos`.
    pub fn new(pos: Position) -> (mouse: BFSMouse)
        ensures
            mouse.start() == pos,
    {
        Self { pos: pos }
    }
}

impl Algo for BFSMouse {
    closed spec fn start(&self) -> Position {
        self.pos
    }

    /// The way the mouse walks while it explores the maze breadth first
    /// from where it stands until it steps on `end_pos`.
    ///
    /// The cells are explored in the order in which a breadth-first search
    /// takes them from its queue. To come to the next of them the mouse
    /// walks back towards the start as far as the way to that cell parts
    /// from the way to the cell it stands on, and forth from there. Every
    /// cell it passes is part of the result.
    fn solve(&self, end_pos: Position, grid: &Grid) -> (r: Result<Vec<Position>, MazeError>)
        ensures
            grid@.contains(self.start()) && grid@.contains(end_pos) ==> exists|fuel: nat|
                #[trigger] explore(
                    grid@,
                    end_pos,
                    Exploration::begin(self.start()),
                    fuel,
                ) == Some(outcome_of(r)),
    {
        let ghost g = grid@;
        let ghost origin = Exploration::begin(self.pos);
        let ghost mut done: nat = 0;
        let start = self.pos;
        if !grid.has_position(start) || !grid.has_position(end_pos) {
            return Err(MazeError::InvalidPosition);
        }
        let mut path: Vec<Position> = Vec::new();
        let mut to_visit: Vec<Position> = Vec::new();
        to_visit.push(start);
        let mut visited: Vec<Position> = Vec::new();
        let mut path_to_visited = Discoveries::new(grid, Ghost(start));
        proof {
            grid.lemma_view();
            assert(to_visit@ =~= seq![start]);
            assert(state_of(path@, to_visit@, visited@, &path_to_visited, g) == origin);
            assert forall|c: Position|
                g.contains(c) && #[trigger] known(
                    &path_to_visited,
                    g,
                    start,
                    c,
                ) implies to_visit@.contains(c) by {
                assert(path_to_visited.entry(g, c) is None);
                assert(to_visit@[0] == start);
            }
        }
        while !to_visit.is_empty()
            invariant
                g == grid@,
                grid.wf(),
                g.wf(),
                start == self.pos,
                g.contains(start),
                g.contains(end_pos),
                origin == Exploration::begin(start),
                forall|f: nat| #[trigger]
                    explore(
                        g,
                        end_pos,
                        state_of(path@, to_visit@, visited@, &path_to_visited, g),
                        f,
                    ) == explore(g, end_pos, origin, done + f),
                path_to_visited.wf(g),
                path_to_visited.entry(g, start) is None,
                forall|c: Position|
                    g.contains(c) ==> (#[trigger] path_to_visited.entry(g, c) matches Some(q)
                        ==> visited@.contains(q)),
                forall|c: Position|
                    g.contains(c) && #[trigger] known(&path_to_visited, g, start, c)
                        ==> visited@.contains(c) || to_visit@.contains(c),
                forall|i: int|
                    0 <= i < visited@.len() ==> g.contains(#[trigger] visited@[i]) && known(
                        &path_to_visited,
                        g,
                        start,
                        visited@[i],
                    ),
                forall|i: int|
                    0 <= i < to_visit@.len() ==> g.contains(#[trigger] to_visit@[i]) && known(
                        &path_to_visited,
                        g,
                        start,
                        to_visit@[i],
                    ),
                forall|v: Position, x: Position|
                    visited@.contains(v) && #[trigger] g.adjacent(v, x) ==> known(
                        &path_to_visited,
                        g,
                        start,
                        x,
                    ),
                !visited@.contains(end_pos),
                visited@.len() == 0 ==> path@.len() == 0 && to_visit@ == seq![start],
                visited@.len() > 0 ==> g.is_walk(path@) && path@[0] == start && visited@.contains(
                    path@.last(),
                ) && visited@.contains(start),
            decreases vacancies(path_to_visited.previous@) + to_visit@.len(),
        {
            let ghost queue_before = to_visit@;
            let ghost before = state_of(path@, to_visit@, visited@, &path_to_visited, g);
            let ghost budget = vacancies(path_to_visited.previous@) + to_visit@.len();
            let next_pos: Position = to_visit.remove(0);
            proof {
                assert(queue_before[0] == next_pos);
                assert forall|c: Position| queue_before.contains(c) implies c == next_pos
                    || to_visit@.contains(c) by {
                    let k = queue_before.index_of(c);
                    if k > 0 {
                        assert(to_visit@[k - 1] == c);
                    }
                }
                assert forall|i: int| 0 <= i < to_visit@.len() implies g.contains(
                    #[trigger] to_visit@[i],
                ) && known(&path_to_visited, g, start, to_visit@[i]) by {
                    assert(to_visit@[i] == queue_before[i + 1]);
                }
            }
            if !contains_position(&visited, next_pos) {
                let absolute_path_to_next_pos: Vec<Position> = construct_path_to_pos(
                    &next_pos,
                    &path_to_visited,
                    grid,
                );
                let mut absolute_path_to_current_pos: Vec<Position> = Vec::new();
                if path.len() > 0 {
                    let current = path[path.len() - 1];
                    proof {
                        let k = visited@.index_of(current);
                        assert(g.contains(visited@[k]));
                    }
                    absolute_path_to_current_pos =
                    construct_path_to_pos(&current, &path_to_visited, grid);
                    absolute_path_to_current_pos.push(current);
                }
                let ghost path_before = path@;
                backtrack_to_current_pos(
                    &mut path,
                    &absolute_path_to_next_pos,
                    &absolute_path_to_current_pos,
                );
                path.push(next_pos);
                proof {
                    assert(rooted(&path_to_visited, g, start)) by {
                        assert forall|c: Position| g.contains(c) implies (
                        #[trigger] path_to_visited.entry(g, c) matches Some(q) ==> known(
                            &path_to_visited,
                            g,
                            start,
                            q,
                        )) by {
                            if let Some(q) = path_to_visited.entry(g, c) {
                                let k = visited@.index_of(q);
                                assert(known(&path_to_visited, g, start, visited@[k]));
                            }
                        }
                    }
                    if path_before.len() == 0 {
                        assert(next_pos == start);
                        assert(absolute_path_to_next_pos@ =~= Seq::<Position>::empty());
                        assert(detour(
                            absolute_path_to_next_pos@,
                            absolute_path_to_current_pos@,
                        ) =~= Seq::<Position>::empty());
                        assert(path@ =~= seq![start]);
                    } else {
                        let current = path_before.last();
                        let k = visited@.index_of(current);
                        assert(known(&path_to_visited, g, start, visited@[k]));
                        lemma_chain_is_walk(&path_to_visited, g, start, current);
                        lemma_chain_is_walk(&path_to_visited, g, start, next_pos);
                        assert(next_pos != start);
                        lemma_detour_is_walk(
                            g,
                            path_before,
                            absolute_path_to_current_pos@,
                            absolute_path_to_next_pos@,
                            next_pos,
                        );
                    }
                    assert(g.is_walk(path@) && path@[0] == start && path@.last() == next_pos);
                    assert(absolute_path_to_current_pos@ == before.way_here());
                    assert(path@ == before.path_through(next_pos));
                }
                if next_pos == end_pos {
                    proof {
                        assert(g.joins(path@, start, end_pos));
                        lemma_last_turn(g, end_pos, origin, before, done);
                    }
                    return Ok(path);
                }
                let ghost visited_before = visited@;
                visited.push(next_pos);
                let neighbors: Vec<Position> = grid.get_neighbors_of_pos(next_pos);
                let ghost arrived = state_of(path@, to_visit@, visited@, &path_to_visited, g);
                proof {
                    assert(arrived == (Exploration {
                        path: before.path_through(next_pos),
                        to_visit: before.to_visit.remove(0),
                        visited: before.visited.push(next_pos),
                        ..before
                    }));
                    assert(g.links[next_pos] == neighbors@);
                }
                proof {
                    assert forall|q: Position| visited_before.contains(q) implies visited@.contains(
                        q,
                    ) by {
                        lemma_push_contains(visited_before, next_pos, q);
                    }
                    lemma_push_contains(visited_before, next_pos, next_pos);
                    lemma_push_contains(visited_before, next_pos, end_pos);
                    assert forall|c: Position|
                        g.contains(c) && #[trigger] known(
                            &path_to_visited,
                            g,
                            start,
                            c,
                        ) implies visited@.contains(c) || to_visit@.contains(c) by {
                        if !visited_before.contains(c) {
                            assert(queue_before.contains(c));
                        }
                    }
                    assert forall|v: Position, x: Position|
                        visited@.contains(v) && v != next_pos && #[trigger] g.adjacent(
                            v,
                            x,
                        ) implies known(&path_to_visited, g, start, x) by {
                        lemma_push_contains(visited_before, next_pos, v);
                    }
                    assert forall|i: int| 0 <= i < visited@.len() implies g.contains(
                        #[trigger] visited@[i],
                    ) && known(&path_to_visited, g, start, visited@[i]) by {
                        if i < visited_before.len() {
                            assert(visited@[i] == visited_before[i]);
                        }
                    }
                }
                let mut n: usize = 0;
                while n < neighbors.len()
                    invariant
                        g == grid@,
                        grid.wf(),
                        g.wf(),
                        g.contains(start),
                        g.contains(next_pos),
                        n <= neighbors@.len(),
                        neighbors@ == g.links[next_pos],
                        arrived.looks_around(next_pos, neighbors@, 0) == state_of(
                            path@,
                            to_visit@,
                            visited@,
                            &path_to_visited,
                            g,
                        ).looks_around(next_pos, neighbors@, n as int),
                        visited@.contains(next_pos),
                        visited@.contains(start),
                        path_to_visited.wf(g),
                        path_to_visited.entry(g, start) is None,
                        vacancies(path_to_visited.previous@) + to_visit@.len() == budget - 1,
                        forall|c: Position|
                            g.contains(c) ==> (#[trigger] path_to_visited.entry(
                                g,
                                c,
                            ) matches Some(q) ==> visited@.contains(q)),
                        forall|c: Position|
                            g.contains(c) && #[trigger] known(&path_to_visited, g, start, c)
                                ==> visited@.contains(c) || to_visit@.contains(c),
                        forall|i: int|
                            0 <= i < visited@.len() ==> g.contains(#[trigger] visited@[i])
                                && known(&path_to_visited, g, start, visited@[i]),
                        forall|i: int|
                            0 <= i < to_visit@.len() ==> g.contains(#[trigger] to_visit@[i])
                                && known(&path_to_visited, g, start, to_visit@[i]),
                        forall|v: Position, x: Position|
                            visited@.contains(v) && v != next_pos && #[trigger] g.adjacent(v, x)
                                ==> known(&path_to_visited, g, start, x),
                        forall|m: int|
                            0 <= m < n ==> known(
                                &path_to_visited,
                                g,
                                start,
                                #[trigger] neighbors@[m],
                            ),
                    decreases neighbors@.len() - n,
                {
                    let neighbor = neighbors[n];
                    let ghost looking = state_of(path@, to_visit@, visited@, &path_to_visited, g);
                    proof {
                        assert(g.links[next_pos].contains(neighbor));
                        lemma_links_are_passages(g, next_pos, neighbor);
                        assert(g.adjacent(next_pos, neighbor));
                        lemma_adjacent_cells(g, next_pos, neighbor);
                    }
                    if !contains_position(&visited, neighbor) && path_to_visited.get(
                        grid,
                        neighbor,
                    ).is_none() {
                        let ghost table_before = path_to_visited;
                        let ghost waiting = to_visit@;
                        path_to_visited.record(grid, neighbor, next_pos);
                        to_visit.push(neighbor);
                        proof {
                            assert(state_of(path@, to_visit@, visited@, &path_to_visited, g)
                                == looking.looks_at(next_pos, neighbor));
                            assert forall|c: Position|
                                g.contains(c) && known(
                                    &table_before,
                                    g,
                                    start,
                                    c,
                                ) implies known(&path_to_visited, g, start, c) by {
                                if c != neighbor {
                                    assert(path_to_visited.entry(g, c) == table_before.entry(g, c));
                                }
                            }
                            assert forall|c: Position|
                                g.contains(c) implies (#[trigger] path_to_visited.entry(
                                g,
                                c,
                            ) matches Some(q) ==> visited@.contains(q)) by {
                                if c != neighbor {
                                    assert(path_to_visited.entry(g, c) == table_before.entry(g, c));
                                }
                            }
                            assert forall|c: Position|
                                g.contains(c) && #[trigger] known(
                                    &path_to_visited,
                                    g,
                                    start,
                                    c,
                                ) implies visited@.contains(c) || to_visit@.contains(c) by {
                                lemma_push_contains(waiting, neighbor, c);
                                if c != neighbor {
                                    assert(path_to_visited.entry(g, c) == table_before.entry(g, c));
                                    assert(known(&table_before, g, start, c));
                                }
                            }
                            assert forall|i: int| 0 <= i < visited@.len() implies g.contains(
                                #[trigger] visited@[i],
                            ) && known(&path_to_visited, g, start, visited@[i]) by {
                                assert(known(&table_before, g, start, visited@[i]));
                            }
                            assert forall|i: int| 0 <= i < to_visit@.len() implies g.contains(
                                #[trigger] to_visit@[i],
                            ) && known(&path_to_visited, g, start, to_visit@[i]) by {
                                if i < waiting.len() {
                                    assert(to_visit@[i] == waiting[i]);
                                    assert(known(&table_before, g, start, waiting[i]));
                                }
                            }
                            assert forall|v: Position, x: Position|
                                visited@.contains(v) && v != next_pos && #[trigger] g.adjacent(
                                    v,
                                    x,
                                ) implies known(&path_to_visited, g, start, x) by {
                                lemma_adjacent_cells(g, v, x);
                                assert(known(&table_before, g, start, x));
                            }
                            assert forall|m: int| 0 <= m < n + 1 implies known(
                                &path_to_visited,
                                g,
                                start,
                                #[trigger] neighbors@[m],
                            ) by {
                                if m < n {
                                    assert(known(&table_before, g, start, neighbors@[m]));
                                    assert(g.links[next_pos].contains(neighbors@[m]));
                                    lemma_links_are_passages(g, next_pos, neighbors@[m]);
                                    lemma_adjacent_cells(g, next_pos, neighbors@[m]);
                                }
                            }
                        }
                    } else {
                        proof {
                            if visited@.contains(neighbor) {
                                let k = visited@.index_of(neighbor);
                                assert(known(&path_to_visited, g, start, visited@[k]));
                            }
                            assert(looking == looking.looks_at(next_pos, neighbor));
                        }
                    }
                    n = n + 1;
                }
                proof {
                    let after = state_of(path@, to_visit@, visited@, &path_to_visited, g);
                    assert(after == arrived.looks_around(next_pos, g.links[next_pos], 0));
                    assert(after == before.turn(g));
                    lemma_one_turn_on(g, end_pos, origin, before, done);
                    done = done + 1;
                    grid.lemma_view();
                    assert forall|v: Position, x: Position|
                        visited@.contains(v) && #[trigger] g.adjacent(v, x) implies known(
                        &path_to_visited,
                        g,
                        start,
                        x,
                    ) by {
                        if v == next_pos {
                            lemma_links_are_passages(g, next_pos, x);
                            assert(g.links[next_pos].contains(x));
                            let m = neighbors@.index_of(x);
                            assert(known(&path_to_visited, g, start, neighbors@[m]));
                        }
                    }
                }
            } else {
                proof {
                    assert forall|c: Position|
                        g.contains(c) && #[trigger] known(
                            &path_to_visited,
                            g,
                            start,
                            c,
                        ) implies visited@.contains(c) || to_visit@.contains(c) by {
                        if !visited@.contains(c) {
                            assert(queue_before.contains(c));
                        }
                    }
                    let after = state_of(path@, to_visit@, visited@, &path_to_visited, g);
                    assert(after == before.turn(g));
                    lemma_one_turn_on(g, end_pos, origin, before, done);
                    done = done + 1;
                }
            }
        }
        proof {
            assert(visited@.contains(start)) by {
                assert(known(&path_to_visited, g, start, start));
            }
            assert forall|v: Position, x: Position|
                visited@.contains(v) && #[trigger] g.adjacent(v, x) implies visited@.contains(
                x,
            ) by {
                lemma_adjacent_cells(g, v, x);
                assert(known(&path_to_visited, g, start, x));
            }
            if g.reachable(start, end_pos) {
                let w = choose|w: Seq<Position>| g.joins(w, start, end_pos);
                lemma_walk_stays_inside(g, visited@, w, w.len() - 1);
            }
            let last = state_of(path@, to_visit@, visited@, &path_to_visited, g);
            lemma_last_turn(g, end_pos, origin, last, done);
        }
        Err(MazeError::UnreachableGoal)
    }
}

} // verus!
