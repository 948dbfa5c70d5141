//! Wilson's algorithm: a maze grown from loop-erased random walks.

use vstd::prelude::*;
use crate::error::MazeError;
use crate::model::cell::{
    Position, contains_position, coordinate_adjacent, first_index, is_first_index,
    lemma_first_index, lemma_first_index_unique, lemma_push_contains, lemma_remove_distinct,
    lemma_swap_remove_distinct, remove_position,
};
use crate::model::graph::{GridModel, lemma_cleared, lemma_cleared_by_size, lemma_lists_cells};
use crate::model::grid::Grid;
use crate::model::tree::{
    Hanging, hangs_as, lemma_tree_acyclic, lemma_tree_connected, lemma_tree_grows,
    lemma_tree_of_one,
};
use crate::random::RandomSource;

verus! {

/// The four ways to leave a cell.
#[derive(Debug, Clone, Copy, PartialEq, Eq, Structural)]
pub enum Direction {
    Left,
    Up,
    Right,
    Down,
}

/// A cell that a walk passed, with the direction in which the walk left it.
#[derive(Debug, Clone, Copy, PartialEq, Eq, Structural)]
pub struct WalkStep {
    pub cell_position: Position,
    pub move_direction: Direction,
}

/// The column and the row that one step from `position` in `direction`
/// leads to. Rows are counted downwards.
pub open spec fn step_target(position: Position, direction: Direction) -> (int, int) {
    match direction {
        Direction::Left => (position.x - 1, position.y as int),
        Direction::Right => (position.x + 1, position.y as int),
        Direction::Up => (position.x as int, position.y - 1),
        Direction::Down => (position.x as int, position.y + 1),
    }
}

impl WalkStep {
    /// Whether the step leaves its cell towards `target`.
    pub open spec fn leads_to(self, target: Position) -> bool {
        step_target(self.cell_position, self.move_direction) == (target.x as int, target.y as int)
    }

    /// Decides whether the step leaves its cell towards `target`.
    pub fn leads_into(&self, target: Position) -> (r: bool)
        ensures
            r == self.leads_to(target),
    {
        let here = self.cell_position;
        match self.move_direction {
            Direction::Left => here.y == target.y && here.x >= 1 && here.x - 1 == target.x,
            Direction::Right => here.y == target.y && target.x >= 1 && target.x - 1 == here.x,
            Direction::Up => here.x == target.x && here.y >= 1 && here.y - 1 == target.y,
            Direction::Down => here.x == target.x && target.y >= 1 && target.y - 1 == here.y,
        }
    }
}

/// The cells of a sequence of steps.
pub open spec fn positions_of(steps: Seq<WalkStep>) -> Seq<Position> {
    Seq::new(steps.len(), |i: int| steps[i].cell_position)
}

/// Whether step `i` of `steps` leads to the cell of the step after it.
pub open spec fn linked_at(steps: Seq<WalkStep>, i: int) -> bool {
    steps[i].leads_to(steps[i + 1].cell_position)
}

/// Whether `steps` records a walk: it is not empty, and every step but the
/// last leads to the cell of the step after it. The direction of the last
/// step is not used.
pub open spec fn is_trace(steps: Seq<WalkStep>) -> bool {
    &&& steps.len() >= 1
    &&& forall|i: int| 0 <= i < steps.len() - 1 ==> #[trigger] linked_at(steps, i)
}

/// The direction that a draw below four stands for.
pub open spec fn direction_of(draw: usize) -> Direction {
    if draw == 0 {
        Direction::Left
    } else if draw == 1 {
        Direction::Up
    } else if draw == 2 {
        Direction::Right
    } else {
        Direction::Down
    }
}

/// Turns a draw below four into a direction.
pub fn direction_from_draw(draw: usize) -> (direction: Direction)
    ensures
        direction == direction_of(draw),
{
    if draw == 0 {
        Direction::Left
    } else if draw == 1 {
        Direction::Up
    } else if draw == 2 {
        Direction::Right
    } else {
        Direction::Down
    }
}

/// The cell of the grid `g` one step from `position` in `direction`, if
/// there is one.
pub open spec fn target_on(g: GridModel, position: Position, direction: Direction) -> Option<
    Position,
> {
    let t = step_target(position, direction);
    if 0 <= t.0 < g.width && 0 <= t.1 < g.height {
        Some(Position { x: t.0 as usize, y: t.1 as usize })
    } else {
        None
    }
}

/// The cell one step from `position` in `direction`, if the grid has it.
pub fn step_within(position: Position, direction: Direction, grid: &Grid) -> (r: Option<Position>)
    ensures
        r == target_on(grid@, position, direction),
{
    let (columns, rows) = grid.get_number_of_cells_x_y();
    let width: usize = columns as usize;
    let height: usize = rows as usize;
    match direction {
        Direction::Left => {
            if position.x >= 1 && position.x - 1 < width && position.y < height {
                Some(Position { x: position.x - 1, y: position.y })
            } else {
                None
            }
        },
        Direction::Right => {
            if position.x < width && position.x + 1 < width && position.y < height {
                Some(Position { x: position.x + 1, y: position.y })
            } else {
                None
            }
        },
        Direction::Up => {
            if position.y >= 1 && position.y - 1 < height && position.x < width {
                Some(Position { x: position.x, y: position.y - 1 })
            } else {
                None
            }
        },
        Direction::Down => {
            if position.y < height && position.y + 1 < height && position.x < width {
                Some(Position { x: position.x, y: position.y + 1 })
            } else {
                None
            }
        },
    }
}

/// Decides whether every position of `list` is a cell of `grid`.
pub fn all_on_grid(grid: &Grid, list: &Vec<Position>) -> (r: bool)
    ensures
        r == forall|i: int| 0 <= i < list@.len() ==> grid@.contains(#[trigger] list@[i]),
{
    let mut i: usize = 0;
    while i < list.len()
        invariant
            i <= list.len(),
            forall|k: int| 0 <= k < i ==> grid@.contains(#[trigger] list@[k]),
        decreases list.len() - i,
    {
        if !grid.has_position(list[i]) {
            return false;
        }
        i = i + 1;
    }
    true
}

/// The record of a walk: the cells passed, each with the direction in which
/// the walk left it.
#[derive(Debug)]
pub struct Path {
    cell_positions_wrapped: Vec<WalkStep>,
}

impl View for Path {
    type V = Seq<WalkStep>;

    closed spec fn view(&self) -> Seq<WalkStep> {
        self.cell_positions_wrapped@
    }
}

impl Path {
    /// Every path records a walk.
    #[verifier::type_invariant]
    closed spec fn wf(&self) -> bool {
        is_trace(self.cell_positions_wrapped@)
    }

    /// The steps of the walk.
    pub fn get_cell_wrappers(&self) -> (steps: &Vec<WalkStep>)
        ensures
            steps@ == self@,
            is_trace(self@),
    {
        proof {
            use_type_invariant(self);
        }
        return &self.cell_positions_wrapped;
    }

    /// The number of steps.
    pub fn length(&self) -> (n: usize)
        ensures
            n == self@.len(),
            n >= 1,
    {
        proof {
            use_type_invariant(self);
        }
        self.cell_positions_wrapped.len()
    }

    /// The cells of the walk, in the order in which it passed them.
    pub fn get_cells_positions(&self) -> (cells: Vec<Position>)
        ensures
            cells@ == positions_of(self@),
    {
        let mut cells: Vec<Position> = Vec::new();
        let mut i: usize = 0;
        while i < self.cell_positions_wrapped.len()
            invariant
                i <= self.cell_positions_wrapped.len(),
                cells.len() == i,
                forall|k: int|
                    0 <= k < i ==> cells[k] == self.cell_positions_wrapped[k].cell_position,
            decreases self.cell_positions_wrapped.len() - i,
        {
            cells.push(self.cell_positions_wrapped[i].cell_position);
            i = i + 1;
        }
        assert(cells@ =~= positions_of(self@));
        cells
    }
}

impl Clone for Path {
    fn clone(&self) -> (copy: Path)
        ensures
            copy@ == self@,
    {
        proof {
            use_type_invariant(self);
        }
        let mut steps: Vec<WalkStep> = Vec::new();
        let mut i: usize = 0;
        while i < self.cell_positions_wrapped.len()
            invariant
                i <= self.cell_positions_wrapped.len(),
                steps@ == self.cell_positions_wrapped@.take(i as int),
            decreases self.cell_positions_wrapped.len() - i,
        {
            steps.push(self.cell_positions_wrapped[i]);
            assert(self.cell_positions_wrapped@.take(i + 1) =~= self.cell_positions_wrapped@.take(
                i as int,
            ).push(self.cell_positions_wrapped@[i as int]));
            i = i + 1;
        }
        assert(self.cell_positions_wrapped@.take(i as int) =~= self.cell_positions_wrapped@);
        Path { cell_positions_wrapped: steps }
    }
}

/// Whether `steps` records a walk on the grid `g` that sets out from `start`
/// and ends on the first cell after `start` that belongs to `visited`.
pub open spec fn walk_reaches(
    steps: Seq<WalkStep>,
    start: Position,
    g: GridModel,
    visited: Seq<Position>,
) -> bool {
    &&& steps.len() >= 2
    &&& is_trace(steps)
    &&& steps[0].cell_position == start
    &&& forall|i: int| 0 <= i < steps.len() ==> g.contains(#[trigger] positions_of(steps)[i])
    &&& forall|i: int|
        1 <= i < steps.len() - 1 ==> !visited.contains(#[trigger] positions_of(steps)[i])
    &&& visited.contains(steps.last().cell_position)
    &&& steps.last().move_direction == Direction::Up
}

/// Whether the walk that stands on `position` steps on a cell of `visited`
/// when it draws `draw`.
pub open spec fn arrives_by(
    g: GridModel,
    visited: Seq<Position>,
    position: Position,
    draw: usize,
) -> bool {
    target_on(g, position, direction_of(draw)) matches Some(next) && visited.contains(next)
}

/// The steps recorded and the cell stood on after the walk that recorded
/// `steps` and stands on `position` drew `draw`: a direction that leads off
/// the grid changes nothing, any other is recorded and followed.
pub open spec fn stepped_by(
    g: GridModel,
    steps: Seq<WalkStep>,
    position: Position,
    draw: usize,
) -> (Seq<WalkStep>, Position) {
    match target_on(g, position, direction_of(draw)) {
        Some(next) => (
            steps.push(WalkStep { cell_position: position, move_direction: direction_of(draw) }),
            next,
        ),
        None => (steps, position),
    }
}

/// What has become of a walk once it has used up its draws.
pub enum WalkOutcome {
    /// The last draw led the walk onto a visited cell; this is its record.
    Arrived(Seq<WalkStep>),
    /// The walk has not stepped on a visited cell yet; it recorded these
    /// steps and stands on this cell.
    Walking(Seq<WalkStep>, Position),
    /// The walk stepped on a visited cell before the draws were used up.
    Overrun,
}

/// What becomes of the walk that recorded `steps` and stands on `position`
/// when it goes on as `draws` say, one draw for each try.
pub open spec fn walk_on(
    g: GridModel,
    visited: Seq<Position>,
    steps: Seq<WalkStep>,
    position: Position,
    draws: Seq<usize>,
) -> WalkOutcome
    decreases draws.len(),
{
    if draws.len() == 0 {
        WalkOutcome::Walking(steps, position)
    } else {
        let after = stepped_by(g, steps, position, draws[0]);
        if arrives_by(g, visited, position, draws[0]) {
            if draws.len() == 1 {
                WalkOutcome::Arrived(
                    after.0.push(
                        WalkStep { cell_position: after.1, move_direction: Direction::Up },
                    ),
                )
            } else {
                WalkOutcome::Overrun
            }
        } else {
            walk_on(g, visited, after.0, after.1, draws.skip(1))
        }
    }
}

/// A walk that is some draws ahead of another stays ahead by one draw more
/// after a draw that does not end it.
proof fn lemma_one_draw_on(
    g: GridModel,
    visited: Seq<Position>,
    start: Position,
    taken: Seq<usize>,
    steps: Seq<WalkStep>,
    position: Position,
    draw: usize,
)
    requires
        !arrives_by(g, visited, position, draw),
        forall|rest: Seq<usize>| #[trigger]
            walk_on(g, visited, steps, position, rest) == walk_on(
                g,
                visited,
                Seq::empty(),
                start,
                taken + rest,
            ),
    ensures
        forall|rest: Seq<usize>| #[trigger]
            walk_on(
                g,
                visited,
                stepped_by(g, steps, position, draw).0,
                stepped_by(g, steps, position, draw).1,
                rest,
            ) == walk_on(g, visited, Seq::empty(), start, taken.push(draw) + rest),
{
    let after = stepped_by(g, steps, position, draw);
    assert forall|rest: Seq<usize>| #[trigger]
        walk_on(g, visited, after.0, after.1, rest) == walk_on(
            g,
            visited,
            Seq::empty(),
            start,
            taken.push(draw) + rest,
        ) by {
        let longer = seq![draw] + rest;
        assert(longer.skip(1) =~= rest);
        assert(taken + longer =~= taken.push(draw) + rest);
        assert(walk_on(g, visited, steps, position, longer) == walk_on(
            g,
            visited,
            Seq::empty(),
            start,
            taken + longer,
        ));
    }
}

/// Whether a walk from `start` on the grid `g` towards `visited` can be
/// begun at all, and if not, why.
pub open spec fn walk_refusal(start: Position, g: GridModel, visited: Seq<Position>) -> Option<
    MazeError,
> {
    if visited.len() == 0 {
        Some(MazeError::EmptyVisitedSet)
    } else if !g.contains(start) || exists|i: int|
        0 <= i < visited.len() && !g.contains(#[trigger] visited[i]) {
        Some(MazeError::InvalidPosition)
    } else {
        None
    }
}

/// Walks at random from `starting_position` until the walk steps on a cell
/// of `visited_positions`, and records the walk.
///
/// Each step draws one of the four directions. A direction that would lead
/// off the grid is drawn again; the walk stays where it is meanwhile. The
/// record ends with the visited cell that the walk stepped on.
///
/// The walk is refused with `EmptyVisitedSet` when there is no visited
/// cell, and with `InvalidPosition` when the start or a visited cell is not
/// on the grid. It ends with `RandomnessExhausted` only if `rng` ran dry.
pub fn random_walk<R: RandomSource>(
    starting_position: Position,
    grid: &Grid,
    visited_positions: &Vec<Position>,
    rng: &mut R,
) -> (r: Result<Path, MazeError>)
    requires
        grid.wf(),
    ensures
        r matches Ok(path) ==> walk_reaches(
            path@,
            starting_position,
            grid@,
            visited_positions@,
        ),
        walk_refusal(starting_position, grid@, visited_positions@) matches Some(refusal) ==> r
            == Err::<Path, MazeError>(refusal) && *final(rng) == *old(rng),
        walk_refusal(starting_position, grid@, visited_positions@) is None ==> (r is Ok || (r
            == Err::<Path, MazeError>(MazeError::RandomnessExhausted) && final(rng).remaining()
            == 0)),
        r matches Ok(path) ==> final(rng).remaining() + path@.len() - 1 <= old(rng).remaining(),
        old(rng).drawn().is_prefix_of(final(rng).drawn()),
        final(rng).remaining() + final(rng).drawn().len() == old(rng).remaining()
            + old(rng).drawn().len(),
        forall|i: int|
            old(rng).drawn().len() <= i < final(rng).drawn().len()
                ==> #[trigger] final(rng).drawn()[i] < 4,
        walk_refusal(starting_position, grid@, visited_positions@) is None ==> ({
            let outcome = walk_on(
                grid@,
                visited_positions@,
                Seq::empty(),
                starting_position,
                final(rng).drawn().skip(old(rng).drawn().len() as int),
            );
            match r {
                Ok(path) => outcome == WalkOutcome::Arrived(path@),
                Err(_) => outcome is Walking,
            }
        }),
{
    if visited_positions.len() == 0 {
        return Err(MazeError::EmptyVisitedSet);
    }
    if !grid.has_position(starting_position) || !all_on_grid(grid, visited_positions) {
        return Err(MazeError::InvalidPosition);
    }
    let mut steps: Vec<WalkStep> = Vec::new();
    let mut position = starting_position;
    let ghost refusal = walk_refusal(starting_position, grid@, visited_positions@);
    let ghost drawn_before = rng.drawn();
    proof {
        assert(rng.drawn().skip(drawn_before.len() as int) =~= Seq::<usize>::empty());
        assert forall|rest: Seq<usize>| #[trigger]
            walk_on(grid@, visited_positions@, steps@, position, rest) == walk_on(
                grid@,
                visited_positions@,
                Seq::empty(),
                starting_position,
                rng.drawn().skip(drawn_before.len() as int) + rest,
            ) by {
            assert(Seq::<usize>::empty() + rest =~= rest);
            assert(steps@ =~= Seq::<WalkStep>::empty());
        }
    }
    loop
        invariant
            drawn_before == old(rng).drawn(),
            drawn_before.is_prefix_of(rng.drawn()),
            rng.remaining() + rng.drawn().len() == old(rng).remaining() + drawn_before.len(),
            forall|i: int|
                drawn_before.len() <= i < rng.drawn().len() ==> #[trigger] rng.drawn()[i] < 4,
            forall|rest: Seq<usize>| #[trigger]
                walk_on(grid@, visited_positions@, steps@, position, rest) == walk_on(
                    grid@,
                    visited_positions@,
                    Seq::empty(),
                    starting_position,
                    rng.drawn().skip(drawn_before.len() as int) + rest,
                ),
            grid.wf(),
            refusal == walk_refusal(starting_position, grid@, visited_positions@),
            refusal is None,
            rng.remaining() + steps.len() <= old(rng).remaining(),
            grid@.contains(position),
            steps.len() == 0 ==> position == starting_position,
            steps.len() > 0 ==> steps[0].cell_position == starting_position
                && steps[steps.len() - 1].leads_to(position) && !visited_positions@.contains(
                position,
            ),
            forall|i: int| 0 <= i < steps.len() - 1 ==> #[trigger] linked_at(steps@, i),
            forall|i: int|
                0 <= i < steps.len() ==> grid@.contains(#[trigger] positions_of(steps@)[i]),
            forall|i: int|
                1 <= i < steps.len() ==> !visited_positions@.contains(
                    #[trigger] positions_of(steps@)[i],
                ),
        decreases rng.remaining(),
    {
        let ghost taken = rng.drawn().skip(drawn_before.len() as int);
        let ghost steps_before = steps@;
        let ghost position_before = position;
        proof {
            grid.lemma_view();
        }
        let draw = match rng.next_below(4) {
            Some(draw) => draw,
            None => {
                proof {
                    assert(taken + Seq::<usize>::empty() =~= taken);
                    assert(walk_on(
                        grid@,
                        visited_positions@,
                        steps@,
                        position,
                        Seq::<usize>::empty(),
                    ) is Walking);
                }
                return Err(MazeError::RandomnessExhausted);
            },
        };
        proof {
            assert(rng.drawn().skip(drawn_before.len() as int) =~= taken.push(draw));
            if !arrives_by(grid@, visited_positions@, position, draw) {
                lemma_one_draw_on(
                    grid@,
                    visited_positions@,
                    starting_position,
                    taken,
                    steps@,
                    position,
                    draw,
                );
            }
        }
        let direction = direction_from_draw(draw);
        match step_within(position, direction, grid) {
            None => {},
            Some(new_position) => {
                let ghost before = steps@;
                let step = WalkStep { cell_position: position, move_direction: direction };
                steps.push(step);
                proof {
                    let now = steps@;
                    assert forall|i: int| 0 <= i < now.len() - 1 implies #[trigger] linked_at(
                        now,
                        i,
                    ) by {
                        if i < before.len() - 1 {
                            assert(linked_at(before, i));
                        }
                    }
                    assert forall|i: int| 0 <= i < now.len() implies grid@.contains(
                        #[trigger] positions_of(now)[i],
                    ) by {
                        if i < before.len() {
                            assert(grid@.contains(positions_of(before)[i]));
                        }
                    }
                    assert forall|i: int| 1 <= i < now.len() implies !visited_positions@.contains(
                        #[trigger] positions_of(now)[i],
                    ) by {
                        if i < before.len() {
                            assert(!visited_positions@.contains(positions_of(before)[i]));
                        }
                    }
                }
                if contains_position(visited_positions, new_position) {
                    let ghost walked = steps@;
                    steps.push(
                        WalkStep { cell_position: new_position, move_direction: Direction::Up },
                    );
                    proof {
                        let now = steps@;
                        assert forall|i: int| 0 <= i < now.len() - 1 implies #[trigger] linked_at(
                            now,
                            i,
                        ) by {
                            if i < walked.len() - 1 {
                                assert(linked_at(walked, i));
                            }
                        }
                        assert forall|i: int| 0 <= i < now.len() implies grid@.contains(
                            #[trigger] positions_of(now)[i],
                        ) by {
                            if i < walked.len() {
                                assert(grid@.contains(positions_of(walked)[i]));
                            }
                        }
                        assert forall|i: int|
                            1 <= i < now.len() - 1 implies !visited_positions@.contains(
                            #[trigger] positions_of(now)[i],
                        ) by {
                            assert(!visited_positions@.contains(positions_of(walked)[i]));
                        }
                        assert(taken + seq![draw] =~= taken.push(draw));
                        assert(walk_on(
                            grid@,
                            visited_positions@,
                            steps_before,
                            position_before,
                            seq![draw],
                        ) == WalkOutcome::Arrived(steps@));
                    }
                    return Ok(Path { cell_positions_wrapped: steps });
                }
                position = new_position;
            },
        }
    }
}

/// The walk `steps` with its loops taken out.
///
/// The result ends with the last step of the walk. Before it stands the
/// step that led the walk, for the first time, onto the cell of that last
/// step, and so on backwards, until a step stands on the cell the walk set
/// out from.
pub open spec fn erase_loops(steps: Seq<WalkStep>) -> Seq<WalkStep>
    decreases steps.len(),
{
    if steps.len() == 0 {
        Seq::empty()
    } else {
        let f = first_index(positions_of(steps), steps.last().cell_position);
        if 0 < f < steps.len() {
            erase_loops(steps.take(f)).push(steps.last())
        } else {
            seq![steps.last()]
        }
    }
}

/// A step leads to one cell only, and that cell touches the one it leaves.
pub proof fn lemma_leads_to(step: WalkStep, a: Position, b: Position)
    requires
        step.leads_to(a),
    ensures
        coordinate_adjacent(step.cell_position, a),
        step.leads_to(b) ==> a == b,
{
}

/// A walk with its loops taken out is again the record of a walk. It sets
/// out from the same cell and ends with the same step, it passes no cell
/// twice, and each of its steps but the last is a step of the walk before
/// the last.
pub proof fn lemma_erase_loops(steps: Seq<WalkStep>)
    requires
        is_trace(steps),
    ensures
        is_trace(erase_loops(steps)),
        erase_loops(steps).len() <= steps.len(),
        erase_loops(steps)[0].cell_position == steps[0].cell_position,
        erase_loops(steps).last() == steps.last(),
        positions_of(erase_loops(steps)).no_duplicates(),
        forall|k: int|
            0 <= k < erase_loops(steps).len() - 1 ==> exists|i: int|
                0 <= i < steps.len() - 1 && steps[i] == #[trigger] erase_loops(steps)[k],
    decreases steps.len(),
{
    let cells = positions_of(steps);
    let last = steps.last();
    let erased = erase_loops(steps);
    assert(cells[steps.len() - 1] == last.cell_position);
    lemma_first_index(cells, last.cell_position, steps.len() - 1);
    let f = first_index(cells, last.cell_position);
    if 0 < f {
        let prefix = steps.take(f);
        let shorter = erase_loops(prefix);
        assert(is_trace(prefix)) by {
            assert forall|i: int| 0 <= i < prefix.len() - 1 implies #[trigger] linked_at(
                prefix,
                i,
            ) by {
                assert(linked_at(steps, i));
            }
        }
        lemma_erase_loops(prefix);
        assert(erased == shorter.push(last));
        assert(shorter.last() == steps[f - 1]);
        assert(linked_at(steps, f - 1));
        assert(cells[f] == steps[f].cell_position);
        assert forall|i: int| 0 <= i < erased.len() - 1 implies #[trigger] linked_at(erased, i) by {
            if i < shorter.len() - 1 {
                assert(linked_at(shorter, i));
            }
        }
        assert forall|k: int| 0 <= k < erased.len() - 1 implies exists|i: int|
            0 <= i < steps.len() - 1 && steps[i] == #[trigger] erased[k] by {
            if k < shorter.len() - 1 {
                let i = choose|i: int| 0 <= i < prefix.len() - 1 && prefix[i] == shorter[k];
                assert(steps[i] == erased[k]);
            } else {
                assert(steps[f - 1] == erased[k]);
            }
        }
        assert forall|a: int, b: int|
            0 <= a < erased.len() && 0 <= b < erased.len() && a != b implies positions_of(
            erased,
        )[a] != positions_of(erased)[b] by {
            let lo = if a < b {
                a
            } else {
                b
            };
            let hi = if a < b {
                b
            } else {
                a
            };
            if hi < shorter.len() {
                assert(positions_of(shorter)[lo] != positions_of(shorter)[hi]);
            } else {
                if lo < shorter.len() - 1 {
                    let i = choose|i: int| 0 <= i < prefix.len() - 1 && prefix[i] == shorter[lo];
                    assert(cells[i] != last.cell_position);
                } else {
                    assert(cells[f - 1] != last.cell_position);
                }
            }
        }
    } else {
        assert(erased == seq![last]);
        assert(cells[0] == steps[0].cell_position);
    }
}

/// Takes the loops out of a walk.
///
/// Going backwards from the last step, the result keeps, for the cell it
/// has reached, the step that first led the walk onto that cell, and goes on
/// from that step's cell, until it stands on the cell the walk set out from.
pub fn loop_erased_path(path: &Path) -> (erased: Path)
    ensures
        erased@ == erase_loops(path@),
        is_trace(erased@),
        positions_of(erased@).no_duplicates(),
        erased@[0].cell_position == path@[0].cell_position,
        erased@.last() == path@.last(),
        forall|i: int|
            0 <= i < erased@.len() - 1 ==> #[trigger] touching_at(positions_of(erased@), i),
{
    let steps = path.get_cell_wrappers();
    let first = steps[0].cell_position;
    let mut reversed: Vec<WalkStep> = Vec::new();
    let mut i: usize = steps.len() - 1;
    proof {
        assert(steps@.take(i + 1) =~= steps@);
        assert(erase_loops(steps@) =~= erase_loops(steps@.take(i + 1)) + reversed@.reverse());
    }
    while steps[i].cell_position != first
        invariant
            i < steps.len(),
            is_trace(steps@),
            first == steps[0].cell_position,
            erase_loops(steps@) == erase_loops(steps@.take(i + 1)) + reversed@.reverse(),
        decreases i,
    {
        let target = steps[i].cell_position;
        let mut j: usize = 0;
        assert(linked_at(steps@, i - 1));
        while !steps[j].leads_into(target)
            invariant
                j < i,
                i < steps.len(),
                steps[i - 1].leads_to(target),
                forall|k: int| 0 <= k < j ==> !(#[trigger] steps[k]).leads_to(target),
            decreases i - j,
        {
            j = j + 1;
        }
        proof {
            let prefix = steps@.take(i + 1);
            let cells = positions_of(prefix);
            assert(linked_at(steps@, j as int));
            lemma_leads_to(steps[j as int], target, steps[j + 1].cell_position);
            assert(cells[j + 1] == target);
            assert forall|m: int| 0 <= m < j + 1 implies cells[m] != target by {
                if m >= 1 && cells[m] == target {
                    assert(linked_at(steps@, m - 1));
                    assert(steps[m - 1].leads_to(target));
                }
            }
            assert(is_first_index(cells, target, j + 1));
            lemma_first_index_unique(cells, target, j + 1);
            assert(prefix.last() == steps[i as int]);
            assert(prefix.take(j + 1) =~= steps@.take(j + 1));
            assert(erase_loops(prefix) == erase_loops(steps@.take(j + 1)).push(steps[i as int]));
            assert(reversed@.push(steps[i as int]).reverse() =~= seq![steps[i as int]]
                + reversed@.reverse());
            assert(erase_loops(steps@.take(j + 1)).push(steps[i as int]) + reversed@.reverse()
                =~= erase_loops(steps@.take(j + 1)) + (seq![steps[i as int]]
                + reversed@.reverse()));
        }
        reversed.push(steps[i]);
        i = j;
    }
    proof {
        let prefix = steps@.take(i + 1);
        let cells = positions_of(prefix);
        assert(is_first_index(cells, prefix.last().cell_position, 0));
        lemma_first_index_unique(cells, prefix.last().cell_position, 0);
        assert(erase_loops(prefix) == seq![steps[i as int]]);
        assert(reversed@.push(steps[i as int]).reverse() =~= seq![steps[i as int]]
            + reversed@.reverse());
    }
    reversed.push(steps[i]);
    let mut forward: Vec<WalkStep> = Vec::new();
    let mut k: usize = reversed.len();
    while k > 0
        invariant
            k <= reversed.len(),
            forward.len() == reversed.len() - k,
            forall|m: int|
                0 <= m < forward.len() ==> forward[m] == reversed[reversed.len() - 1 - m],
        decreases k,
    {
        k = k - 1;
        forward.push(reversed[k]);
    }
    proof {
        assert(forward@ =~= reversed@.reverse());
        lemma_erase_loops(steps@);
        assert forall|i: int| 0 <= i < forward@.len() - 1 implies #[trigger] touching_at(
            positions_of(forward@),
            i,
        ) by {
            assert(linked_at(forward@, i));
            let next = forward@[i + 1].cell_position;
            lemma_leads_to(forward@[i], next, next);
        }
    }
    Path { cell_positions_wrapped: forward }
}

/// What generation keeps of its work: for each walk, in order, the walk,
/// the walk with its loops taken out, and the grid as it stood once the
/// passages of that walk were opened.
pub struct MazeGenerationInternals {
    paths: Vec<(Path, Path, Grid)>,
}

impl View for MazeGenerationInternals {
    type V = Seq<(Seq<WalkStep>, Seq<WalkStep>, GridModel)>;

    closed spec fn view(&self) -> Seq<(Seq<WalkStep>, Seq<WalkStep>, GridModel)> {
        record_of(self.paths@)
    }
}

/// What a list of walks, loop-erased walks and grids records.
pub open spec fn record_of(paths: Seq<(Path, Path, Grid)>) -> Seq<
    (Seq<WalkStep>, Seq<WalkStep>, GridModel),
> {
    Seq::new(paths.len(), |k: int| (paths[k].0@, paths[k].1@, paths[k].2@))
}

impl MazeGenerationInternals {
    /// The walks, each with its loop-erased counterpart and the grid after it.
    pub fn get_paths(&self) -> (paths: &Vec<(Path, Path, Grid)>)
        ensures
            record_of(paths@) == self@,
    {
        &self.paths
    }
}

/// The number of passages that the first `n` entries of `record` opened:
/// for each entry one fewer than the cells of its loop-erased walk.
pub open spec fn passages_opened(
    record: Seq<(Seq<WalkStep>, Seq<WalkStep>, GridModel)>,
    n: int,
) -> int
    decreases n,
{
    if n <= 0 {
        0
    } else {
        passages_opened(record, n - 1) + record[n - 1].1.len() - 1
    }
}

/// The grid on which entry `k` of `record` worked: the grid that the entry
/// before it holds, or for the first entry the grid `g` without passages.
pub open spec fn grid_before(
    record: Seq<(Seq<WalkStep>, Seq<WalkStep>, GridModel)>,
    g: GridModel,
    k: int,
) -> GridModel {
    if k <= 0 {
        g.cleared()
    } else {
        record[k - 1].2
    }
}

/// Whether `record` is what generation keeps of work that left the grid as
/// `g`: each entry holds a walk, that walk with its loops taken out, and
/// the grid before it with the passages of the loop-erased walk opened; the
/// last entry holds `g`.
pub open spec fn records_growth(
    record: Seq<(Seq<WalkStep>, Seq<WalkStep>, GridModel)>,
    g: GridModel,
) -> bool {
    &&& forall|k: int|
        0 <= k < record.len() ==> {
            &&& is_trace((#[trigger] record[k]).0)
            &&& record[k].1 == erase_loops(record[k].0)
            &&& record[k].2.wf()
            &&& record[k].2.width == g.width
            &&& record[k].2.height == g.height
            &&& record[k].2.edge_count() == passages_opened(record, k + 1)
            &&& record[k].2 == grid_before(record, g, k).with_walk(positions_of(record[k].1))
        }
    &&& record.len() > 0 ==> record.last().2 == g
    &&& record.len() == 0 ==> g == g.cleared()
    &&& g.edge_count() == passages_opened(record, record.len() as int)
}

/// The passages opened by the first entries of a record do not depend on
/// the entries after them.
proof fn lemma_passages_opened_prefix(
    record: Seq<(Seq<WalkStep>, Seq<WalkStep>, GridModel)>,
    longer: Seq<(Seq<WalkStep>, Seq<WalkStep>, GridModel)>,
    n: int,
)
    requires
        n <= record.len() <= longer.len(),
        forall|k: int| 0 <= k < record.len() ==> record[k] == longer[k],
    ensures
        passages_opened(record, n) == passages_opened(longer, n),
    decreases n,
{
    if n > 0 {
        lemma_passages_opened_prefix(record, longer, n - 1);
    }
}

/// Where the growing of a maze stands between two walks.
pub struct Growth {
    /// The grid with the passages opened so far.
    pub grid: GridModel,
    /// The cells outside the maze.
    pub to_visit: Seq<Position>,
    /// The cells of the maze, in the order in which they joined it.
    pub visited: Seq<Position>,
    /// What was kept of each walk.
    pub record: Seq<(Seq<WalkStep>, Seq<WalkStep>, GridModel)>,
}

impl Growth {
    /// Before the first draw: every cell of `g` outside the maze.
    pub open spec fn begin(g: GridModel) -> Growth {
        Growth { grid: g, to_visit: g.cells(), visited: Seq::empty(), record: Seq::empty() }
    }

    /// The maze of one cell, the one at place `draw` among the cells
    /// outside; the last of those takes its place.
    pub open spec fn rooted_by(self, draw: usize) -> Growth {
        Growth {
            to_visit: self.to_visit.update(draw as int, self.to_visit.last()).drop_last(),
            visited: seq![self.to_visit[draw as int]],
            ..self
        }
    }

    /// The maze once the cells of `cells` from place `k` on, but the last,
    /// have joined it, the later ones first: each gets a passage to the cell
    /// after it and moves from the cells outside to the cells of the maze.
    pub open spec fn joined_from(self, cells: Seq<Position>, k: int) -> Growth
        decreases cells.len() - k,
    {
        if 0 <= k < cells.len() - 1 {
            let later = self.joined_from(cells, k + 1);
            Growth {
                grid: later.grid.with_passage(cells[k], cells[k + 1]),
                to_visit: later.to_visit.remove(first_index(later.to_visit, cells[k])),
                visited: later.visited.push(cells[k]),
                ..later
            }
        } else {
            self
        }
    }

    /// The maze once the walk `walk` has arrived: the cells of the walk
    /// with its loops taken out have joined, and the walk is on record.
    pub open spec fn joined_by(self, walk: Seq<WalkStep>) -> Growth {
        let erased = erase_loops(walk);
        let after = self.joined_from(positions_of(erased), 0);
        Growth { record: self.record.push((walk, erased, after.grid)), ..after }
    }
}

/// What the growing of a maze comes to when it goes on from `s` as `draws`
/// say: the state in which no cell is left outside, or `None` if the draws
/// end before that or go on after it.
///
/// Between two walks a draw picks a cell outside the maze by its place: the
/// very first such cell becomes the maze, every later one the start of a
/// walk. During a walk, `walking` holds its steps and the cell it stands
/// on, and each draw is one try of a step; the walk that steps on the maze
/// joins it.
pub open spec fn grow(
    s: Growth,
    walking: Option<(Seq<WalkStep>, Position)>,
    draws: Seq<usize>,
) -> Option<Growth>
    decreases draws.len(),
{
    match walking {
        None => {
            if s.to_visit.len() == 0 {
                if draws.len() == 0 {
                    Some(s)
                } else {
                    None
                }
            } else if draws.len() == 0 {
                None
            } else if s.visited.len() == 0 {
                grow(s.rooted_by(draws[0]), None, draws.skip(1))
            } else {
                grow(s, Some((Seq::empty(), s.to_visit[draws[0] as int])), draws.skip(1))
            }
        },
        Some(walk) => {
            if draws.len() == 0 {
                None
            } else {
                let after = stepped_by(s.grid, walk.0, walk.1, draws[0]);
                if arrives_by(s.grid, s.visited, walk.1, draws[0]) {
                    grow(
                        s.joined_by(
                            after.0.push(
                                WalkStep { cell_position: after.1, move_direction: Direction::Up },
                            ),
                        ),
                        None,
                        draws.skip(1),
                    )
                } else {
                    grow(s, Some(after), draws.skip(1))
                }
            }
        },
    }
}

/// A walk that arrives with its last draw joins the maze, and the growing
/// goes on with the draws after it.
proof fn lemma_walk_joins(
    s: Growth,
    steps: Seq<WalkStep>,
    position: Position,
    draws: Seq<usize>,
    rest: Seq<usize>,
)
    requires
        walk_on(s.grid, s.visited, steps, position, draws) is Arrived,
    ensures
        grow(s, Some((steps, position)), draws + rest) == grow(
            s.joined_by(walk_on(s.grid, s.visited, steps, position, draws)->Arrived_0),
            None,
            rest,
        ),
    decreases draws.len(),
{
    let all = draws + rest;
    assert(all[0] == draws[0]);
    assert(all.skip(1) =~= draws.skip(1) + rest);
    if arrives_by(s.grid, s.visited, position, draws[0]) {
        assert(draws.skip(1) + rest =~= rest);
    } else {
        let after = stepped_by(s.grid, steps, position, draws[0]);
        lemma_walk_joins(s, after.0, after.1, draws.skip(1), rest);
    }
}

/// A walk that has not arrived when the draws end leaves the growing
/// without an end.
proof fn lemma_walk_runs_dry(
    s: Growth,
    steps: Seq<WalkStep>,
    position: Position,
    draws: Seq<usize>,
)
    requires
        walk_on(s.grid, s.visited, steps, position, draws) is Walking,
    ensures
        grow(s, Some((steps, position)), draws) is None,
    decreases draws.len(),
{
    if draws.len() > 0 {
        let after = stepped_by(s.grid, steps, position, draws[0]);
        lemma_walk_runs_dry(s, after.0, after.1, draws.skip(1));
    }
}

/// The growing that chose its root is one draw ahead.
proof fn lemma_root_chosen(origin: Growth, draw: usize)
    requires
        origin.to_visit.len() > 0,
        origin.visited.len() == 0,
    ensures
        forall|rest: Seq<usize>| #[trigger]
            grow(origin.rooted_by(draw), None, rest) == grow(origin, None, seq![draw] + rest),
{
    assert forall|rest: Seq<usize>| #[trigger]
        grow(origin.rooted_by(draw), None, rest) == grow(origin, None, seq![draw] + rest) by {
        assert((seq![draw] + rest).skip(1) =~= rest);
    }
}

/// A growing that is some draws ahead of another is ahead by the draws of
/// one more walk once that walk has joined.
proof fn lemma_walk_done(
    origin: Growth,
    s: Growth,
    taken: Seq<usize>,
    draw: usize,
    walk_draws: Seq<usize>,
)
    requires
        s.to_visit.len() > 0,
        s.visited.len() > 0,
        forall|rest: Seq<usize>| #[trigger]
            grow(s, None, rest) == grow(origin, None, taken + rest),
        walk_on(s.grid, s.visited, Seq::empty(), s.to_visit[draw as int], walk_draws) is Arrived,
    ensures
        forall|rest: Seq<usize>| #[trigger]
            grow(
                s.joined_by(
                    walk_on(
                        s.grid,
                        s.visited,
                        Seq::empty(),
                        s.to_visit[draw as int],
                        walk_draws,
                    )->Arrived_0,
                ),
                None,
                rest,
            ) == grow(origin, None, (taken.push(draw) + walk_draws) + rest),
{
    let start = s.to_visit[draw as int];
    let walk = walk_on(s.grid, s.visited, Seq::empty(), start, walk_draws)->Arrived_0;
    assert forall|rest: Seq<usize>| #[trigger]
        grow(s.joined_by(walk), None, rest) == grow(
            origin,
            None,
            (taken.push(draw) + walk_draws) + rest,
        ) by {
        let tail = walk_draws + rest;
        let all = seq![draw] + tail;
        lemma_walk_joins(s, Seq::empty(), start, walk_draws, rest);
        assert(all.skip(1) =~= tail);
        assert(grow(s, None, all) == grow(s, Some((Seq::empty(), start)), tail));
        assert(grow(s, None, all) == grow(origin, None, taken + all));
        assert(taken + all =~= (taken.push(draw) + walk_draws) + rest);
    }
}

/// A growing that is some draws ahead of another and whose next walk runs
/// out of draws shows that the other has no end.
proof fn lemma_walk_failed(
    origin: Growth,
    s: Growth,
    taken: Seq<usize>,
    draw: usize,
    walk_draws: Seq<usize>,
)
    requires
        s.to_visit.len() > 0,
        s.visited.len() > 0,
        forall|rest: Seq<usize>| #[trigger]
            grow(s, None, rest) == grow(origin, None, taken + rest),
        walk_on(s.grid, s.visited, Seq::empty(), s.to_visit[draw as int], walk_draws) is Walking,
    ensures
        grow(origin, None, taken.push(draw) + walk_draws) is None,
{
    let start = s.to_visit[draw as int];
    let all = seq![draw] + walk_draws;
    lemma_walk_runs_dry(s, Seq::empty(), start, walk_draws);
    assert(all.skip(1) =~= walk_draws);
    assert(grow(s, None, all) == grow(s, Some((Seq::empty(), start)), walk_draws));
    assert(grow(s, None, all) == grow(origin, None, taken + all));
    assert(taken + all =~= taken.push(draw) + walk_draws);
}

/// Whether cell `i` of `cells` touches the cell after it.
pub open spec fn touching_at(cells: Seq<Position>, i: int) -> bool {
    coordinate_adjacent(cells[i], cells[i + 1])
}

/// Puts back a grid without passages in place of `grid`.
fn clear_passages(grid: &mut Grid)
    requires
        old(grid).wf(),
    ensures
        final(grid).wf(),
        final(grid)@ == old(grid)@.cleared(),
{
    proof {
        grid.lemma_view();
    }
    let (columns, rows) = grid.get_number_of_cells_x_y();
    match Grid::new(columns, rows) {
        Ok(fresh) => {
            proof {
                lemma_cleared_by_size(fresh@, grid@);
            }
            *grid = fresh;
        },
        Err(_) => {},
    }
}

/// Opens the passages of a loop-erased walk, from its end backwards, and
/// moves its cells but the last from `to_visit` to `visited`.
fn open_passages(
    grid: &mut Grid,
    cells: &Vec<Position>,
    visited: &mut Vec<Position>,
    to_visit: &mut Vec<Position>,
    Ghost(tree): Ghost<Hanging>,
    Ghost(record): Ghost<Seq<(Seq<WalkStep>, Seq<WalkStep>, GridModel)>>,
) -> (grown: Ghost<Hanging>)
    requires
        old(grid).wf(),
        hangs_as(old(grid)@, old(visited)@.to_set(), tree),
        cells@.len() >= 2,
        cells@.no_duplicates(),
        forall|i: int| 0 <= i < cells@.len() - 1 ==> #[trigger] touching_at(cells@, i),
        forall|i: int| 0 <= i < cells@.len() - 1 ==> old(to_visit)@.contains(#[trigger] cells@[i]),
        old(visited)@.contains(cells@.last()),
        old(to_visit)@.no_duplicates(),
        forall|p: Position| #[trigger]
            old(to_visit)@.contains(p) ==> old(grid)@.contains(p) && !old(visited)@.contains(p),
        forall|p: Position|
            old(grid)@.contains(p) ==> old(visited)@.contains(p) || old(to_visit)@.contains(p),
    ensures
        final(grid).wf(),
        final(grid)@.width == old(grid)@.width,
        final(grid)@.height == old(grid)@.height,
        hangs_as(final(grid)@, final(visited)@.to_set(), grown@),
        final(grid)@ == old(grid)@.with_walk(cells@),
        (Growth {
            grid: final(grid)@,
            to_visit: final(to_visit)@,
            visited: final(visited)@,
            record,
        }) == (Growth {
            grid: old(grid)@,
            to_visit: old(to_visit)@,
            visited: old(visited)@,
            record,
        }).joined_from(cells@, 0),
        final(grid)@.edge_count() == old(grid)@.edge_count() + cells@.len() - 1,
        final(visited)@.len() == old(visited)@.len() + cells@.len() - 1,
        final(to_visit)@.len() == old(to_visit)@.len() - (cells@.len() - 1),
        final(to_visit)@.no_duplicates(),
        forall|p: Position| #[trigger]
            final(to_visit)@.contains(p) ==> final(grid)@.contains(p)
                && !final(visited)@.contains(p),
        forall|p: Position|
            final(grid)@.contains(p) ==> final(visited)@.contains(p)
                || final(to_visit)@.contains(p),
{
    let ghost mut tree = tree;
    let mut k: usize = cells.len() - 1;
    while k > 0
        invariant
            grid.wf(),
            grid@.width == old(grid)@.width,
            grid@.height == old(grid)@.height,
            hangs_as(grid@, visited@.to_set(), tree),
            grid@ == old(grid)@.with_steps(cells@, k as int),
            (Growth { grid: grid@, to_visit: to_visit@, visited: visited@, record }) == (Growth {
                grid: old(grid)@,
                to_visit: old(to_visit)@,
                visited: old(visited)@,
                record,
            }).joined_from(cells@, k as int),
            k <= cells@.len() - 1,
            cells@.len() >= 2,
            cells@.no_duplicates(),
            forall|i: int| 0 <= i < cells@.len() - 1 ==> #[trigger] touching_at(cells@, i),
            forall|i: int| 0 <= i < k ==> to_visit@.contains(#[trigger] cells@[i]),
            visited@.contains(cells@[k as int]),
            grid@.edge_count() == old(grid)@.edge_count() + cells@.len() - 1 - k,
            visited@.len() == old(visited)@.len() + cells@.len() - 1 - k,
            to_visit@.len() == old(to_visit)@.len() - (cells@.len() - 1 - k),
            to_visit@.no_duplicates(),
            forall|p: Position| #[trigger]
                to_visit@.contains(p) ==> grid@.contains(p) && !visited@.contains(p),
            forall|p: Position| grid@.contains(p) ==> visited@.contains(p) || to_visit@.contains(p),
        decreases k,
    {
        k = k - 1;
        let leaf = cells[k];
        let anchor = cells[k + 1];
        let ghost grid_before = grid@;
        let ghost visited_before = visited@;
        let ghost to_visit_before = to_visit@;
        proof {
            grid.lemma_view();
            assert(touching_at(cells@, k as int));
            assert(coordinate_adjacent(leaf, anchor));
            assert(to_visit@.contains(cells@[k as int]));
            assert(grid@.contains(leaf) && !visited@.contains(leaf));
            assert(visited@.to_set().contains(anchor));
            assert(grid@.contains(anchor));
            lemma_tree_grows(grid@, visited@.to_set(), tree, leaf, anchor);
            tree = tree.with_leaf(leaf, anchor);
        }
        let opened = grid.add_neighbor(leaf, anchor);
        assert(opened is Ok);
        assert(grid@ == grid_before.with_passage(leaf, anchor));
        assert(grid@.edge_count() == grid_before.edge_count() + 1);
        visited.push(leaf);
        let found = remove_position(to_visit, leaf);
        assert(found);
        proof {
            let place = first_index(to_visit_before, leaf);
            lemma_first_index(to_visit_before, leaf, to_visit_before.index_of(leaf));
            lemma_remove_distinct(to_visit_before, place);
            assert(visited@.to_set() =~= visited_before.to_set().insert(leaf)) by {
                assert forall|q: Position|
                    visited@.to_set().contains(q) <==> visited_before.to_set().insert(
                        leaf,
                    ).contains(q) by {
                    lemma_push_contains(visited_before, leaf, q);
                }
            }
            assert forall|p: Position| #[trigger] to_visit@.contains(p) implies grid@.contains(p)
                && !visited@.contains(p) by {
                lemma_push_contains(visited_before, leaf, p);
                assert(to_visit_before.contains(p));
            }
            assert forall|p: Position| grid@.contains(p) implies visited@.contains(p)
                || to_visit@.contains(p) by {
                lemma_push_contains(visited_before, leaf, p);
            }
            assert forall|i: int| 0 <= i < k implies to_visit@.contains(#[trigger] cells@[i]) by {
                assert(to_visit_before.contains(cells@[i]));
            }
            lemma_push_contains(visited_before, leaf, leaf);
        }
    }
    Ghost(tree)
}

/// Grows a maze on a grid without passages, by Wilson's algorithm.
///
/// One cell, drawn at random, is the root. Then, as long as a cell is left
/// outside the maze, one such cell is drawn, a walk goes at random from it
/// until it steps on the maze, and the walk with its loops taken out is
/// joined to the maze, passage by passage.
///
/// On a grid that already holds a passage nothing is done and
/// `NonEmptyGridError` is returned. If `rng` runs dry the grid is left
/// without passages and `RandomnessExhausted` is returned.
pub fn mazify<R: RandomSource>(grid: &mut Grid, rng: &mut R) -> (r: Result<
    MazeGenerationInternals,
    MazeError,
>)
    requires
        old(grid).wf(),
    ensures
        final(grid).wf(),
        final(grid)@.width == old(grid)@.width,
        final(grid)@.height == old(grid)@.height,
        final(rng).remaining() + final(rng).drawn().len() == old(rng).remaining()
            + old(rng).drawn().len(),
        old(grid)@.edge_count() != 0 ==> r is Err && r->Err_0 == MazeError::NonEmptyGridError
            && *final(grid) == *old(grid) && *final(rng) == *old(rng),
        old(grid)@.edge_count() == 0 ==> r is Ok || (r is Err && r->Err_0
            == MazeError::RandomnessExhausted && final(rng).remaining() == 0 && final(grid)@
            == old(grid)@),
        r matches Ok(internals) ==> final(grid)@.is_spanning_tree() && records_growth(
            internals@,
            final(grid)@,
        ),
        old(rng).drawn().is_prefix_of(final(rng).drawn()),
        old(grid)@.edge_count() == 0 ==> ({
            let grown = grow(
                Growth::begin(old(grid)@),
                None,
                final(rng).drawn().skip(old(rng).drawn().len() as int),
            );
            match r {
                Ok(internals) => grown matches Some(end) && end.grid == final(grid)@ && end.record
                    == internals@,
                Err(_) => grown is None,
            }
        }),
{
    if grid.passage_count() != 0 {
        return Err(MazeError::NonEmptyGridError);
    }
    let mut to_visit: Vec<Position> = grid.get_cells_positions();
    let mut visited: Vec<Position> = Vec::new();
    let mut paths_from_wilson: Vec<(Path, Path, Grid)> = Vec::new();
    let ghost cell_count = grid@.width * grid@.height;
    let ghost origin = Growth::begin(grid@);
    let ghost drawn_before = rng.drawn();
    proof {
        assert(rng.drawn().skip(drawn_before.len() as int) =~= Seq::<usize>::empty());
        assert(record_of(paths_from_wilson@) =~= Seq::empty());
        grid.lemma_view();
        lemma_lists_cells(grid@, to_visit@);
        lemma_cleared(grid@);
        assert(cell_count >= 1) by (nonlinear_arith)
            requires
                cell_count == grid@.width * grid@.height,
                grid@.width >= 1,
                grid@.height >= 1,
        ;
    }
    let index = match rng.next_below(to_visit.len()) {
        Some(index) => index,
        None => {
            return Err(MazeError::RandomnessExhausted);
        },
    };
    let ghost all_cells = to_visit@;
    let root = to_visit.swap_remove(index);
    visited.push(root);
    let ghost mut tree = Hanging::rooted_at(root);
    proof {
        lemma_root_chosen(origin, index);
        assert(visited@ =~= seq![root]);
        assert(rng.drawn().skip(drawn_before.len() as int) =~= seq![index]);
        assert((Growth {
            grid: grid@,
            to_visit: to_visit@,
            visited: visited@,
            record: record_of(paths_from_wilson@),
        }) == origin.rooted_by(index));
        lemma_swap_remove_distinct(all_cells, index as int);
        lemma_tree_of_one(grid@, root);
        assert(visited@.to_set() =~= set![root]) by {
            assert(visited@[0] == root);
        }
        assert forall|p: Position| grid@.contains(p) implies visited@.contains(p)
            || to_visit@.contains(p) by {
            assert(all_cells.contains(p));
            if p == root {
                assert(visited@[0] == root);
            }
        }
        assert forall|p: Position| #[trigger] to_visit@.contains(p) implies grid@.contains(p)
            && !visited@.contains(p) by {
            let k = all_cells.index_of(p);
            assert(grid@.contains(all_cells[k]));
        }
    }
    while !to_visit.is_empty()
        invariant
            origin == Growth::begin(old(grid)@),
            drawn_before == old(rng).drawn(),
            drawn_before.is_prefix_of(rng.drawn()),
            forall|rest: Seq<usize>| #[trigger]
                grow(
                    Growth {
                        grid: grid@,
                        to_visit: to_visit@,
                        visited: visited@,
                        record: record_of(paths_from_wilson@),
                    },
                    None,
                    rest,
                ) == grow(origin, None, rng.drawn().skip(drawn_before.len() as int) + rest),
            grid.wf(),
            grid@.width == old(grid)@.width,
            grid@.height == old(grid)@.height,
            old(grid)@ == old(grid)@.cleared(),
            old(grid)@.edge_count() == 0,
            cell_count == grid@.width * grid@.height,
            rng.remaining() + rng.drawn().len() == old(rng).remaining() + drawn_before.len(),
            hangs_as(grid@, visited@.to_set(), tree),
            visited@.len() >= 1,
            visited@.len() + to_visit@.len() == cell_count,
            grid@.edge_count() + 1 == visited@.len(),
            to_visit@.no_duplicates(),
            forall|p: Position| #[trigger]
                to_visit@.contains(p) ==> grid@.contains(p) && !visited@.contains(p),
            forall|p: Position| grid@.contains(p) ==> visited@.contains(p) || to_visit@.contains(p),
            records_growth(record_of(paths_from_wilson@), grid@),
        decreases to_visit@.len(),
    {
        let ghost now = Growth {
            grid: grid@,
            to_visit: to_visit@,
            visited: visited@,
            record: record_of(paths_from_wilson@),
        };
        let ghost taken = rng.drawn().skip(drawn_before.len() as int);
        let index = match rng.next_below(to_visit.len()) {
            Some(index) => index,
            None => {
                proof {
                    assert(taken + Seq::<usize>::empty() =~= taken);
                    assert(grow(now, None, Seq::<usize>::empty()) is None);
                    lemma_cleared_by_size(grid@, old(grid)@);
                }
                clear_passages(grid);
                return Err(MazeError::RandomnessExhausted);
            },
        };
        let cell_to_visit_pos: Position = to_visit[index];
        let ghost drawn_mid = rng.drawn();
        proof {
            assert(drawn_mid.skip(drawn_before.len() as int) =~= taken.push(index));
            assert(to_visit@.contains(cell_to_visit_pos));
            assert forall|i: int| 0 <= i < visited@.len() implies grid@.contains(
                #[trigger] visited@[i],
            ) by {
                assert(visited@.to_set().contains(visited@[i]));
            }
            assert(walk_refusal(cell_to_visit_pos, grid@, visited@) is None);
        }
        let path = match random_walk(cell_to_visit_pos, grid, &visited, rng) {
            Ok(path) => path,
            Err(_) => {
                proof {
                    let walk_draws = rng.drawn().skip(drawn_mid.len() as int);
                    assert(rng.drawn().skip(drawn_before.len() as int) =~= taken.push(index)
                        + walk_draws);
                    lemma_walk_failed(origin, now, taken, index, walk_draws);
                    lemma_cleared_by_size(grid@, old(grid)@);
                }
                clear_passages(grid);
                return Err(MazeError::RandomnessExhausted);
            },
        };
        let ghost walk_draws = rng.drawn().skip(drawn_mid.len() as int);
        proof {
            assert(rng.drawn().skip(drawn_before.len() as int) =~= taken.push(index) + walk_draws);
            lemma_walk_done(origin, now, taken, index, walk_draws);
        }
        let lep: Path = loop_erased_path(&path);
        let cell_positions = lep.get_cells_positions();
        proof {
            let walk = path@;
            let short = lep@;
            lemma_erase_loops(walk);
            assert forall|i: int| 0 <= i < short.len() - 1 implies to_visit@.contains(
                #[trigger] cell_positions@[i],
            ) by {
                let j = choose|j: int| 0 <= j < walk.len() - 1 && walk[j] == short[i];
                assert(positions_of(walk)[j] == cell_positions@[i]);
                assert(grid@.contains(positions_of(walk)[j]));
                if j >= 1 {
                    assert(!visited@.contains(positions_of(walk)[j]));
                }
            }
            assert(cell_positions@[0] == cell_to_visit_pos);
            assert(cell_positions@.last() == walk.last().cell_position);
            assert(cell_positions@.len() >= 2);
        }
        let ghost record_before = record_of(paths_from_wilson@);
        let ghost model_before = grid@;
        let grown = open_passages(
            grid,
            &cell_positions,
            &mut visited,
            &mut to_visit,
            Ghost(tree),
            Ghost(record_before),
        );
        proof {
            tree = grown@;
            grid.lemma_view();
        }
        paths_from_wilson.push((path, lep, grid.clone()));
        proof {
            let record = record_of(paths_from_wilson@);
            lemma_cleared_by_size(grid@, model_before);
            assert(record.last() == (path@, lep@, grid@));
            assert(record =~= record_before.push((path@, lep@, grid@)));
            assert((Growth { grid: grid@, to_visit: to_visit@, visited: visited@, record })
                == now.joined_by(path@));
            assert forall|k: int| 0 <= k < record_before.len() implies record_before[k]
                == record[k] by {}
            lemma_passages_opened_prefix(record_before, record, record_before.len() as int);
            assert forall|k: int| 0 <= k < record.len() implies {
                &&& is_trace((#[trigger] record[k]).0)
                &&& record[k].1 == erase_loops(record[k].0)
                &&& record[k].2.wf()
                &&& record[k].2.width == grid@.width
                &&& record[k].2.height == grid@.height
                &&& record[k].2.edge_count() == passages_opened(record, k + 1)
                &&& record[k].2 == grid_before(record, grid@, k).with_walk(
                    positions_of(record[k].1),
                )
            } by {
                if k < record_before.len() {
                    assert(record_before[k] == record[k]);
                    lemma_passages_opened_prefix(record_before, record, k + 1);
                    assert(grid_before(record, grid@, k) == grid_before(
                        record_before,
                        model_before,
                        k,
                    ));
                } else {
                    assert(grid_before(record, grid@, k) == model_before);
                }
            }
        }
    }
    proof {
        grid.lemma_view();
        lemma_tree_connected(grid@, visited@.to_set(), tree);
        lemma_tree_acyclic(grid@, visited@.to_set(), tree);
    }
    let internals = MazeGenerationInternals { paths: paths_from_wilson };
    proof {
        assert(internals@ == record_of(internals.paths@));
        let taken = rng.drawn().skip(drawn_before.len() as int);
        let end = Growth {
            grid: grid@,
            to_visit: to_visit@,
            visited: visited@,
            record: internals@,
        };
        assert(taken + Seq::<usize>::empty() =~= taken);
        assert(grow(end, None, Seq::<usize>::empty()) == Some(end));
    }
    Ok(internals)
}

} // verus!
