//! The grid: a fixed rectangle of cells and the passages opened between them.

use vstd::prelude::*;
use crate::error::MazeError;
use crate::model::cell::{
    Cell, Position, contains_position, coordinate_adjacent, copy_positions, positions_touch,
};
use crate::model::graph::{
    GridModel, lemma_index_in_range, lemma_index_injective, lemma_links_are_passages,
    lemma_lists_cells, lemma_with_passage, passage,
};

verus! {

/// A rectangle of cells. Each cell keeps the list of the cells it has a
/// passage to, in the order in which the passages were opened.
pub struct Grid {
    number_of_cells_x: u16,
    number_of_cells_y: u16,
    /// The cells, row by row.
    cells: Vec<Cell>,
    /// For each cell, row by row, the cells joined to it.
    neighbors: Vec<Vec<Position>>,
}

impl View for Grid {
    type V = GridModel;

    closed spec fn view(&self) -> GridModel {
        GridModel {
            width: self.number_of_cells_x as nat,
            height: self.number_of_cells_y as nat,
            links: Map::new(
                |p: Position| self.on_grid(p),
                |p: Position| self.neighbors@[self.slot(p)]@,
            ),
        }
    }
}

impl Grid {
    /// Whether `p` is a cell of this grid.
    closed spec fn on_grid(&self, p: Position) -> bool {
        p.x < self.number_of_cells_x && p.y < self.number_of_cells_y
    }

    /// The place of `p` in the row-by-row lists.
    closed spec fn slot(&self, p: Position) -> int {
        p.y * self.number_of_cells_x + p.x
    }

    /// What holds of every grid that this library hands out.
    pub closed spec fn wf(&self) -> bool {
        &&& self.cells.len() == self.number_of_cells_x * self.number_of_cells_y
        &&& forall|k: int|
            0 <= k < self.cells.len() ==> self.on_grid(#[trigger] self.cells[k]@) && self.slot(
                self.cells[k]@,
            ) == k
        &&& self.neighbors.len() == self.number_of_cells_x * self.number_of_cells_y
        &&& self@.wf()
    }

    /// The view of a well-formed grid is a well-formed model of a size that
    /// the grid can have.
    pub proof fn lemma_view(&self)
        requires
            self.wf(),
        ensures
            self@.wf(),
            self@.width <= u16::MAX,
            self@.height <= u16::MAX,
    {
    }

    /// A grid of `number_of_cells_x` columns and `number_of_cells_y` rows
    /// without any passage. Both numbers must be at least one.
    pub fn new(number_of_cells_x: u16, number_of_cells_y: u16) -> (r: Result<Grid, MazeError>)
        ensures
            r is Ok <==> number_of_cells_x >= 1 && number_of_cells_y >= 1,
            r matches Err(e) ==> e == MazeError::InvalidDimensions,
            r matches Ok(grid) ==> {
                &&& grid.wf()
                &&& grid@.width == number_of_cells_x
                &&& grid@.height == number_of_cells_y
                &&& grid@ == grid@.cleared()
                &&& grid@.edge_count() == 0
            },
    {
        if number_of_cells_x == 0 || number_of_cells_y == 0 {
            return Err(MazeError::InvalidDimensions);
        }
        let width: usize = number_of_cells_x as usize;
        let height: usize = number_of_cells_y as usize;
        let mut cells: Vec<Cell> = Vec::new();
        let mut neighbors: Vec<Vec<Position>> = Vec::new();
        let mut y: usize = 0;
        while y < height
            invariant
                width == number_of_cells_x,
                height == number_of_cells_y,
                width >= 1,
                y <= height,
                cells.len() == y * width,
                neighbors.len() == y * width,
                forall|k: int|
                    0 <= k < cells.len() ==> (#[trigger] cells[k]@).x < width && cells[k]@.y
                        < height && cells[k]@.y * width + cells[k]@.x == k,
                forall|k: int| 0 <= k < neighbors.len() ==> (#[trigger] neighbors[k])@.len() == 0,
            decreases height - y,
        {
            let mut x: usize = 0;
            while x < width
                invariant
                    width == number_of_cells_x,
                    height == number_of_cells_y,
                    y < height,
                    x <= width,
                    cells.len() == y * width + x,
                    neighbors.len() == y * width + x,
                    forall|k: int|
                        0 <= k < cells.len() ==> (#[trigger] cells[k]@).x < width && cells[k]@.y
                            < height && cells[k]@.y * width + cells[k]@.x == k,
                    forall|k: int|
                        0 <= k < neighbors.len() ==> (#[trigger] neighbors[k])@.len() == 0,
                decreases width - x,
            {
                cells.push(Cell::new(x, y));
                neighbors.push(Vec::new());
                x = x + 1;
            }
            assert((y + 1) * width == y * width + width) by (nonlinear_arith);
            y = y + 1;
        }
        let grid = Grid { number_of_cells_x, number_of_cells_y, cells, neighbors };
        proof {
            assert(height * width == width * height) by (nonlinear_arith);
            assert forall|p: Position| grid@.contains(p) implies #[trigger] grid@.links[p]
                == Seq::<Position>::empty() by {
                lemma_index_in_range(grid@, p);
                assert(grid.neighbors[grid.slot(p)]@.len() == 0);
                assert(grid@.links[p] =~= Seq::<Position>::empty());
            }
            assert(grid@.links =~= grid@.cleared().links);
            assert(grid@.passages() =~= Set::<(Position, Position)>::empty());
        }
        Ok(grid)
    }

    /// Decides whether `pos` is a cell of this grid.
    pub fn has_position(&self, pos: Position) -> (r: bool)
        ensures
            r == self@.contains(pos),
    {
        pos.x < self.number_of_cells_x as usize && pos.y < self.number_of_cells_y as usize
    }

    /// The place of a cell of the grid when the cells are counted row by row.
    pub fn position_index(&self, pos: Position) -> (i: usize)
        requires
            self.wf(),
            self@.contains(pos),
        ensures
            i == self@.index_of(pos),
            i < self@.width * self@.height,
    {
        let width: usize = self.number_of_cells_x as usize;
        proof {
            lemma_index_in_range(self@, pos);
            assert(pos.y * width <= 65534 * 65535) by (nonlinear_arith)
                requires
                    0 <= pos.y <= 65534,
                    0 <= width <= 65535,
            ;
        }
        pos.y * width + pos.x
    }

    /// The numbers of columns and of rows.
    pub fn get_number_of_cells_x_y(&self) -> (r: (u16, u16))
        ensures
            r.0 == self@.width,
            r.1 == self@.height,
    {
        (self.number_of_cells_x, self.number_of_cells_y)
    }

    /// Whether a passage joins `pos1` and `pos2`. Positions outside the grid
    /// are joined to nothing.
    pub fn are_neighbors(&self, pos1: Position, pos2: Position) -> (r: bool)
        requires
            self.wf(),
        ensures
            r == self@.adjacent(pos1, pos2),
    {
        if !self.has_position(pos1) {
            assert(!self@.passages().contains(passage(pos1, pos2)));
            return false;
        }
        let i = self.position_index(pos1);
        proof {
            lemma_links_are_passages(self@, pos1, pos2);
            assert(self@.links[pos1] == self.neighbors[i as int]@);
        }
        contains_position(&self.neighbors[i], pos2)
    }

    /// Opens a passage between two touching cells of the grid. Opening a
    /// passage that is already open changes nothing.
    pub fn add_neighbor(&mut self, pos1: Position, pos2: Position) -> (r: Result<(), MazeError>)
        requires
            old(self).wf(),
        ensures
            final(self).wf(),
            r is Ok <==> old(self)@.contains(pos1) && old(self)@.contains(pos2)
                && coordinate_adjacent(pos1, pos2),
            r matches Err(e) ==> *final(self) == *old(self) && e == (if old(self)@.contains(pos1)
                && old(self)@.contains(pos2) {
                MazeError::NonAdjacentPositions
            } else {
                MazeError::InvalidPosition
            }),
            r is Ok ==> final(self)@ == old(self)@.with_passage(pos1, pos2),
            r is Ok ==> final(self)@.passages() == old(self)@.passages().insert(
                passage(pos1, pos2),
            ),
            r is Ok && old(self)@.adjacent(pos1, pos2) ==> *final(self) == *old(self),
    {
        if !self.has_position(pos1) || !self.has_position(pos2) {
            return Err(MazeError::InvalidPosition);
        }
        if !positions_touch(pos1, pos2) {
            return Err(MazeError::NonAdjacentPositions);
        }
        proof {
            lemma_with_passage(self@, pos1, pos2);
        }
        if self.are_neighbors(pos1, pos2) {
            return Ok(());
        }
        let i1 = self.position_index(pos1);
        let i2 = self.position_index(pos2);
        proof {
            if i1 == i2 {
                lemma_index_injective(self@, pos1, pos2);
            }
        }
        self.neighbors[i1].push(pos2);
        self.neighbors[i2].push(pos1);
        proof {
            let before = old(self)@;
            let grown = before.with_passage(pos1, pos2);
            assert(self@.links =~= grown.links) by {
                assert forall|p: Position| self@.links.dom().contains(p) implies self@.links[p]
                    == grown.links[p] by {
                    lemma_index_in_range(before, p);
                    if p != pos1 && p != pos2 {
                        if before.index_of(p) == i1 {
                            lemma_index_injective(before, p, pos1);
                        }
                        if before.index_of(p) == i2 {
                            lemma_index_injective(before, p, pos2);
                        }
                    }
                }
            }
            assert(self@ == grown);
        }
        Ok(())
    }

    /// The cells of the grid, row by row.
    pub fn get_cells_positions(&self) -> (positions: Vec<Position>)
        requires
            self.wf(),
        ensures
            self@.lists_cells(positions@),
            positions@ == self@.cells(),
    {
        let mut positions: Vec<Position> = Vec::new();
        let mut k: usize = 0;
        while k < self.cells.len()
            invariant
                self.wf(),
                k <= self.cells.len(),
                positions.len() == k,
                forall|i: int| 0 <= i < k ==> #[trigger] positions[i] == self.cells[i]@,
            decreases self.cells.len() - k,
        {
            positions.push(self.cells[k].get_position());
            k = k + 1;
        }
        proof {
            assert forall|i: int| 0 <= i < positions.len() implies self@.contains(
                #[trigger] positions[i],
            ) && self@.index_of(positions[i]) == i by {
                assert(self.on_grid(self.cells[i]@));
            }
            lemma_lists_cells(self@, positions@);
        }
        positions
    }

    /// For each cell, row by row, the cells it has a passage to.
    pub fn get_neighbors(&self) -> (lists: &Vec<Vec<Position>>)
        requires
            self.wf(),
        ensures
            lists.len() == self@.width * self@.height,
            forall|p: Position|
                self@.contains(p) ==> (#[trigger] lists[self@.index_of(p)])@ == self@.links[p],
    {
        &self.neighbors
    }

    /// The cells that `pos` has a passage to, in the order in which the
    /// passages were opened; none for a position outside the grid.
    pub fn get_neighbors_of_pos(&self, pos: Position) -> (list: Vec<Position>)
        requires
            self.wf(),
        ensures
            list@ == (if self@.contains(pos) {
                self@.links[pos]
            } else {
                Seq::empty()
            }),
    {
        if !self.has_position(pos) {
            return Vec::new();
        }
        let i = self.position_index(pos);
        copy_positions(&self.neighbors[i])
    }

    /// The number of passages.
    pub fn passage_count(&self) -> (count: u64)
        requires
            self.wf(),
        ensures
            count == self@.edge_count(),
    {
        let width: usize = self.number_of_cells_x as usize;
        let height: usize = self.number_of_cells_y as usize;
        let mut count: u64 = 0;
        let mut k: usize = 0;
        proof {
            self.lemma_view();
            assert(self.counted(0) =~= Set::<(Position, Position)>::empty());
            assert(width * height <= 65535 * 65535) by (nonlinear_arith)
                requires
                    0 <= width <= 65535,
                    0 <= height <= 65535,
            ;
        }
        while k < self.cells.len()
            invariant
                self.wf(),
                self@.wf(),
                width == self.number_of_cells_x,
                height == self.number_of_cells_y,
                k <= self.cells.len(),
                self.cells.len() <= 65535 * 65535,
                self.counted(k as int).finite(),
                count == self.counted(k as int).len(),
                count <= 2 * k,
            decreases self.cells.len() - k,
        {
            let p = self.cells[k].get_position();
            assert(self.on_grid(self.cells[k as int]@));
            let right = Position { x: p.x + 1, y: p.y };
            let below = Position { x: p.x, y: p.y + 1 };
            let ghost before = self.counted(k as int);
            let ghost mut grown = before;
            if self.are_neighbors(p, right) {
                count = count + 1;
                proof {
                    grown = grown.insert((p, right));
                }
            }
            if self.are_neighbors(p, below) {
                count = count + 1;
                proof {
                    grown = grown.insert((p, below));
                }
            }
            proof {
                assert(passage(p, right) == (p, right));
                assert(passage(p, below) == (p, below));
                assert forall|e: (Position, Position)| #[trigger]
                    self.counted(k + 1).contains(e) <==> grown.contains(e) by {
                    if self@.passages().contains(e) && self.slot(e.0) == k {
                        lemma_index_injective(self@, e.0, p);
                    }
                }
                assert(self.counted(k + 1) =~= grown);
            }
            k = k + 1;
        }
        proof {
            assert forall|e: (Position, Position)|
                self@.passages().contains(e) implies self.counted(k as int).contains(e) by {
                lemma_index_in_range(self@, e.0);
            }
            assert(self.counted(k as int) =~= self@.passages());
        }
        count
    }

    /// The passages whose earlier cell stands before place `k`.
    closed spec fn counted(&self, k: int) -> Set<(Position, Position)> {
        Set::new(|e: (Position, Position)| self@.passages().contains(e) && self.slot(e.0) < k)
    }
}

impl Clone for Grid {
    /// A grid of the same size with the same passages, opened in the same
    /// order.
    fn clone(&self) -> (copy: Grid)
        ensures
            self.wf() ==> copy.wf() && copy@ == self@,
    {
        let mut cells: Vec<Cell> = Vec::new();
        let mut k: usize = 0;
        while k < self.cells.len()
            invariant
                k <= self.cells.len(),
                cells.len() == k,
                forall|i: int| 0 <= i < k ==> (#[trigger] cells[i])@ == self.cells[i]@,
            decreases self.cells.len() - k,
        {
            let position = self.cells[k].get_position();
            cells.push(Cell::new(position.x, position.y));
            k = k + 1;
        }
        let mut neighbors: Vec<Vec<Position>> = Vec::new();
        let mut n: usize = 0;
        while n < self.neighbors.len()
            invariant
                n <= self.neighbors.len(),
                neighbors.len() == n,
                forall|i: int| 0 <= i < n ==> (#[trigger] neighbors[i])@ == self.neighbors[i]@,
            decreases self.neighbors.len() - n,
        {
            neighbors.push(copy_positions(&self.neighbors[n]));
            n = n + 1;
        }
        let copy = Grid {
            number_of_cells_x: self.number_of_cells_x,
            number_of_cells_y: self.number_of_cells_y,
            cells,
            neighbors,
        };
        proof {
            if self.wf() {
                assert(copy@.links =~= self@.links) by {
                    assert forall|p: Position| self@.links.dom().contains(p) implies copy@.links[p]
                        == self@.links[p] by {
                        lemma_index_in_range(self@, p);
                    }
                }
                assert(copy@ == self@);
                assert forall|i: int| 0 <= i < copy.cells.len() implies copy.on_grid(
                    #[trigger] copy.cells[i]@,
                ) && copy.slot(copy.cells[i]@) == i by {
                    assert(self.on_grid(self.cells[i]@));
                }
            }
        }
        copy
    }
}

} // verus!
