//! Positions on the grid and the cells that occupy them.

use vstd::prelude::*;

verus! {

/// A place on the grid: column `x`, row `y`.
#[derive(Debug, Clone, Copy, PartialEq, Eq, Hash, Structural)]
pub struct Position {
    pub x: usize,
    pub y: usize,
}

/// Whether `a` and `b` are one step apart along exactly one axis.
pub open spec fn coordinate_adjacent(a: Position, b: Position) -> bool {
    ||| (a.y == b.y && (a.x + 1 == b.x || b.x + 1 == a.x))
    ||| (a.x == b.x && (a.y + 1 == b.y || b.y + 1 == a.y))
}

/// Decides whether two positions are one step apart along exactly one axis.
pub fn positions_touch(a: Position, b: Position) -> (r: bool)
    ensures
        r == coordinate_adjacent(a, b),
{
    if a.y == b.y {
        (a.x < b.x && b.x - a.x == 1) || (b.x < a.x && a.x - b.x == 1)
    } else if a.x == b.x {
        (a.y < b.y && b.y - a.y == 1) || (b.y < a.y && a.y - b.y == 1)
    } else {
        false
    }
}

/// Decides whether `p` occurs in `list`.
pub fn contains_position(list: &Vec<Position>, p: Position) -> (r: bool)
    ensures
        r == list@.contains(p),
{
    let mut i: usize = 0;
    while i < list.len()
        invariant
            i <= list.len(),
            forall|k: int| 0 <= k < i ==> list@[k] != p,
        decreases list.len() - i,
    {
        if list[i] == p {
            return true;
        }
        i = i + 1;
    }
    false
}

/// Whether `f` is the place at which `cells` holds `p` for the first time.
pub open spec fn is_first_index(cells: Seq<Position>, p: Position, f: int) -> bool {
    &&& 0 <= f < cells.len()
    &&& cells[f] == p
    &&& forall|j: int| 0 <= j < f ==> cells[j] != p
}

/// The place at which `cells` holds `p` for the first time.
pub open spec fn first_index(cells: Seq<Position>, p: Position) -> int {
    choose|f: int| is_first_index(cells, p, f)
}

/// A cell that occurs at place `i` has a first place, at `i` or before it.
pub proof fn lemma_first_index(cells: Seq<Position>, p: Position, i: int)
    requires
        0 <= i < cells.len(),
        cells[i] == p,
    ensures
        is_first_index(cells, p, first_index(cells, p)),
        first_index(cells, p) <= i,
    decreases i,
{
    if forall|j: int| 0 <= j < i ==> cells[j] != p {
        assert(is_first_index(cells, p, i));
    } else {
        let j = choose|j: int| 0 <= j < i && cells[j] == p;
        lemma_first_index(cells, p, j);
    }
    let f = first_index(cells, p);
    if f > i {
        assert(cells[i] != p);
    }
}

/// A cell has one first place only.
pub proof fn lemma_first_index_unique(cells: Seq<Position>, p: Position, f: int)
    requires
        is_first_index(cells, p, f),
    ensures
        first_index(cells, p) == f,
{
    let g = first_index(cells, p);
    assert(is_first_index(cells, p, g));
    if g < f {
        assert(cells[g] != p);
    }
    if f < g {
        assert(cells[f] != p);
    }
}

/// A copy of `list`.
pub fn copy_positions(list: &Vec<Position>) -> (copy: Vec<Position>)
    ensures
        copy@ == list@,
{
    let mut copy: Vec<Position> = Vec::new();
    let mut k: usize = 0;
    while k < list.len()
        invariant
            k <= list.len(),
            copy@ == list@.take(k as int),
        decreases list.len() - k,
    {
        copy.push(list[k]);
        assert(list@.take(k + 1) =~= list@.take(k as int).push(list@[k as int]));
        k = k + 1;
    }
    assert(list@.take(list.len() as int) =~= list@);
    copy
}

/// The cells of `list` from last to first.
pub fn reverse_positions(list: &Vec<Position>) -> (reversed: Vec<Position>)
    ensures
        reversed@ == list@.reverse(),
{
    let mut reversed: Vec<Position> = Vec::new();
    let mut k: usize = list.len();
    while k > 0
        invariant
            k <= list.len(),
            reversed.len() == list.len() - k,
            forall|m: int| 0 <= m < reversed.len() ==> reversed[m] == list[list.len() - 1 - m],
        decreases k,
    {
        k = k - 1;
        reversed.push(list[k]);
    }
    assert(reversed@ =~= list@.reverse());
    reversed
}

/// The place at which `list` holds `p` for the first time, if it holds it.
pub fn find_position(list: &Vec<Position>, p: Position) -> (place: Option<usize>)
    ensures
        place is Some <==> list@.contains(p),
        place matches Some(k) ==> k == first_index(list@, p) && is_first_index(list@, p, k as int),
{
    let mut i: usize = 0;
    while i < list.len()
        invariant
            i <= list.len(),
            forall|k: int| 0 <= k < i ==> list@[k] != p,
        decreases list.len() - i,
    {
        if list[i] == p {
            proof {
                assert(is_first_index(list@, p, i as int));
                lemma_first_index_unique(list@, p, i as int);
            }
            return Some(i);
        }
        i = i + 1;
    }
    None
}

/// Takes the first occurrence of `p` out of `list`, if there is one.
pub fn remove_position(list: &mut Vec<Position>, p: Position) -> (found: bool)
    ensures
        found == old(list)@.contains(p),
        found ==> final(list)@ == old(list)@.remove(first_index(old(list)@, p)),
        !found ==> final(list)@ == old(list)@,
{
    let mut i: usize = 0;
    while i < list.len()
        invariant
            i <= list.len(),
            list@ == old(list)@,
            forall|k: int| 0 <= k < i ==> list@[k] != p,
        decreases list.len() - i,
    {
        if list[i] == p {
            proof {
                assert(is_first_index(list@, p, i as int));
                lemma_first_index_unique(list@, p, i as int);
            }
            list.remove(i);
            return true;
        }
        i = i + 1;
    }
    false
}

/// What a list holds after one more cell was put at its end.
pub proof fn lemma_push_contains(s: Seq<Position>, a: Position, q: Position)
    ensures
        s.push(a).contains(q) <==> (s.contains(q) || q == a),
{
    if s.contains(q) {
        let k = s.index_of(q);
        assert(s.push(a)[k] == q);
    }
    if q == a {
        assert(s.push(a)[s.len() as int] == q);
    }
}

/// What is left of a list without repeats when the cell at one place is
/// replaced by the last and the last place is dropped: the same cells but
/// the one that stood there, still without repeats.
pub proof fn lemma_swap_remove_distinct(s: Seq<Position>, k: int)
    requires
        s.no_duplicates(),
        0 <= k < s.len(),
    ensures
        s.update(k, s.last()).drop_last().no_duplicates(),
        forall|q: Position| #[trigger]
            s.update(k, s.last()).drop_last().contains(q) <==> (s.contains(q) && q != s[k]),
{
    let r = s.update(k, s.last()).drop_last();
    assert forall|q: Position| #[trigger] r.contains(q) <==> (s.contains(q) && q != s[k]) by {
        if r.contains(q) {
            let i = r.index_of(q);
            if i == k {
                assert(s[s.len() - 1] == q);
            } else {
                assert(s[i] == q);
            }
        }
        if s.contains(q) && q != s[k] {
            let i = s.index_of(q);
            if i == s.len() - 1 {
                assert(r[k] == q);
            } else {
                assert(r[i] == q);
            }
        }
    }
}

/// What is left of a list without repeats when one place is taken out: the
/// same cells but the one that stood there, still without repeats.
pub proof fn lemma_remove_distinct(s: Seq<Position>, k: int)
    requires
        s.no_duplicates(),
        0 <= k < s.len(),
    ensures
        s.remove(k).no_duplicates(),
        s.remove(k).len() == s.len() - 1,
        forall|q: Position| #[trigger] s.remove(k).contains(q) <==> (s.contains(q) && q != s[k]),
{
    let r = s.remove(k);
    assert forall|q: Position| #[trigger] r.contains(q) <==> (s.contains(q) && q != s[k]) by {
        if r.contains(q) {
            let i = r.index_of(q);
            if i < k {
                assert(s[i] == q);
            } else {
                assert(s[i + 1] == q);
            }
        }
        if s.contains(q) && q != s[k] {
            let i = s.index_of(q);
            if i < k {
                assert(r[i] == q);
            } else {
                assert(r[i - 1] == q);
            }
        }
    }
}

/// One cell of the grid. It knows where it stands and nothing else.
#[derive(Debug)]
pub struct Cell {
    position: Position,
}

impl View for Cell {
    type V = Position;

    closed spec fn view(&self) -> Position {
        self.position
    }
}

impl Cell {
    /// The cell in column `x` of row `y`.
    pub fn new(x: usize, y: usize) -> (cell: Cell)
        ensures
            cell@ == (Position { x, y }),
    {
        Self { position: Position { x: x, y: y } }
    }

    /// The cell at `(column, row)`.
    pub fn from_tuple(t: (usize, usize)) -> (cell: Cell)
        ensures
            cell@ == (Position { x: t.0, y: t.1 }),
    {
        Self { position: Position { x: t.0, y: t.1 } }
    }

    /// The cell's column.
    pub fn get_x(&self) -> (x: usize)
        ensures
            x == self@.x,
    {
        self.position.x
    }

    /// The cell's row.
    pub fn get_y(&self) -> (y: usize)
        ensures
            y == self@.y,
    {
        self.position.y
    }

    /// Where the cell stands.
    pub fn get_position(&self) -> (position: Position)
        ensures
            position == self@,
    {
        self.position
    }
}

} // verus!
