//! The square grid: a fixed number of cells addressed by 1-based coordinates.

use crate::error::GameError;
use crate::stone::Cell;
use vstd::arithmetic::div_mod::{
    lemma_div_pos_is_pos, lemma_fundamental_div_mod, lemma_fundamental_div_mod_converse,
    lemma_mod_bound,
};
use vstd::prelude::*;

verus! {

/// A point of the grid: its row and its column, both counted from 1.
#[derive(Clone, Copy, Debug, PartialEq, Eq, Hash, Structural)]
pub struct Coord(pub usize, pub usize);

/// What a board is, mathematically: the length of its side and the state of
/// every point on it.
pub struct BoardView {
    pub size: nat,
    pub cells: Map<Coord, Cell>,
}

impl BoardView {
    /// Whether `c` lies on the board.
    pub open spec fn contains(self, c: Coord) -> bool {
        1 <= c.0 <= self.size && 1 <= c.1 <= self.size
    }

    /// Every point of the board has a state, no other point has one, and
    /// the side is a length that a machine can hold.
    pub open spec fn wf(self) -> bool {
        &&& self.size <= usize::MAX
        &&& self.cells.dom() == Set::new(|c: Coord| self.contains(c))
    }

    /// The state of the point `c`.
    pub open spec fn at(self, c: Coord) -> Cell {
        self.cells[c]
    }

    /// Whether `c` is on the board and holds a stone.
    pub open spec fn stone_at(self, c: Coord) -> bool {
        self.contains(c) && self.at(c) != Cell::Empty
    }

    /// Whether `c` is on the board and holds no stone.
    pub open spec fn empty_at(self, c: Coord) -> bool {
        self.contains(c) && self.at(c) == Cell::Empty
    }

    /// The board of the given side with no stone on it.
    pub open spec fn empty(size: nat) -> BoardView {
        BoardView {
            size,
            cells: Map::new(
                |c: Coord| 1 <= c.0 <= size && 1 <= c.1 <= size,
                |c: Coord| Cell::Empty,
            ),
        }
    }

    /// This board with the point `c` set to `cell`, whatever it held.
    pub open spec fn put(self, c: Coord, cell: Cell) -> BoardView {
        BoardView { size: self.size, cells: self.cells.insert(c, cell) }
    }
}

/// The place of `c` in the row-major array of a board of side `size`.
pub open spec fn index_spec(size: nat, c: Coord) -> int {
    (c.0 - 1) * size + (c.1 - 1)
}

/// The point whose place in the row-major array is `k`.
pub open spec fn coord_at(size: nat, k: int) -> Coord {
    Coord((k / (size as int) + 1) as usize, (k % (size as int) + 1) as usize)
}

/// The place of a point of the board lies within the array.
pub proof fn lemma_index_in_range(size: nat, c: Coord)
    requires
        1 <= c.0 <= size,
        1 <= c.1 <= size,
    ensures
        0 <= (c.0 - 1) * size,
        0 <= index_spec(size, c) < size * size,
{
    let r = c.0 as int;
    let n = size as int;
    assert(0 <= (r - 1) * n && (r - 1) * n + n <= n * n) by (nonlinear_arith)
        requires
            1 <= r <= n,
    ;
}

/// `coord_at` undoes `index_spec` on the points of the board.
pub proof fn lemma_coord_at_index(size: nat, c: Coord)
    requires
        1 <= c.0 <= size,
        1 <= c.1 <= size,
    ensures
        coord_at(size, index_spec(size, c)) == c,
{
    lemma_fundamental_div_mod_converse(
        index_spec(size, c),
        size as int,
        c.0 - 1,
        c.1 - 1,
    );
}

/// `index_spec` undoes `coord_at` on the places of the array.
pub proof fn lemma_index_of_coord_at(size: nat, k: int)
    requires
        size <= usize::MAX,
        0 <= k < size * size,
    ensures
        1 <= coord_at(size, k).0 <= size,
        1 <= coord_at(size, k).1 <= size,
        index_spec(size, coord_at(size, k)) == k,
{
    let d = size as int;
    assert(d > 0) by (nonlinear_arith)
        requires
            0 <= k < d * d,
            d >= 0,
    ;
    lemma_fundamental_div_mod(k, d);
    lemma_mod_bound(k, d);
    lemma_div_pos_is_pos(k, d);
    let q = k / d;
    let r = k % d;
    assert(q < d && q * d == d * q) by (nonlinear_arith)
        requires
            k == d * q + r,
            0 <= r < d,
            0 <= q,
            k < d * d,
    ;
}

/// Two points of the board with the same place are the same point.
pub proof fn lemma_index_injective(size: nat, a: Coord, b: Coord)
    requires
        1 <= a.0 <= size,
        1 <= a.1 <= size,
        1 <= b.0 <= size,
        1 <= b.1 <= size,
        index_spec(size, a) == index_spec(size, b),
    ensures
        a == b,
{
    lemma_coord_at_index(size, a);
    lemma_coord_at_index(size, b);
}

/// The place of the point `coord` in the row-major array of a board of side
/// `size`: rows come one after the other, each with its columns in order.
pub fn get_index(size: usize, coord: Coord) -> (index: usize)
    requires
        1 <= coord.0 <= size,
        1 <= coord.1 <= size,
        size * size <= usize::MAX,
    ensures
        index == index_spec(size as nat, coord),
        index < size * size,
{
    proof {
        lemma_index_in_range(size as nat, coord);
    }
    (coord.0 - 1) * size + (coord.1 - 1)
}

/// A square board.  Its cells are private: they change only through `set`.
pub struct Board {
    cells: Vec<Cell>,
    size: usize,
}

impl View for Board {
    type V = BoardView;

    closed spec fn view(&self) -> BoardView {
        BoardView {
            size: self.size as nat,
            cells: Map::new(
                |c: Coord| 1 <= c.0 <= self.size && 1 <= c.1 <= self.size,
                |c: Coord| self.cells@[index_spec(self.size as nat, c)],
            ),
        }
    }
}

impl Board {
    /// The board holds one cell for each point of its square.  `new` makes
    /// such a board and every method keeps it so.
    pub closed spec fn wf(&self) -> bool {
        self.cells@.len() == self.size * self.size <= usize::MAX
    }

    /// The view of any board is well formed.
    pub proof fn lemma_view_wf(&self)
        ensures
            self@.wf(),
    {
        assert(self@.cells.dom() =~= Set::new(|c: Coord| self@.contains(c)));
    }

    /// A board of the given side with every point empty.
    pub fn new(size: usize) -> (board: Board)
        requires
            size * size <= usize::MAX,
        ensures
            board.wf(),
            board@ == BoardView::empty(size as nat),
            board@.size == size,
            forall|c: Coord| board@.contains(c) ==> board@.at(c) == Cell::Empty,
    {
        let total = size * size;
        let mut cells: Vec<Cell> = Vec::new();
        let mut i: usize = 0;
        while i < total
            invariant
                i <= total,
                cells@.len() == i,
                forall|j: int| 0 <= j < i ==> cells@[j] == Cell::Empty,
            decreases total - i,
        {
            cells.push(Cell::Empty);
            i += 1;
        }
        let board = Board { cells, size };
        proof {
            assert forall|c: Coord| board@.cells.dom().contains(c) implies board@.cells[c]
                == Cell::Empty by {
                lemma_index_in_range(size as nat, c);
            }
            assert(board@.cells =~= BoardView::empty(size as nat).cells);
        }
        board
    }

    /// The length of the board's side.
    pub fn size(&self) -> (n: usize)
        requires
            self.wf(),
        ensures
            n == self@.size,
            n * n <= usize::MAX,
            self@.wf(),
    {
        proof {
            self.lemma_view_wf();
        }
        self.size
    }

    /// The state of a point that is known to lie on the board.
    pub fn cell_at(&self, coord: Coord) -> (cell: Cell)
        requires
            self.wf(),
            self@.contains(coord),
        ensures
            cell == self@.at(coord),
    {
        let i = get_index(self.size, coord);
        self.cells[i]
    }

    /// The state of the point `coord`, or `GameError::Range` when the point
    /// is not on the board.
    pub fn get(&self, coord: Coord) -> (r: Result<Cell, GameError>)
        requires
            self.wf(),
        ensures
            self@.contains(coord) ==> r == Ok::<Cell, GameError>(self@.at(coord)),
            !self@.contains(coord) ==> r == Err::<Cell, GameError>(GameError::Range),
    {
        if 1 <= coord.0 && coord.0 <= self.size && 1 <= coord.1 && coord.1 <= self.size {
            Ok(self.cell_at(coord))
        } else {
            Err(GameError::Range)
        }
    }

    /// Sets the point `coord` to `cell`, whatever it held before.  A point that
    /// is not on the board is refused with `GameError::Range`, and the board
    /// stays as it was.
    pub fn set(&mut self, coord: Coord, cell: Cell) -> (r: Result<(), GameError>)
        requires
            old(self).wf(),
        ensures
            final(self).wf(),
            old(self)@.contains(coord) ==> r is Ok && final(self)@ == old(self)@.put(
                coord,
                cell,
            ),
            !old(self)@.contains(coord) ==> r == Err::<(), GameError>(GameError::Range)
                && final(self)@ == old(self)@,
    {
        if 1 <= coord.0 && coord.0 <= self.size && 1 <= coord.1 && coord.1 <= self.size {
            let i = get_index(self.size, coord);
            self.cells.set(i, cell);
            proof {
                let size = self.size as nat;
                assert forall|c: Coord| self@.cells.dom().contains(c) implies self@.cells[c]
                    == old(self)@.put(coord, cell).cells[c] by {
                    lemma_index_in_range(size, c);
                    if c != coord {
                        if index_spec(size, c) == index_spec(size, coord) {
                            lemma_index_injective(size, c, coord);
                        }
                    }
                }
                assert(self@.cells =~= old(self)@.put(coord, cell).cells);
            }
            Ok(())
        } else {
            Err(GameError::Range)
        }
    }
}

} // verus!
