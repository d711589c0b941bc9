//! Capture resolution: one sweep over the whole board, in row-major order,
//! that takes off every chain found without a liberty.

use crate::board::{
    coord_at, get_index, index_spec, lemma_coord_at_index, lemma_index_in_range, Board, BoardView,
    Coord,
};
use crate::chain::{
    adjacent, lemma_connected_same_colour, lemma_connected_to_itself, lemma_group_of_member,
    explore, lemma_walk_prefix,
};
use crate::marks::{blank_marks, mark_all, marked, Scratch};
use crate::stone::Cell;
use vstd::prelude::*;

verus! {

/// The points of a board of side `size` in the order of the sweep: row 1
/// from column 1 to the last, then row 2, and so on.
pub open spec fn row_major(size: nat) -> Seq<Coord> {
    Seq::new(size * size, |k: int| coord_at(size, k))
}

/// The sizes of a list of chains as mathematical numbers.
pub open spec fn as_nats(sizes: Seq<usize>) -> Seq<nat> {
    sizes.map_values(|n: usize| n as nat)
}

impl BoardView {
    /// This board with every point of `chain` emptied and every other point
    /// as it was.
    pub open spec fn without(self, chain: Set<Coord>) -> BoardView {
        BoardView {
            size: self.size,
            cells: Map::new(
                |c: Coord| self.contains(c),
                |c: Coord|
                    if chain.contains(c) {
                        Cell::Empty
                    } else {
                        self.at(c)
                    },
            ),
        }
    }

    /// Whether the chain of `p` has at least one liberty.
    pub open spec fn has_liberty(self, p: Coord) -> bool {
        exists|e: Coord| self.liberties(self.group(p)).contains(e)
    }

    /// Whether the sweep, arriving at `p`, takes a chain off: `p` holds a
    /// stone and the chain of that stone has no liberty.
    pub open spec fn captured_at(self, p: Coord) -> bool {
        self.stone_at(p) && !self.has_liberty(p)
    }

    /// What the sweep does at the point `p`: where the chain of `p` has no
    /// liberty, the board loses exactly that chain and the chain's size is
    /// reported; otherwise nothing changes and nothing is reported.  The
    /// colour of the chain plays no part.
    pub open spec fn visit(self, p: Coord) -> (BoardView, Seq<nat>) {
        if self.captured_at(p) {
            (self.without(self.group(p)), seq![self.group(p).len()])
        } else {
            (self, Seq::empty())
        }
    }

    /// The board after the points of `order` were visited one after the
    /// other, each on the board that the visits before it left, and the sizes
    /// reported on the way, in the order of the visits.
    pub open spec fn visit_all(self, order: Seq<Coord>) -> (BoardView, Seq<nat>)
        decreases order.len(),
    {
        if order.len() == 0 {
            (self, Seq::empty())
        } else {
            let (before, sizes) = self.visit_all(order.drop_last());
            let (after, size) = before.visit(order.last());
            (after, sizes + size)
        }
    }

    /// The result of capture resolution: the board after one sweep in
    /// row-major order, and the sizes of the chains taken off, in the order
    /// in which the sweep came upon them.
    pub open spec fn resolve(self) -> (BoardView, Seq<nat>) {
        self.visit_all(row_major(self.size))
    }
}

/// Taking stones off that belong to other chains leaves the chain of `c` as
/// it was.
pub proof fn lemma_group_survives(b: BoardView, gone: Set<Coord>, c: Coord)
    requires
        forall|x: Coord| b.group(c).contains(x) ==> !gone.contains(x),
    ensures
        b.without(gone).group(c) == b.group(c),
{
    let after = b.without(gone);
    assert forall|x: Coord| b.group(c).contains(x) implies after.group(c).contains(x) by {
        let walk = choose|walk: Seq<Coord>| #[trigger]
            b.is_walk(walk) && walk[0] == c && walk.last() == x;
        assert forall|i: int| 0 <= i < walk.len() implies after.contains(#[trigger] walk[i])
            && after.at(walk[i]) == b.at(walk[i]) by {
            lemma_walk_prefix(b, walk, i);
            assert(b.group(c).contains(walk[i]));
            assert(b.contains(walk[i]));
        }
        assert(after.contains(walk[0]) && after.at(walk[0]) == b.at(walk[0]));
        assert(after.is_walk(walk));
    }
    assert forall|x: Coord| after.group(c).contains(x) implies b.group(c).contains(x) by {
        let walk = choose|walk: Seq<Coord>| #[trigger]
            after.is_walk(walk) && walk[0] == c && walk.last() == x;
        assert(after.contains(walk[0]));
        assert forall|i: int| 0 <= i < walk.len() implies b.contains(#[trigger] walk[i]) && b.at(
            walk[i],
        ) == after.at(walk[i]) by {
            assert(after.contains(walk[i]) && after.at(walk[i]) == after.at(walk[0]));
        }
        assert(b.contains(walk[0]) && b.at(walk[0]) == after.at(walk[0]));
        assert(b.is_walk(walk));
    }
    assert(after.group(c) =~= b.group(c));
}

/// Two chains share no stone unless they are one chain.
pub proof fn lemma_chains_apart(b: BoardView, p: Coord, c: Coord)
    requires
        b.stone_at(c),
        !b.group(p).contains(c),
    ensures
        forall|x: Coord| b.group(c).contains(x) ==> !b.group(p).contains(x),
{
    assert forall|x: Coord| b.group(c).contains(x) implies !b.group(p).contains(x) by {
        if b.group(p).contains(x) {
            lemma_group_of_member(b, c, x);
            lemma_group_of_member(b, p, x);
            lemma_connected_to_itself(b, c);
            assert(b.group(c).contains(c));
        }
    }
}

/// A chain that has a liberty keeps it when another chain is taken off.
pub proof fn lemma_survivor_keeps_liberty(b: BoardView, p: Coord, c: Coord)
    requires
        b.stone_at(c),
        !b.group(p).contains(c),
        b.has_liberty(c),
    ensures
        b.without(b.group(p)).group(c) == b.group(c),
        b.without(b.group(p)).has_liberty(c),
{
    let after = b.without(b.group(p));
    lemma_chains_apart(b, p, c);
    lemma_group_survives(b, b.group(p), c);
    let e = choose|e: Coord| b.liberties(b.group(c)).contains(e);
    let m = choose|m: Coord| #[trigger] b.group(c).contains(m) && adjacent(m, e);
    assert(after.group(c).contains(m) && adjacent(m, e));
    assert(after.empty_at(e));
    assert(after.liberties(after.group(c)).contains(e));
}

/// Every stone with a mark belongs to a chain that has a liberty: the sweep
/// may pass it by.
spec fn all_settled(marks: Seq<bool>, b: BoardView) -> bool {
    &&& marks.len() == b.size * b.size
    &&& forall|c: Coord|
        #![trigger marked(marks, b.size, c)]
        b.stone_at(c) && marked(marks, b.size, c) ==> b.has_liberty(c)
}

/// Empties every point of `stones`.
fn remove_stones(board: &mut Board, stones: &Vec<Coord>)
    requires
        old(board).wf(),
        forall|i: int| 0 <= i < stones@.len() ==> old(board)@.contains(#[trigger] stones@[i]),
    ensures
        final(board).wf(),
        final(board)@ == old(board)@.without(stones@.to_set()),
{
    let ghost b = board@;
    let mut i: usize = 0;
    while i < stones.len()
        invariant
            board.wf(),
            i <= stones@.len(),
            board@.size == b.size,
            forall|j: int| 0 <= j < stones@.len() ==> b.contains(#[trigger] stones@[j]),
            forall|c: Coord|
                b.contains(c) ==> #[trigger] board@.at(c) == (if exists|j: int|
                    0 <= j < i && stones@[j] == c {
                    Cell::Empty
                } else {
                    b.at(c)
                }),
        decreases stones@.len() - i,
    {
        let stone = stones[i];
        let ghost before = board@;
        let _ = board.set(stone, Cell::Empty);
        proof {
            assert forall|c: Coord| b.contains(c) implies #[trigger] board@.at(c) == (if exists|
                j: int,
            |
                0 <= j < i + 1 && stones@[j] == c {
                Cell::Empty
            } else {
                b.at(c)
            }) by {
                assert(before.at(c) == (if exists|j: int| 0 <= j < i && stones@[j] == c {
                    Cell::Empty
                } else {
                    b.at(c)
                }));
                if c == stone {
                    assert(stones@[i as int] == c);
                }
            }
        }
        i += 1;
    }
    proof {
        board.lemma_view_wf();
        let target = b.without(stones@.to_set());
        assert forall|c: Coord| b.contains(c) implies board@.cells[c] == target.cells[c] by {
            assert(board@.at(c) == (if exists|j: int| 0 <= j < i && stones@[j] == c {
                Cell::Empty
            } else {
                b.at(c)
            }));
        }
        assert(board@.cells =~= target.cells);
    }
}

/// The sweep's work at one point: a stone that no earlier visit has settled
/// has its chain found; a chain without a liberty is taken off the board and
/// its size noted.  Either way the stones of the chain are settled.
fn visit_point(
    board: &mut Board,
    settled: &mut Vec<bool>,
    scratch: &mut Scratch,
    sizes: &mut Vec<usize>,
    p: Coord,
)
    requires
        old(board).wf(),
        old(board)@.contains(p),
        all_settled(old(settled)@, old(board)@),
        old(scratch).is_clear(old(board)@.size),
    ensures
        final(board).wf(),
        all_settled(final(settled)@, final(board)@),
        final(scratch).is_clear(final(board)@.size),
        final(board)@ == old(board)@.visit(p).0,
        as_nats(final(sizes)@) == as_nats(old(sizes)@) + old(board)@.visit(p).1,
{
    let ghost b = board@;
    let n = board.size();
    let k = get_index(n, p);
    if board.cell_at(p) == Cell::Empty || settled[k] {
        proof {
            assert(marked(settled@, b.size, p) == settled@[k as int]);
            assert(as_nats(sizes@) + Seq::<nat>::empty() =~= as_nats(sizes@));
        }
        return ;
    }
    let chain = explore(board, p, scratch);
    let ghost marks_before = settled@;
    proof {
        assert forall|i: int| 0 <= i < chain.members@.len() implies b.stone_at(
            #[trigger] chain.members@[i],
        ) by {
            assert(chain.members@.contains(chain.members@[i]));
            assert(b.group(p).contains(chain.members@[i]));
            lemma_connected_same_colour(b, p, chain.members@[i]);
        }
        if chain.liberties@.len() > 0 {
            assert(chain.liberties@.contains(chain.liberties@[0]));
            assert(b.liberties(b.group(p)).contains(chain.liberties@[0]));
        } else {
            assert forall|e: Coord| !b.liberties(b.group(p)).contains(e) by {
                if b.liberties(b.group(p)).contains(e) {
                    assert(chain.liberties@.to_set().contains(e));
                    assert(chain.liberties@.contains(e));
                }
            }
        }
    }
    if chain.liberties.len() == 0 {
        let ghost sizes_before = sizes@;
        sizes.push(chain.members.len());
        remove_stones(board, &chain.members);
        proof {
            assert(b.captured_at(p));
            assert(as_nats(sizes@) =~= as_nats(sizes_before) + seq![b.group(p).len()]);
        }
    } else {
        proof {
            assert(b.has_liberty(p));
            assert(as_nats(sizes@) + Seq::<nat>::empty() =~= as_nats(sizes@));
        }
    }
    mark_all(settled, n, &chain.members);
    proof {
        let after = board@;
        assert forall|c: Coord|
            #![trigger marked(settled@, after.size, c)]
            after.stone_at(c) && marked(settled@, after.size, c) implies after.has_liberty(c) by {
            if b.has_liberty(p) {
                if chain.members@.contains(c) {
                    assert(b.group(p).contains(c));
                    lemma_group_of_member(b, p, c);
                } else {
                    assert(marked(marks_before, b.size, c));
                }
            } else {
                assert(!b.group(p).contains(c));
                assert(!chain.members@.to_set().contains(c));
                assert(marked(marks_before, b.size, c));
                lemma_survivor_keeps_liberty(b, p, c);
            }
        }
    }
}

/// Resolves captures on the whole board.
///
/// The board is swept once in row-major order.  At each stone that no
/// earlier step of the sweep has dealt with, the stone's chain and the
/// chain's liberties are found on the board as it then is.  A chain
/// without a liberty is taken off, and its size is added to the result.
/// Chains of both colours are treated alike.  The sizes come in the order in
/// which the sweep met the chains.
pub fn resolve_capture(board: &mut Board) -> (sizes: Vec<usize>)
    requires
        old(board).wf(),
    ensures
        final(board).wf(),
        final(board)@ == old(board)@.resolve().0,
        as_nats(sizes@) == old(board)@.resolve().1,
{
    let ghost b = board@;
    let ghost order = row_major(b.size);
    let n = board.size();
    let mut sizes: Vec<usize> = Vec::new();
    let mut settled = blank_marks(n * n);
    let mut scratch = Scratch::new(n);
    let mut done: usize = 0;
    let mut row: usize = 1;
    proof {
        assert(n < usize::MAX) by (nonlinear_arith)
            requires
                n * n <= usize::MAX,
                usize::MAX >= 2,
        ;
        assert(order.take(0) =~= Seq::<Coord>::empty());
        assert(as_nats(sizes@) =~= Seq::<nat>::empty());
        assert forall|c: Coord| b.contains(c) implies !marked(settled@, b.size, c) by {
            lemma_index_in_range(b.size, c);
        }
    }
    while row <= n
        invariant
            board.wf(),
            board@.size == n,
            b.size == n,
            order == row_major(b.size),
            n < usize::MAX,
            n * n <= usize::MAX,
            1 <= row <= n + 1,
            done == (row - 1) * n,
            all_settled(settled@, board@),
            scratch.is_clear(n as nat),
            (board@, as_nats(sizes@)) == b.visit_all(order.take(done as int)),
        decreases n + 1 - row,
    {
        let mut col: usize = 1;
        while col <= n
            invariant
                board.wf(),
                board@.size == n,
                b.size == n,
                order == row_major(b.size),
                n < usize::MAX,
                n * n <= usize::MAX,
                1 <= row <= n,
                1 <= col <= n + 1,
                done == (row - 1) * n + (col - 1),
                all_settled(settled@, board@),
            scratch.is_clear(n as nat),
                (board@, as_nats(sizes@)) == b.visit_all(order.take(done as int)),
            decreases n + 1 - col,
        {
            let p = Coord(row, col);
            let ghost before = board@;
            let ghost sizes_before = as_nats(sizes@);
            proof {
                lemma_index_in_range(b.size, p);
                lemma_coord_at_index(b.size, p);
                assert(done == index_spec(b.size, p));
            }
            visit_point(board, &mut settled, &mut scratch, &mut sizes, p);
            proof {
                let longer = order.take(done + 1);
                assert(longer.drop_last() =~= order.take(done as int));
                assert(longer.last() == p);
                assert(b.visit_all(longer) == (board@, as_nats(sizes@)));
            }
            done += 1;
            col += 1;
        }
        proof {
            assert((row - 1) * n + n == row * n) by (nonlinear_arith);
        }
        row += 1;
    }
    proof {
        assert(done == n * n);
        assert(order.take(done as int) =~= order);
    }
    sizes
}

} // verus!
