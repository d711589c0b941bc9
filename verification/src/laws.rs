//! What holds of capture resolution and of the game as a whole.

use crate::board::{
    index_spec, lemma_coord_at_index, lemma_index_in_range, lemma_index_of_coord_at, BoardView,
    Coord,
};
use crate::capture::{lemma_chains_apart, lemma_group_survives, row_major};
use crate::chain::{
    adjacent, lemma_closed_set_holds_group, lemma_connected_symmetric, lemma_connected_to_itself,
};
use crate::codec::decode_move_spec;
use crate::game::{EventView, GameView};
use crate::stone::{Cell, Player};
use vstd::prelude::*;

verus! {

impl BoardView {
    /// This board with the colours of all stones exchanged.
    pub open spec fn swapped(self) -> BoardView {
        BoardView {
            size: self.size,
            cells: Map::new(|c: Coord| self.contains(c), |c: Coord| self.at(c).swapped()),
        }
    }
}

proof fn lemma_swapped_walk(b: BoardView, walk: Seq<Coord>)
    ensures
        b.swapped().is_walk(walk) == b.is_walk(walk),
{
    let s = b.swapped();
    if b.is_walk(walk) {
        assert forall|i: int| 0 <= i < walk.len() implies s.contains(#[trigger] walk[i]) && s.at(
            walk[i],
        ) == s.at(walk[0]) by {
            assert(b.contains(walk[i]) && b.contains(walk[0]));
        }
        assert(s.is_walk(walk));
    }
    if s.is_walk(walk) {
        assert(s.contains(walk[0]));
        assert forall|i: int| 0 <= i < walk.len() implies b.contains(#[trigger] walk[i]) && b.at(
            walk[i],
        ) == b.at(walk[0]) by {
            assert(s.contains(walk[i]) && s.at(walk[i]) == s.at(walk[0]));
        }
        assert(b.is_walk(walk));
    }
}

/// Exchanging the colours changes no chain.
pub proof fn lemma_swapped_group(b: BoardView, p: Coord)
    ensures
        b.swapped().group(p) == b.group(p),
{
    let s = b.swapped();
    assert forall|c: Coord| s.group(p).contains(c) <==> b.group(p).contains(c) by {
        if s.connected(p, c) {
            let walk = choose|walk: Seq<Coord>| #[trigger]
                s.is_walk(walk) && walk[0] == p && walk.last() == c;
            lemma_swapped_walk(b, walk);
        }
        if b.connected(p, c) {
            let walk = choose|walk: Seq<Coord>| #[trigger]
                b.is_walk(walk) && walk[0] == p && walk.last() == c;
            lemma_swapped_walk(b, walk);
        }
    }
    assert(s.group(p) =~= b.group(p));
}

/// Exchanging the colours changes what the sweep does at a point only in
/// the colours of the board that it leaves.
pub proof fn lemma_swapped_visit(b: BoardView, p: Coord)
    ensures
        b.swapped().visit(p) == (b.visit(p).0.swapped(), b.visit(p).1),
{
    let s = b.swapped();
    lemma_swapped_group(b, p);
    let g = b.group(p);
    assert(s.liberties(g) =~= b.liberties(g));
    assert(s.stone_at(p) == b.stone_at(p));
    if b.captured_at(p) {
        assert(s.without(g).cells =~= b.without(g).swapped().cells);
    }
}

/// Exchanging the colours changes the outcome of a sweep only in the
/// colours of the board that it leaves.
pub proof fn lemma_swapped_visit_all(b: BoardView, order: Seq<Coord>)
    ensures
        b.swapped().visit_all(order) == (b.visit_all(order).0.swapped(), b.visit_all(order).1),
    decreases order.len(),
{
    if order.len() > 0 {
        lemma_swapped_visit_all(b, order.drop_last());
        lemma_swapped_visit(b.visit_all(order.drop_last()).0, order.last());
    }
}

/// Capture resolution does not tell the colours apart: on the board with
/// all colours exchanged it takes the same chains off, in the same order,
/// and leaves the same board with the colours exchanged.  So whoever has
/// just played, the chains of the mover and those of the opponent are
/// judged alike.
pub proof fn lemma_resolve_is_colour_blind(b: BoardView)
    ensures
        b.swapped().resolve() == (b.resolve().0.swapped(), b.resolve().1),
{
    lemma_swapped_visit_all(b, row_major(b.size));
}

/// A point that is empty stays empty when the sweep visits a point.
pub proof fn lemma_visit_keeps_empty(b: BoardView, p: Coord, c: Coord)
    requires
        b.empty_at(c),
    ensures
        b.visit(p).0.empty_at(c),
        b.visit(p).0.size == b.size,
{
}

/// A point that is empty at one moment of a sweep is empty at every later
/// moment; and what was reported by then stays as reported.
pub proof fn lemma_sweep_goes_on(b: BoardView, order: Seq<Coord>, j: int, k: int)
    requires
        0 <= j <= k <= order.len(),
    ensures
        b.visit_all(order.take(k)).0.size == b.visit_all(order.take(j)).0.size,
        forall|c: Coord|
            b.visit_all(order.take(j)).0.empty_at(c) ==> b.visit_all(order.take(k)).0.empty_at(c),
        b.visit_all(order.take(j)).1.len() <= b.visit_all(order.take(k)).1.len(),
        forall|i: int|
            0 <= i < b.visit_all(order.take(j)).1.len() ==> b.visit_all(order.take(k)).1[i]
                == b.visit_all(order.take(j)).1[i],
    decreases k - j,
{
    if j < k {
        lemma_sweep_goes_on(b, order, j, k - 1);
        assert(order.take(k).drop_last() =~= order.take(k - 1));
        let (before, reported) = b.visit_all(order.take(k - 1));
        assert forall|c: Coord| b.visit_all(order.take(j)).0.empty_at(c) implies b.visit_all(
            order.take(k),
        ).0.empty_at(c) by {
            lemma_visit_keeps_empty(before, order[k - 1], c);
        }
    }
}

/// A chain that the sweep has not yet met stands as it stood: the captures
/// of other chains take no stone from it and join no stone to it.
pub proof fn lemma_sweep_keeps_chain(b: BoardView, order: Seq<Coord>, k: int, p: Coord)
    requires
        b.stone_at(p),
        0 <= k <= order.len(),
        forall|j: int| 0 <= j < k ==> !b.group(p).contains(#[trigger] order[j]),
    ensures
        b.visit_all(order.take(k)).0.group(p) == b.group(p),
        b.visit_all(order.take(k)).0.stone_at(p),
        b.visit_all(order.take(k)).0.size == b.size,
    decreases k,
{
    if k > 0 {
        lemma_sweep_keeps_chain(b, order, k - 1, p);
        assert(order.take(k).drop_last() =~= order.take(k - 1));
        let before = b.visit_all(order.take(k - 1)).0;
        let q = order[k - 1];
        assert(order.take(k).last() == q);
        lemma_connected_to_itself(before, p);
        if before.captured_at(q) {
            if before.group(q).contains(p) {
                lemma_connected_symmetric(before, q, p);
                assert(before.group(p).contains(q));
            }
            lemma_chains_apart(before, q, p);
            lemma_group_survives(before, before.group(q), p);
        }
    } else {
        assert(order.take(0) =~= Seq::<Coord>::empty());
    }
}

/// A chain without a liberty is captured whole.
///
/// Let the sweep meet a chain for the first time at step `k`, and let the
/// chain have no liberty at that moment.  Then the chain is as it was when
/// the sweep began, this step empties every point of it and no other point,
/// and the size reported for it is the number of its stones.  The points
/// stay empty to the end of the sweep and the report stays in its place.
///
/// A chain that had no liberty when the sweep began may have one when the
/// sweep arrives, where an earlier step has taken a neighbouring chain off:
/// of such a chain the law says nothing, and the sweep leaves it standing.
pub proof fn lemma_chain_without_liberty_is_captured(b: BoardView, k: int)
    requires
        0 <= k < row_major(b.size).len(),
        b.stone_at(row_major(b.size)[k]),
        forall|j: int|
            0 <= j < k ==> !b.group(row_major(b.size)[k]).contains(#[trigger] row_major(b.size)[j]),
        !b.visit_all(row_major(b.size).take(k)).0.has_liberty(row_major(b.size)[k]),
    ensures
        ({
            let order = row_major(b.size);
            let chain = b.group(order[k]);
            let (before, reported) = b.visit_all(order.take(k));
            let (after, extended) = b.visit_all(order.take(k + 1));
            &&& before.group(order[k]) == chain
            &&& extended == reported + seq![chain.len()]
            &&& forall|c: Coord| chain.contains(c) ==> after.empty_at(c)
            &&& forall|c: Coord| b.contains(c) && !chain.contains(c) ==> after.at(c) == before.at(c)
            &&& forall|c: Coord| chain.contains(c) ==> b.resolve().0.empty_at(c)
            &&& reported.len() < b.resolve().1.len()
            &&& b.resolve().1[reported.len() as int] == chain.len()
        }),
{
    let order = row_major(b.size);
    let p = order[k];
    let chain = b.group(p);
    let (before, reported) = b.visit_all(order.take(k));
    lemma_sweep_keeps_chain(b, order, k, p);
    assert(order.take(k + 1).drop_last() =~= order.take(k));
    assert(order.take(k + 1).last() == p);
    assert(before.captured_at(p));
    let (after, extended) = b.visit_all(order.take(k + 1));
    assert(after == before.without(chain));
    assert forall|c: Coord| chain.contains(c) implies after.empty_at(c) by {
        crate::chain::lemma_connected_same_colour(b, p, c);
    }
    lemma_sweep_goes_on(b, order, k + 1, order.len() as int);
    assert(order.take(order.len() as int) =~= order);
    assert(extended[reported.len() as int] == chain.len());
}

/// A single stone with an enemy stone on each of its four sides is captured
/// alone.
///
/// Let the stone at `p` have four neighbours on the board, each a stone of
/// the other colour, and let these four still stand when the sweep arrives
/// at `p`.  Then the stone is a chain of its own without a liberty: the
/// sweep empties `p`, no other point at that step, and reports the size 1.
///
/// Where an earlier step of the same sweep has taken one of the four off,
/// the stone has a liberty when the sweep arrives and is left standing: of
/// such a board the law says nothing.
pub proof fn lemma_surrounded_stone_is_captured(b: BoardView, p: Coord)
    requires
        b.wf(),
        b.stone_at(p),
        1 < p.0 < b.size,
        1 < p.1 < b.size,
        forall|nb: Coord| #[trigger]
            adjacent(p, nb) ==> b.at(nb) != Cell::Empty && b.at(nb) != b.at(p),
        forall|nb: Coord| #[trigger]
            adjacent(p, nb) ==> b.visit_all(
                row_major(b.size).take(index_spec(b.size, p)),
            ).0.at(nb) != Cell::Empty,
    ensures
        b.group(p) == set![p],
        ({
            let order = row_major(b.size);
            let k = index_spec(b.size, p);
            let (before, reported) = b.visit_all(order.take(k));
            let (after, extended) = b.visit_all(order.take(k + 1));
            &&& extended == reported + seq![1nat]
            &&& after.empty_at(p)
            &&& forall|c: Coord| b.contains(c) && c != p ==> after.at(c) == before.at(c)
            &&& b.resolve().0.empty_at(p)
            &&& reported.len() < b.resolve().1.len()
            &&& b.resolve().1[reported.len() as int] == 1
        }),
{
    let order = row_major(b.size);
    let k = index_spec(b.size, p);
    let alone = set![p];
    lemma_index_in_range(b.size, p);
    lemma_coord_at_index(b.size, p);
    assert(order[k] == p);
    lemma_connected_to_itself(b, p);
    lemma_closed_set_holds_group(b, p, alone);
    assert(b.group(p) =~= alone);
    assert(alone.len() == 1) by {
        assert(alone =~= Set::<Coord>::empty().insert(p));
    }
    assert forall|j: int| 0 <= j < k implies !b.group(p).contains(#[trigger] order[j]) by {
        if order[j] == p {
            lemma_index_of_coord_at(b.size, j);
        }
    }
    lemma_sweep_keeps_chain(b, order, k, p);
    let before = b.visit_all(order.take(k)).0;
    assert(!before.has_liberty(p)) by {
        assert forall|e: Coord| !before.liberties(before.group(p)).contains(e) by {
            if before.liberties(before.group(p)).contains(e) {
                let m = choose|m: Coord| #[trigger]
                    before.group(p).contains(m) && adjacent(m, e);
                assert(m == p);
                assert(adjacent(p, e));
            }
        }
    }
    lemma_chain_without_liberty_is_captured(b, k);
}

/// After the end of a game the next event finds what the first event of a
/// game finds: an empty board and Black to move, whatever the board held
/// and whoever was to move.
pub proof fn lemma_game_end_starts_afresh(state: GameView, next: EventView)
    ensures
        state.step(EventView::GameEnd) matches Ok((fresh, note)) && fresh == GameView::initial(
            state.board.size,
        ) && note.suffix() == Seq::<char>::empty(),
        state.run(seq![EventView::GameEnd, next]) == GameView::initial(state.board.size).run(
            seq![next],
        ),
{
    let fresh = GameView::initial(state.board.size);
    let both = seq![EventView::GameEnd, next];
    let one = seq![next];
    assert(both.drop_last() =~= seq![EventView::GameEnd]);
    assert(both.drop_last().drop_last() =~= Seq::<EventView>::empty());
    assert(one.drop_last() =~= Seq::<EventView>::empty());
    assert(state.run(Seq::<EventView>::empty()) == (state, Ok::<Seq<char>, crate::GameError>(Seq::empty())));
    let note = state.step(EventView::GameEnd)->Ok_0.1;
    assert(note.suffix() =~= Seq::<char>::empty());
    assert(state.run(both.drop_last()).0 == fresh);
    assert(state.run(both.drop_last()).1 == Ok::<Seq<char>, crate::GameError>(
        Seq::<char>::empty() + note.suffix(),
    ));
    assert(Seq::<char>::empty() + note.suffix() =~= Seq::<char>::empty());
    assert(fresh.run(one.drop_last()) == (fresh, Ok::<Seq<char>, crate::GameError>(Seq::empty())));
}

/// After the end of a game the next move is played by Black on a board
/// of the same side with no stone on it, whatever stood on the board before
/// and whoever was to move: nothing of the game that ended shows in it.
pub proof fn lemma_move_after_game_end(state: GameView, row: Seq<char>, col: Seq<char>)
    ensures
        state.step(EventView::GameEnd) is Ok,
        ({
            let fresh = state.step(EventView::GameEnd)->Ok_0.0;
            let size = state.board.size;
            &&& fresh.board.size == size
            &&& forall|c: Coord| fresh.board.contains(c) ==> fresh.board.at(c) == Cell::Empty
            &&& fresh.to_move == Player::Black
            &&& fresh.step(EventView::Move(row, col)) == GameView::initial(size).step(
                EventView::Move(row, col),
            )
            &&& decode_move_spec(size, row, col) matches Ok(c) ==> fresh.step(
                EventView::Move(row, col),
            ) matches Ok((next, note)) && next.to_move == Player::White && (
                next.board,
                note.captured,
            ) == BoardView::empty(size).put(c, Cell::Black).resolve()
        }),
{
}

/// The turn passes to the other player with every move and every pass that
/// is accepted, whatever is captured, and with nothing else.
pub proof fn lemma_turn_alternates(state: GameView, event: EventView)
    ensures
        state.step(event) matches Ok((next, _)) ==> next.to_move == (match event {
            EventView::Move(_, _) => state.to_move.opponent_spec(),
            EventView::Pass => state.to_move.opponent_spec(),
            EventView::GameEnd => Player::Black,
            EventView::Unrecognized => state.to_move,
        }),
{
}

} // verus!
