//! Chains of stones, their liberties, and the flood fill that finds both.

use crate::board::{
    get_index, index_spec, lemma_index_in_range, lemma_index_injective, Board, BoardView, Coord,
};
use crate::marks::{marked, unmark_all, Scratch};
use crate::stone::Cell;
use vstd::prelude::*;

verus! {

/// Whether two points are neighbours: next to each other in a row or in a
/// column.  Diagonal points are not neighbours.
pub open spec fn adjacent(a: Coord, b: Coord) -> bool {
    ||| a.0 == b.0 && (a.1 + 1 == b.1 || b.1 + 1 == a.1)
    ||| a.1 == b.1 && (a.0 + 1 == b.0 || b.0 + 1 == a.0)
}

impl BoardView {
    /// A walk over stones of one colour: it starts on a stone, stays on the
    /// board and on the colour of its first point, and goes from each point
    /// to a neighbour.
    pub open spec fn is_walk(self, walk: Seq<Coord>) -> bool {
        &&& walk.len() > 0
        &&& self.stone_at(walk[0])
        &&& forall|i: int|
            0 <= i < walk.len() ==> self.contains(#[trigger] walk[i]) && self.at(walk[i])
                == self.at(walk[0])
        &&& forall|i: int, j: int|
            0 <= i && j == i + 1 && j < walk.len() ==> adjacent(
                #[trigger] walk[i],
                #[trigger] walk[j],
            )
    }

    /// Whether a walk over stones of one colour leads from `a` to `b`.
    pub open spec fn connected(self, a: Coord, b: Coord) -> bool {
        exists|walk: Seq<Coord>| #[trigger]
            self.is_walk(walk) && walk[0] == a && walk.last() == b
    }

    /// The chain of `a`: every point connected to it.  It is empty when `a`
    /// holds no stone or is not on the board.
    pub open spec fn group(self, a: Coord) -> Set<Coord> {
        Set::new(|b: Coord| self.connected(a, b))
    }

    /// The liberties of a set of points: the empty points of the board that
    /// are neighbours of at least one of them.  Each counts once, however
    /// many of the points touch it.
    pub open spec fn liberties(self, chain: Set<Coord>) -> Set<Coord> {
        Set::new(
            |e: Coord|
                self.empty_at(e) && exists|m: Coord| #[trigger]
                    chain.contains(m) && adjacent(m, e),
        )
    }

    /// `chain` holds, with each of its points, the neighbours of the same
    /// colour.
    pub open spec fn closed_under_steps(self, chain: Set<Coord>) -> bool {
        forall|m: Coord, nb: Coord|
            #![trigger chain.contains(m), adjacent(m, nb)]
            chain.contains(m) && adjacent(m, nb) && self.contains(nb) && self.at(nb) == self.at(
                m,
            ) ==> chain.contains(nb)
    }
}

/// A stone is connected to itself.
pub proof fn lemma_connected_to_itself(b: BoardView, a: Coord)
    requires
        b.stone_at(a),
    ensures
        b.connected(a, a),
{
    let walk = seq![a];
    assert(b.is_walk(walk));
    assert(walk[0] == a && walk.last() == a);
}

/// The two ends of a walk are stones of one colour.
pub proof fn lemma_connected_same_colour(b: BoardView, a: Coord, c: Coord)
    requires
        b.connected(a, c),
    ensures
        b.stone_at(a),
        b.stone_at(c),
        b.at(a) == b.at(c),
{
    let walk = choose|walk: Seq<Coord>| #[trigger]
        b.is_walk(walk) && walk[0] == a && walk.last() == c;
    assert(b.contains(walk[walk.len() - 1]));
}

/// A walk goes one step further, to a neighbour of the same colour.
pub proof fn lemma_connected_step(b: BoardView, a: Coord, m: Coord, nb: Coord)
    requires
        b.connected(a, m),
        adjacent(m, nb),
        b.contains(nb),
        b.at(nb) == b.at(m),
    ensures
        b.connected(a, nb),
{
    let walk = choose|walk: Seq<Coord>| #[trigger]
        b.is_walk(walk) && walk[0] == a && walk.last() == m;
    let longer = walk.push(nb);
    assert(b.contains(walk[walk.len() - 1]));
    assert forall|i: int| 0 <= i < longer.len() implies b.contains(#[trigger] longer[i]) && b.at(
        longer[i],
    ) == b.at(longer[0]) by {
        if i < walk.len() {
            assert(longer[i] == walk[i]);
        }
    }
    assert forall|i: int, j: int| 0 <= i && j == i + 1 && j < longer.len() implies adjacent(
        #[trigger] longer[i],
        #[trigger] longer[j],
    ) by {
        if j < walk.len() {
            assert(longer[i] == walk[i] && longer[j] == walk[j]);
        }
    }
    assert(b.is_walk(longer));
    assert(longer[0] == a && longer.last() == nb);
}

proof fn lemma_walk_stays_inside(b: BoardView, walk: Seq<Coord>, chain: Set<Coord>, i: int)
    requires
        b.is_walk(walk),
        chain.contains(walk[0]),
        b.closed_under_steps(chain),
        0 <= i < walk.len(),
    ensures
        chain.contains(walk[i]),
    decreases i,
{
    if i > 0 {
        lemma_walk_stays_inside(b, walk, chain, i - 1);
        assert(adjacent(walk[i - 1], walk[i]));
        assert(b.contains(walk[i]) && b.at(walk[i]) == b.at(walk[0]));
        assert(b.contains(walk[i - 1]) && b.at(walk[i - 1]) == b.at(walk[0]));
    }
}

/// A set that holds `a` and is closed under steps to neighbours of the same
/// colour holds the whole chain of `a`.
pub proof fn lemma_closed_set_holds_group(b: BoardView, a: Coord, chain: Set<Coord>)
    requires
        chain.contains(a),
        b.closed_under_steps(chain),
    ensures
        b.group(a).subset_of(chain),
{
    assert forall|c: Coord| b.group(a).contains(c) implies chain.contains(c) by {
        let walk = choose|walk: Seq<Coord>| #[trigger]
            b.is_walk(walk) && walk[0] == a && walk.last() == c;
        lemma_walk_stays_inside(b, walk, chain, walk.len() - 1);
    }
}

/// Every point of a walk is connected to the walk's first point.
pub proof fn lemma_walk_prefix(b: BoardView, walk: Seq<Coord>, i: int)
    requires
        b.is_walk(walk),
        0 <= i < walk.len(),
    ensures
        b.connected(walk[0], walk[i]),
{
    let prefix = walk.take(i + 1);
    assert forall|k: int| 0 <= k < prefix.len() implies b.contains(#[trigger] prefix[k]) && b.at(
        prefix[k],
    ) == b.at(prefix[0]) by {
        assert(prefix[k] == walk[k]);
    }
    assert forall|k: int, j: int| 0 <= k && j == k + 1 && j < prefix.len() implies adjacent(
        #[trigger] prefix[k],
        #[trigger] prefix[j],
    ) by {
        assert(prefix[k] == walk[k] && prefix[j] == walk[j]);
    }
    assert(b.is_walk(prefix));
    assert(prefix[0] == walk[0] && prefix.last() == walk[i]);
}

/// A walk can be taken backwards.
pub proof fn lemma_connected_symmetric(b: BoardView, a: Coord, c: Coord)
    requires
        b.connected(a, c),
    ensures
        b.connected(c, a),
{
    let walk = choose|walk: Seq<Coord>| #[trigger]
        b.is_walk(walk) && walk[0] == a && walk.last() == c;
    let n = walk.len() as int;
    let back = Seq::new(walk.len(), |k: int| walk[n - 1 - k]);
    assert(b.contains(walk[n - 1]));
    assert forall|k: int| 0 <= k < back.len() implies b.contains(#[trigger] back[k]) && b.at(
        back[k],
    ) == b.at(back[0]) by {
        assert(b.contains(walk[n - 1 - k]));
    }
    assert forall|k: int, j: int| 0 <= k && j == k + 1 && j < back.len() implies adjacent(
        #[trigger] back[k],
        #[trigger] back[j],
    ) by {
        assert(adjacent(walk[n - 1 - j], walk[n - 1 - k]));
    }
    assert(b.is_walk(back));
    assert(back[0] == c && back.last() == a);
}

/// Two walks that meet make one walk.
pub proof fn lemma_connected_transitive(b: BoardView, a: Coord, m: Coord, c: Coord)
    requires
        b.connected(a, m),
        b.connected(m, c),
    ensures
        b.connected(a, c),
{
    let first = choose|walk: Seq<Coord>| #[trigger]
        b.is_walk(walk) && walk[0] == a && walk.last() == m;
    let second = choose|walk: Seq<Coord>| #[trigger]
        b.is_walk(walk) && walk[0] == m && walk.last() == c;
    let n = first.len() as int;
    let whole = first + second.drop_first();
    assert(b.contains(first[n - 1]));
    assert forall|k: int| 0 <= k < whole.len() implies b.contains(#[trigger] whole[k]) && b.at(
        whole[k],
    ) == b.at(whole[0]) by {
        if k < n {
            assert(whole[k] == first[k]);
        } else {
            assert(whole[k] == second[k - n + 1]);
            assert(b.contains(second[k - n + 1]));
        }
    }
    assert forall|k: int, j: int| 0 <= k && j == k + 1 && j < whole.len() implies adjacent(
        #[trigger] whole[k],
        #[trigger] whole[j],
    ) by {
        if j < n {
            assert(whole[k] == first[k] && whole[j] == first[j]);
        } else if k < n {
            assert(whole[k] == first[n - 1] && whole[j] == second[1]);
            assert(adjacent(second[0], second[1]));
        } else {
            assert(whole[k] == second[k - n + 1] && whole[j] == second[j - n + 1]);
            assert(adjacent(second[k - n + 1], second[j - n + 1]));
        }
    }
    assert(b.is_walk(whole));
    assert(whole[0] == a);
    assert(whole.last() == c) by {
        if second.len() == 1 {
            assert(whole =~= first);
        } else {
            assert(whole[whole.len() - 1] == second[second.len() - 1]);
        }
    }
}

/// Every stone of a chain has that chain as its own.
pub proof fn lemma_group_of_member(b: BoardView, a: Coord, m: Coord)
    requires
        b.group(a).contains(m),
    ensures
        b.group(m) == b.group(a),
{
    lemma_connected_symmetric(b, a, m);
    assert forall|c: Coord| b.group(m).contains(c) <==> b.group(a).contains(c) by {
        if b.connected(m, c) {
            lemma_connected_transitive(b, a, m, c);
        }
        if b.connected(a, c) {
            lemma_connected_transitive(b, m, a, c);
        }
    }
    assert(b.group(m) =~= b.group(a));
}

/// How many entries of `marks` are still `false`.
spec fn count_false(marks: Seq<bool>) -> nat
    decreases marks.len(),
{
    if marks.len() == 0 {
        0
    } else {
        count_false(marks.drop_last()) + if marks.last() {
            0nat
        } else {
            1nat
        }
    }
}

proof fn lemma_count_false_all(marks: Seq<bool>)
    requires
        forall|i: int| 0 <= i < marks.len() ==> !marks[i],
    ensures
        count_false(marks) == marks.len(),
    decreases marks.len(),
{
    if marks.len() > 0 {
        lemma_count_false_all(marks.drop_last());
    }
}

proof fn lemma_count_false_after_mark(marks: Seq<bool>, i: int)
    requires
        0 <= i < marks.len(),
        !marks[i],
    ensures
        count_false(marks.update(i, true)) + 1 == count_false(marks),
    decreases marks.len(),
{
    let after = marks.update(i, true);
    if i == marks.len() - 1 {
        assert(after.drop_last() =~= marks.drop_last());
    } else {
        lemma_count_false_after_mark(marks.drop_last(), i);
        assert(after.drop_last() =~= marks.drop_last().update(i, true));
    }
}

proof fn lemma_push_contains<A>(s: Seq<A>, x: A)
    ensures
        forall|c: A| #[trigger] s.push(x).contains(c) <==> s.contains(c) || c == x,
{
    let t = s.push(x);
    assert forall|c: A| #[trigger] t.contains(c) <==> s.contains(c) || c == x by {
        if s.contains(c) {
            let i = choose|i: int| 0 <= i < s.len() && s[i] == c;
            assert(t[i] == c);
        }
        if c == x {
            assert(t[s.len() as int] == c);
        }
        if t.contains(c) {
            let i = choose|i: int| 0 <= i < t.len() && t[i] == c;
            if i < s.len() {
                assert(s[i] == c);
            }
        }
    }
}

proof fn lemma_push_no_duplicates<A>(s: Seq<A>, x: A)
    requires
        s.no_duplicates(),
        !s.contains(x),
    ensures
        s.push(x).no_duplicates(),
{
    let t = s.push(x);
    assert forall|i: int, j: int| 0 <= i < t.len() && 0 <= j < t.len() && i != j implies t[i]
        != t[j] by {
        if i < s.len() {
            assert(s.contains(s[i]));
        }
        if j < s.len() {
            assert(s.contains(s[j]));
        }
    }
}

/// A chain as the flood fill found it: its stones and its liberties, each
/// point listed once.
#[derive(Debug, PartialEq, Eq)]
pub struct Chain {
    pub members: Vec<Coord>,
    pub liberties: Vec<Coord>,
}

impl Chain {
    /// This value lists the chain of `start` on `board` and the liberties of
    /// that chain, each point once.
    pub open spec fn is_chain_of(&self, board: BoardView, start: Coord) -> bool {
        &&& self.members@.no_duplicates()
        &&& self.members@.to_set() == board.group(start)
        &&& self.liberties@.no_duplicates()
        &&& self.liberties@.to_set() == board.liberties(board.group(start))
    }

    /// The number of stones in the chain.
    pub fn size(&self) -> (n: usize)
        ensures
            n == self.members@.len(),
    {
        self.members.len()
    }

    /// The number of liberties of the chain.
    pub fn liberty_count(&self) -> (n: usize)
        ensures
            n == self.liberties@.len(),
    {
        self.liberties.len()
    }
}

/// A listing of a chain has as many stones as the chain, and as many
/// liberties as there are distinct empty neighbours of its stones.
pub proof fn lemma_chain_counts(chain: Chain, board: BoardView, start: Coord)
    requires
        chain.is_chain_of(board, start),
    ensures
        board.group(start).finite(),
        board.liberties(board.group(start)).finite(),
        chain.members@.len() == board.group(start).len(),
        chain.liberties@.len() == board.liberties(board.group(start)).len(),
{
    broadcast use vstd::seq_lib::seq_to_set_is_finite;

    chain.members@.unique_seq_to_set();
    chain.liberties@.unique_seq_to_set();
}

/// The state of a flood fill that is under way.
struct Frontier {
    members: Vec<Coord>,
    liberties: Vec<Coord>,
    member_marks: Vec<bool>,
    liberty_marks: Vec<bool>,
}

impl Frontier {
    /// What holds of a flood fill from `start` at every moment: the stones
    /// found are connected to `start`, the liberties found are liberties of
    /// the stones found, nothing is listed twice, and the marks say exactly
    /// what is listed.
    spec fn inv(&self, b: BoardView, start: Coord) -> bool {
        &&& self.member_marks@.len() == b.size * b.size
        &&& self.liberty_marks@.len() == b.size * b.size
        &&& self.members@.no_duplicates()
        &&& self.liberties@.no_duplicates()
        &&& forall|c: Coord| #[trigger]
            self.members@.contains(c) ==> b.stone_at(c) && b.at(c) == b.at(start) && b.connected(
                start,
                c,
            )
        &&& forall|c: Coord|
            #![trigger self.members@.contains(c)]
            #![trigger marked(self.member_marks@, b.size, c)]
            b.contains(c) ==> (marked(self.member_marks@, b.size, c) <==> self.members@.contains(
                c,
            ))
        &&& self.members@.len() + count_false(self.member_marks@) == b.size * b.size
        &&& forall|c: Coord| #[trigger]
            self.liberties@.contains(c) ==> b.liberties(self.members@.to_set()).contains(c)
        &&& forall|c: Coord|
            #![trigger self.liberties@.contains(c)]
            #![trigger marked(self.liberty_marks@, b.size, c)]
            b.contains(c) ==> (marked(self.liberty_marks@, b.size, c) <==> self.liberties@.contains(
                c,
            ))
    }

    /// Every neighbour of `m` that belongs to its chain, or is a liberty of
    /// it, has been found.
    spec fn expanded(&self, b: BoardView, m: Coord) -> bool {
        forall|nb: Coord| #[trigger]
            adjacent(m, nb) && b.contains(nb) ==> {
                &&& b.at(nb) == b.at(m) ==> self.members@.contains(nb)
                &&& b.at(nb) == Cell::Empty ==> self.liberties@.contains(nb)
            }
    }

    /// `self` has found all that `earlier` had, in the same order.
    spec fn extends(&self, earlier: Frontier) -> bool {
        &&& earlier.members@.len() <= self.members@.len()
        &&& forall|i: int|
            0 <= i < earlier.members@.len() ==> #[trigger] self.members@[i] == earlier.members@[i]
        &&& forall|c: Coord| #[trigger]
            earlier.members@.contains(c) ==> self.members@.contains(c)
        &&& forall|c: Coord| #[trigger]
            earlier.liberties@.contains(c) ==> self.liberties@.contains(c)
    }

    /// Looks at `nb`, a neighbour of the stone `from` that lies on the board:
    /// a stone of the same colour joins the chain, an empty point joins the
    /// liberties, each unless it is there already.
    fn examine(&mut self, board: &Board, Ghost(start): Ghost<Coord>, from: Coord, nb: Coord)
        requires
            board.wf(),
            old(self).inv(board@, start),
            old(self).members@.contains(from),
            board@.contains(nb),
            adjacent(from, nb),
        ensures
            final(self).inv(board@, start),
            final(self).extends(*old(self)),
            board@.at(nb) == board@.at(from) ==> final(self).members@.contains(nb),
            board@.at(nb) == Cell::Empty ==> final(self).liberties@.contains(nb),
    {
        let ghost b = board@;
        let n = board.size();
        let i = get_index(n, nb);
        let cell = board.cell_at(nb);
        let own = board.cell_at(from);
        if cell == Cell::Empty {
            if !self.liberty_marks[i] {
                proof {
                    assert(marked(self.liberty_marks@, b.size, nb) == self.liberty_marks@[i as int]);
                    assert(!self.liberties@.contains(nb));
                    lemma_push_contains(self.liberties@, nb);
                    lemma_push_no_duplicates(self.liberties@, nb);
                }
                let ghost before = *self;
                self.liberty_marks.set(i, true);
                self.liberties.push(nb);
                proof {
                    assert(self.members@.to_set().contains(from));
                    assert(b.liberties(self.members@.to_set()).contains(nb));
                    assert forall|c: Coord| b.contains(c) implies (marked(
                        self.liberty_marks@,
                        b.size,
                        c,
                    ) <==> self.liberties@.contains(c)) by {
                        lemma_index_in_range(b.size, c);
                        if c != nb && index_spec(b.size, c) == index_spec(b.size, nb) {
                            lemma_index_injective(b.size, c, nb);
                        }
                        assert(marked(before.liberty_marks@, b.size, c)
                            <==> before.liberties@.contains(c));
                    }
                }
            }
        } else if cell == own {
            if !self.member_marks[i] {
                proof {
                    assert(marked(self.member_marks@, b.size, nb) == self.member_marks@[i as int]);
                    assert(!self.members@.contains(nb));
                    lemma_push_contains(self.members@, nb);
                    lemma_push_no_duplicates(self.members@, nb);
                    lemma_connected_step(b, start, from, nb);
                    lemma_count_false_after_mark(self.member_marks@, i as int);
                }
                let ghost before = *self;
                self.member_marks.set(i, true);
                self.members.push(nb);
                proof {
                    assert forall|c: Coord| b.contains(c) implies (marked(
                        self.member_marks@,
                        b.size,
                        c,
                    ) <==> self.members@.contains(c)) by {
                        lemma_index_in_range(b.size, c);
                        if c != nb && index_spec(b.size, c) == index_spec(b.size, nb) {
                            lemma_index_injective(b.size, c, nb);
                        }
                        assert(marked(before.member_marks@, b.size, c)
                            <==> before.members@.contains(c));
                    }
                    assert forall|c: Coord| #[trigger]
                        self.liberties@.contains(c) implies b.liberties(
                        self.members@.to_set(),
                    ).contains(c) by {
                        assert(b.liberties(before.members@.to_set()).contains(c));
                        let m = choose|m: Coord| #[trigger]
                            before.members@.to_set().contains(m) && adjacent(m, c);
                        assert(before.members@.contains(m));
                        assert(self.members@.to_set().contains(m));
                    }
                }
            }
        }
    }
}

/// Finds the chain of the stone at `coord` and the liberties of that chain.
///
/// The search starts at `coord` and goes from each stone found to its
/// neighbours on the board: a stone of the same colour joins the chain, an
/// empty point is noted as a liberty, a stone of the other colour ends the
/// search in that direction.  No point is visited twice.
///
/// A search that starts on an empty point of the board notes that point as
/// a liberty and goes no further: it finds no stone.  A search that starts
/// off the board finds nothing.
pub fn process_chain(board: &Board, coord: Coord) -> (chain: Chain)
    requires
        board.wf(),
    ensures
        board@.stone_at(coord) ==> {
            &&& chain.is_chain_of(board@, coord)
            &&& chain.members@.len() == board@.group(coord).len()
            &&& chain.liberties@.len() == board@.liberties(board@.group(coord)).len()
        },
        board@.empty_at(coord) ==> chain.members@.len() == 0 && chain.liberties@ == seq![coord],
        !board@.contains(coord) ==> chain.members@.len() == 0 && chain.liberties@.len() == 0,
{
    let n = board.size();
    if !(1 <= coord.0 && coord.0 <= n && 1 <= coord.1 && coord.1 <= n) {
        return Chain { members: Vec::new(), liberties: Vec::new() };
    }
    if board.cell_at(coord) == Cell::Empty {
        let mut liberties: Vec<Coord> = Vec::new();
        liberties.push(coord);
        assert(liberties@ =~= seq![coord]);
        return Chain { members: Vec::new(), liberties };
    }
    let mut scratch = Scratch::new(n);
    explore(board, coord, &mut scratch)
}

/// The search of `process_chain` from a stone, on marks that the caller
/// lends.  It finds them clear and leaves them clear, at a cost that grows
/// with the chain and not with the board.
pub(crate) fn explore(board: &Board, coord: Coord, scratch: &mut Scratch) -> (chain: Chain)
    requires
        board.wf(),
        board@.stone_at(coord),
        old(scratch).is_clear(board@.size),
    ensures
        final(scratch).is_clear(board@.size),
        chain.is_chain_of(board@, coord),
        chain.members@.len() == board@.group(coord).len(),
        chain.liberties@.len() == board@.liberties(board@.group(coord)).len(),
{
    let ghost b = board@;
    let n = board.size();
    let mut f = Frontier {
        members: Vec::new(),
        liberties: Vec::new(),
        member_marks: Vec::new(),
        liberty_marks: Vec::new(),
    };
    core::mem::swap(&mut f.member_marks, &mut scratch.member_marks);
    core::mem::swap(&mut f.liberty_marks, &mut scratch.liberty_marks);
    let start_index = get_index(n, coord);
    proof {
        lemma_count_false_all(f.member_marks@);
        lemma_count_false_after_mark(f.member_marks@, start_index as int);
        lemma_connected_to_itself(b, coord);
        lemma_push_contains(f.members@, coord);
    }
    let ghost blank = f;
    f.member_marks.set(start_index, true);
    f.members.push(coord);
    proof {
        assert forall|c: Coord| b.contains(c) implies (marked(f.member_marks@, b.size, c)
            <==> f.members@.contains(c)) by {
            if c != coord && index_spec(b.size, c) == index_spec(b.size, coord) {
                lemma_index_injective(b.size, c, coord);
            }
            lemma_index_in_range(b.size, c);
            assert(!marked(blank.member_marks@, b.size, c));
        }
        assert forall|c: Coord| b.contains(c) implies (marked(f.liberty_marks@, b.size, c)
            <==> f.liberties@.contains(c)) by {
            lemma_index_in_range(b.size, c);
        }
        assert(f.members@ =~= seq![coord]);
    }
    let mut head: usize = 0;
    while head < f.members.len()
        invariant
            board.wf(),
            b == board@,
            n == b.size,
            n * n <= usize::MAX,
            f.inv(b, coord),
            head <= f.members@.len(),
            f.members@.len() >= 1,
            f.members@[0] == coord,
            forall|i: int| 0 <= i < head ==> f.expanded(b, #[trigger] f.members@[i]),
        decreases n * n - head,
    {
        let m = f.members[head];
        assert(f.members@.contains(m));
        let ghost f0 = f;
        if m.0 > 1 {
            f.examine(board, Ghost(coord), m, Coord(m.0 - 1, m.1));
        }
        let ghost f1 = f;
        if m.0 < n {
            f.examine(board, Ghost(coord), m, Coord(m.0 + 1, m.1));
        }
        let ghost f2 = f;
        if m.1 > 1 {
            f.examine(board, Ghost(coord), m, Coord(m.0, m.1 - 1));
        }
        let ghost f3 = f;
        if m.1 < n {
            f.examine(board, Ghost(coord), m, Coord(m.0, m.1 + 1));
        }
        proof {
            assert(f1.extends(f0));
            assert(f2.extends(f1));
            assert(f3.extends(f2));
            assert(f.extends(f3));
            assert(f.extends(f0)) by {
                assert forall|c: Coord| #[trigger] f0.members@.contains(c) implies f.members@.contains(
                    c,
                ) by {
                    assert(f1.members@.contains(c));
                    assert(f2.members@.contains(c));
                    assert(f3.members@.contains(c));
                }
                assert forall|c: Coord| #[trigger]
                    f0.liberties@.contains(c) implies f.liberties@.contains(c) by {
                    assert(f1.liberties@.contains(c));
                    assert(f2.liberties@.contains(c));
                    assert(f3.liberties@.contains(c));
                }
                assert forall|i: int| 0 <= i < f0.members@.len() implies #[trigger] f.members@[i]
                    == f0.members@[i] by {
                    assert(f1.members@[i] == f0.members@[i]);
                    assert(f2.members@[i] == f1.members@[i]);
                    assert(f3.members@[i] == f2.members@[i]);
                }
            }
            assert forall|i: int| 0 <= i < head + 1 implies f.expanded(
                b,
                #[trigger] f.members@[i],
            ) by {
                if i < head {
                    assert(f0.expanded(b, f0.members@[i]));
                    assert(f.members@[i] == f0.members@[i]);
                } else {
                    assert(f.members@[i] == m);
                    assert forall|nb: Coord| #[trigger]
                        adjacent(m, nb) && b.contains(nb) implies (b.at(nb) == b.at(m)
                        ==> f.members@.contains(nb)) && (b.at(nb) == Cell::Empty
                        ==> f.liberties@.contains(nb)) by {
                        if nb == Coord((m.0 - 1) as usize, m.1) {
                            assert(b.at(nb) == b.at(m) ==> f1.members@.contains(nb));
                            assert(b.at(nb) == Cell::Empty ==> f1.liberties@.contains(nb));
                        } else if nb == Coord((m.0 + 1) as usize, m.1) {
                            assert(b.at(nb) == b.at(m) ==> f2.members@.contains(nb));
                            assert(b.at(nb) == Cell::Empty ==> f2.liberties@.contains(nb));
                        } else if nb == Coord(m.0, (m.1 - 1) as usize) {
                            assert(b.at(nb) == b.at(m) ==> f3.members@.contains(nb));
                            assert(b.at(nb) == Cell::Empty ==> f3.liberties@.contains(nb));
                        } else {
                            assert(nb == Coord(m.0, (m.1 + 1) as usize));
                        }
                    }
                }
            }
        }
        head += 1;
    }
    let ghost done = f;
    proof {
        assert forall|i: int| 0 <= i < f.members@.len() implies b.contains(
            #[trigger] f.members@[i],
        ) by {
            assert(f.members@.contains(f.members@[i]));
        }
        assert forall|i: int| 0 <= i < f.liberties@.len() implies b.contains(
            #[trigger] f.liberties@[i],
        ) by {
            assert(f.liberties@.contains(f.liberties@[i]));
            assert(b.liberties(f.members@.to_set()).contains(f.liberties@[i]));
        }
    }
    unmark_all(&mut f.member_marks, n, &f.members);
    unmark_all(&mut f.liberty_marks, n, &f.liberties);
    core::mem::swap(&mut f.member_marks, &mut scratch.member_marks);
    core::mem::swap(&mut f.liberty_marks, &mut scratch.liberty_marks);
    let chain = Chain { members: f.members, liberties: f.liberties };
    proof {
        let found = chain.members@.to_set();
        assert(found.contains(coord)) by {
            assert(chain.members@[0] == coord);
        }
        assert(b.closed_under_steps(found)) by {
            assert forall|m: Coord, nb: Coord|
                #![trigger found.contains(m), adjacent(m, nb)]
                found.contains(m) && adjacent(m, nb) && b.contains(nb) && b.at(nb) == b.at(
                    m,
                ) implies found.contains(nb) by {
                let i = choose|i: int| 0 <= i < chain.members@.len() && chain.members@[i] == m;
                assert(done.expanded(b, done.members@[i]));
            }
        }
        lemma_closed_set_holds_group(b, coord, found);
        assert(found =~= b.group(coord));
        assert(chain.liberties@.to_set() =~= b.liberties(b.group(coord))) by {
            assert forall|e: Coord| b.liberties(b.group(coord)).contains(e) implies
                chain.liberties@.contains(e) by {
                let m = choose|m: Coord| #[trigger]
                    b.group(coord).contains(m) && adjacent(m, e);
                let i = choose|i: int| 0 <= i < chain.members@.len() && chain.members@[i] == m;
                assert(done.expanded(b, done.members@[i]));
            }
        }
        lemma_chain_counts(chain, b, coord);
    }
    chain
}

} // verus!
