//! Marks on the cells of a board, kept in a row-major array beside it.

use crate::board::{
    coord_at, get_index, index_spec, lemma_index_in_range, lemma_index_injective,
    lemma_index_of_coord_at, Coord,
};
use vstd::prelude::*;

verus! {

/// Whether the cell with the place of `c` is marked.
pub open spec fn marked(marks: Seq<bool>, size: nat, c: Coord) -> bool {
    marks[index_spec(size, c)]
}

/// A vector of `len` marks, none of them set.
pub fn blank_marks(len: usize) -> (marks: Vec<bool>)
    ensures
        marks@.len() == len,
        forall|i: int| 0 <= i < len ==> !marks@[i],
{
    let mut marks: Vec<bool> = Vec::new();
    let mut i: usize = 0;
    while i < len
        invariant
            i <= len,
            marks@.len() == i,
            forall|j: int| 0 <= j < i ==> !marks@[j],
        decreases len - i,
    {
        marks.push(false);
        i += 1;
    }
    marks
}

/// Sets the mark of every point of `stones`; the other marks stay.
pub fn mark_all(marks: &mut Vec<bool>, size: usize, stones: &Vec<Coord>)
    requires
        size * size <= usize::MAX,
        old(marks)@.len() == size * size,
        forall|i: int|
            0 <= i < stones@.len() ==> 1 <= (#[trigger] stones@[i]).0 <= size && 1
                <= stones@[i].1 <= size,
    ensures
        final(marks)@.len() == size * size,
        forall|c: Coord|
            1 <= c.0 <= size && 1 <= c.1 <= size ==> (#[trigger] marked(
                final(marks)@,
                size as nat,
                c,
            ) <==> marked(old(marks)@, size as nat, c) || stones@.contains(c)),
{
    let mut i: usize = 0;
    while i < stones.len()
        invariant
            i <= stones@.len(),
            size * size <= usize::MAX,
            marks@.len() == size * size,
            forall|j: int|
                0 <= j < stones@.len() ==> 1 <= (#[trigger] stones@[j]).0 <= size && 1
                    <= stones@[j].1 <= size,
            forall|c: Coord|
                1 <= c.0 <= size && 1 <= c.1 <= size ==> (#[trigger] marked(
                    marks@,
                    size as nat,
                    c,
                ) <==> marked(old(marks)@, size as nat, c) || exists|j: int|
                    0 <= j < i && stones@[j] == c),
        decreases stones@.len() - i,
    {
        let stone = stones[i];
        let k = get_index(size, stone);
        let ghost before = marks@;
        marks.set(k, true);
        proof {
            assert forall|c: Coord| 1 <= c.0 <= size && 1 <= c.1 <= size implies (#[trigger] marked(
                marks@,
                size as nat,
                c,
            ) <==> marked(old(marks)@, size as nat, c) || exists|j: int|
                0 <= j < i + 1 && stones@[j] == c) by {
                lemma_index_in_range(size as nat, c);
                if c != stone && index_spec(size as nat, c) == index_spec(size as nat, stone) {
                    lemma_index_injective(size as nat, c, stone);
                }
                assert(marked(before, size as nat, c) <==> marked(old(marks)@, size as nat, c)
                    || exists|j: int| 0 <= j < i && stones@[j] == c);
                if c == stone {
                    assert(stones@[i as int] == c);
                }
            }
        }
        i += 1;
    }
}

/// Clears the marks of the points of `points`, which are all the marks that
/// are set: no mark is left.
pub fn unmark_all(marks: &mut Vec<bool>, size: usize, points: &Vec<Coord>)
    requires
        size * size <= usize::MAX,
        old(marks)@.len() == size * size,
        points@.no_duplicates(),
        forall|i: int|
            0 <= i < points@.len() ==> 1 <= (#[trigger] points@[i]).0 <= size && 1
                <= points@[i].1 <= size,
        forall|c: Coord|
            1 <= c.0 <= size && 1 <= c.1 <= size ==> (#[trigger] marked(
                old(marks)@,
                size as nat,
                c,
            ) <==> points@.contains(c)),
    ensures
        final(marks)@.len() == size * size,
        forall|i: int| 0 <= i < size * size ==> !final(marks)@[i],
{
    let mut i: usize = 0;
    while i < points.len()
        invariant
            i <= points@.len(),
            size * size <= usize::MAX,
            marks@.len() == size * size,
            points@.no_duplicates(),
            forall|j: int|
                0 <= j < points@.len() ==> 1 <= (#[trigger] points@[j]).0 <= size && 1
                    <= points@[j].1 <= size,
            forall|c: Coord|
                1 <= c.0 <= size && 1 <= c.1 <= size ==> (#[trigger] marked(
                    marks@,
                    size as nat,
                    c,
                ) <==> exists|j: int| i <= j < points@.len() && points@[j] == c),
        decreases points@.len() - i,
    {
        let point = points[i];
        let k = get_index(size, point);
        let ghost before = marks@;
        marks.set(k, false);
        proof {
            assert forall|c: Coord| 1 <= c.0 <= size && 1 <= c.1 <= size implies (#[trigger] marked(
                marks@,
                size as nat,
                c,
            ) <==> exists|j: int| i + 1 <= j < points@.len() && points@[j] == c) by {
                lemma_index_in_range(size as nat, c);
                if c != point && index_spec(size as nat, c) == index_spec(size as nat, point) {
                    lemma_index_injective(size as nat, c, point);
                }
                assert(marked(before, size as nat, c) <==> exists|j: int|
                    i <= j < points@.len() && points@[j] == c);
                if c != point && marked(before, size as nat, c) {
                    let j = choose|j: int| i <= j < points@.len() && points@[j] == c;
                    assert(i + 1 <= j);
                }
            }
        }
        i += 1;
    }
    proof {
        assert forall|k: int| 0 <= k < size * size implies !marks@[k] by {
            lemma_index_of_coord_at(size as nat, k);
            let c = coord_at(size as nat, k);
            assert(marked(marks@, size as nat, c) == marks@[k]);
        }
    }
}

/// The marks that a flood fill works with.  Between two searches none of
/// them is set, so that one pair of arrays serves a whole sweep.
pub struct Scratch {
    pub member_marks: Vec<bool>,
    pub liberty_marks: Vec<bool>,
}

impl Scratch {
    /// The arrays fit a board of side `size` and no mark is set.
    pub open spec fn is_clear(&self, size: nat) -> bool {
        &&& self.member_marks@.len() == size * size
        &&& self.liberty_marks@.len() == size * size
        &&& forall|i: int| 0 <= i < size * size ==> !self.member_marks@[i]
        &&& forall|i: int| 0 <= i < size * size ==> !self.liberty_marks@[i]
    }

    /// Clear marks for a board of side `size`.
    pub fn new(size: usize) -> (scratch: Scratch)
        requires
            size * size <= usize::MAX,
        ensures
            scratch.is_clear(size as nat),
    {
        Scratch { member_marks: blank_marks(size * size), liberty_marks: blank_marks(size * size) }
    }
}

} // verus!
