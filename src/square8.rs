//! In the `square8` co-ordinate system, tiles are in a square grid with each
//! tile adjacent to all the others that share edges or vertices.

use vstd::prelude::*;
use crate::coord::{Coord, CoordSystem, wrap_add};
use crate::spiral::{
    abs, digit_offset, spiral_index, spiral_order, rev_spiral, lemma_coord_of_index,
};

verus! {

/// The square grid in which a tile touches the eight tiles around it.
pub struct Square8 {}

/// The offset of digit `d` as a co-ordinate.
pub open spec fn offset_coord(d: int) -> Coord {
    Coord { x: digit_offset(d).0 as i32, y: digit_offset(d).1 as i32 }
}

impl CoordSystem for Square8 {
    /// Manhattan distance. The grid's own adjacency counts a diagonal step as
    /// one, so this over-counts diagonal moves.
    open spec fn distance_spec(a: Coord, b: Coord) -> int {
        abs(a.x - b.x) + abs(a.y - b.y)
    }

    open spec fn index_spec(c: Coord) -> nat {
        spiral_index(c@.0, c@.1)
    }

    /// The neighbours in digit order 1 to 8: clockwise from north.
    open spec fn adjacent_spec(c: Coord) -> Seq<Coord> {
        Seq::new(8, |k: int| c.plus(offset_coord(k + 1)))
    }

    proof fn lemma_distance_metric(a: Coord, b: Coord) {
    }

    proof fn lemma_index_unique(a: Coord, b: Coord) {
        lemma_coord_of_index(a@.0, a@.1);
        lemma_coord_of_index(b@.0, b@.1);
    }

    proof fn lemma_adjacent_excludes_self(c: Coord) {
        lemma_neighbours_distinct(c);
    }

    fn distance(a: &Coord, b: &Coord) -> (r: i32) {
        let dx = a.x as i64 - b.x as i64;
        let dy = a.y as i64 - b.y as i64;
        let adx = if dx < 0 { -dx } else { dx };
        let ady = if dy < 0 { -dy } else { dy };
        (adx + ady) as i32
    }

    fn index(c: &Coord) -> (r: usize) {
        spiral_order(c)
    }

    fn iter_adjacent(c: &Coord) -> (r: Vec<Coord>) {
        let mut cursor = Square8Adjacency { base: *c, i: 0 };
        let mut out: Vec<Coord> = Vec::new();
        loop
            invariant
                cursor.base == *c,
                cursor.i <= 8,
                out@.len() == cursor.i,
                out@ =~= Self::adjacent_spec(*c).take(cursor.i as int),
            ensures
                out@ =~= Self::adjacent_spec(*c).take(8),
            decreases 9 - cursor.i,
        {
            match cursor.next() {
                Some(n) => out.push(n),
                None => break,
            }
        }
        assert(out@ =~= Self::adjacent_spec(*c));
        out
    }
}

/// A cursor over the neighbours of `base`: `i` of them have been handed out.
struct Square8Adjacency {
    base: Coord,
    i: usize,
}

impl Square8Adjacency {
    /// The next neighbour, or `None` once all eight have been handed out.
    fn next(&mut self) -> (r: Option<Coord>)
        ensures
            final(self).base == old(self).base,
            old(self).i < 8 ==> final(self).i == old(self).i + 1 && r == Some(
                old(self).base.plus(offset_coord(old(self).i + 1)),
            ),
            old(self).i >= 8 ==> final(self).i == old(self).i && r.is_none(),
    {
        if self.i >= 8 {
            return None;
        }
        self.i = self.i + 1;
        let off = rev_spiral(self.i).unwrap();
        Some(off + self.base)
    }
}

/// Wrapping addition of a step in `{-1, 0, 1}` is undone by the opposite step,
/// and distinct steps lead to distinct results.
proof fn lemma_wrap_step(v: i32, a: int, b: int)
    requires
        -1 <= a <= 1,
        -1 <= b <= 1,
    ensures
        wrap_add(wrap_add(v, a as i32), (-a) as i32) == v,
        wrap_add(v, a as i32) == wrap_add(v, b as i32) ==> a == b,
        wrap_add(v, a as i32) == v ==> a == 0,
{
}

/// A tile has exactly eight neighbours, all distinct, none of them the tile
/// itself.
pub proof fn lemma_neighbours_distinct(c: Coord)
    ensures
        Square8::adjacent_spec(c).len() == 8,
        Square8::adjacent_spec(c).no_duplicates(),
        !Square8::adjacent_spec(c).contains(c),
{
    let s = Square8::adjacent_spec(c);
    assert forall|j: int, k: int| 0 <= j < 8 && 0 <= k < 8 && j != k implies s[j] != s[k] by {
        lemma_wrap_step(c.x, digit_offset(j + 1).0, digit_offset(k + 1).0);
        lemma_wrap_step(c.y, digit_offset(j + 1).1, digit_offset(k + 1).1);
    }
    assert forall|k: int| 0 <= k < 8 implies s[k] != c by {
        lemma_wrap_step(c.x, digit_offset(k + 1).0, 0);
        lemma_wrap_step(c.y, digit_offset(k + 1).1, 0);
    }
}

/// The digit of the step opposite to digit `d`'s, for `d` in `1..9`.
spec fn opposite_digit(d: int) -> int {
    if d <= 4 { d + 4 } else { d - 4 }
}

/// `b` is a neighbour of `a` whenever `a` is a neighbour of `b`.
proof fn lemma_adjacent_back(a: Coord, b: Coord)
    requires
        Square8::adjacent_spec(a).contains(b),
    ensures
        Square8::adjacent_spec(b).contains(a),
{
    let s = Square8::adjacent_spec(a);
    let k = choose|k: int| 0 <= k < s.len() && s[k] == b;
    let j = opposite_digit(k + 1) - 1;
    lemma_wrap_step(a.x, digit_offset(k + 1).0, 0);
    lemma_wrap_step(a.y, digit_offset(k + 1).1, 0);
    assert(digit_offset(j + 1).0 == -digit_offset(k + 1).0);
    assert(digit_offset(j + 1).1 == -digit_offset(k + 1).1);
    assert(Square8::adjacent_spec(b)[j] == a);
}

/// Adjacency is symmetric: `b` is a neighbour of `a` exactly when `a` is a
/// neighbour of `b`.
pub proof fn lemma_adjacent_symmetric(a: Coord, b: Coord)
    ensures
        Square8::adjacent_spec(a).contains(b) <==> Square8::adjacent_spec(b).contains(a),
{
    if Square8::adjacent_spec(a).contains(b) {
        lemma_adjacent_back(a, b);
    }
    if Square8::adjacent_spec(b).contains(a) {
        lemma_adjacent_back(b, a);
    }
}

} // verus!
