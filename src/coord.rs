//! The tile co-ordinate value type and its arithmetic.
//!
//! Arithmetic on co-ordinates wraps around at the bounds of `i32`, in every
//! operation alike: the grid behaves as a torus of side 2^32.

use vstd::prelude::*;

verus! {

/// A tile co-ordinate.
#[derive(Clone, Copy, Debug, PartialEq, Eq, Hash, Structural)]
pub struct Coord {
    pub x: i32,
    pub y: i32,
}

/// The sum of two `i32` values, wrapped into the range of `i32`.
pub open spec fn wrap_add(a: i32, b: i32) -> i32 {
    vstd::wrapping::i32_specs::wrapping_add(a, b)
}

/// The product of two `i32` values, wrapped into the range of `i32`.
pub open spec fn wrap_mul(a: i32, b: i32) -> i32 {
    vstd::wrapping::i32_specs::wrapping_mul(a, b)
}

impl View for Coord {
    type V = (int, int);

    /// The co-ordinate as a pair of mathematical integers.
    open spec fn view(&self) -> (int, int) {
        (self.x as int, self.y as int)
    }
}

impl Coord {
    /// Componentwise wrapping sum of two co-ordinates.
    pub open spec fn plus(self, o: Coord) -> Coord {
        Coord { x: wrap_add(self.x, o.x), y: wrap_add(self.y, o.y) }
    }

    /// Componentwise wrapping product of a co-ordinate by a scalar.
    pub open spec fn times(self, k: i32) -> Coord {
        Coord { x: wrap_mul(self.x, k), y: wrap_mul(self.y, k) }
    }

    /// Creates a new co-ordinate.
    pub fn new(x: i32, y: i32) -> (r: Coord)
        ensures
            r.x == x,
            r.y == y,
    {
        Coord { x, y }
    }

    /// Returns the zero co-ordinate, the origin.
    pub fn zero() -> (r: Coord)
        ensures
            r.x == 0,
            r.y == 0,
    {
        Coord { x: 0, y: 0 }
    }
}

impl std::ops::Add<Coord> for Coord {
    type Output = Coord;

    fn add(self, rhs: Coord) -> (r: Coord) {
        Coord::new(self.x.wrapping_add(rhs.x), self.y.wrapping_add(rhs.y))
    }
}

impl vstd::std_specs::ops::AddSpecImpl<Coord> for Coord {
    open spec fn obeys_add_spec() -> bool {
        true
    }

    open spec fn add_req(self, rhs: Coord) -> bool {
        true
    }

    open spec fn add_spec(self, rhs: Coord) -> Coord {
        self.plus(rhs)
    }
}

impl std::ops::AddAssign<Coord> for Coord {
    fn add_assign(&mut self, rhs: Coord)
        ensures
            *final(self) == old(self).plus(rhs),
    {
        self.x = self.x.wrapping_add(rhs.x);
        self.y = self.y.wrapping_add(rhs.y);
    }
}

impl std::ops::Mul<i32> for Coord {
    type Output = Coord;

    fn mul(self, rhs: i32) -> (r: Coord) {
        Coord::new(self.x.wrapping_mul(rhs), self.y.wrapping_mul(rhs))
    }
}

impl vstd::std_specs::ops::MulSpecImpl<i32> for Coord {
    open spec fn obeys_mul_spec() -> bool {
        true
    }

    open spec fn mul_req(self, rhs: i32) -> bool {
        true
    }

    open spec fn mul_spec(self, rhs: i32) -> Coord {
        self.times(rhs)
    }
}

/// A grid topology: how far apart two tiles are, how tiles are numbered, and
/// which tiles touch.
pub trait CoordSystem {
    /// The distance from `a` to `b`.
    spec fn distance_spec(a: Coord, b: Coord) -> int;

    /// The storage index of `c`.
    spec fn index_spec(c: Coord) -> nat;

    /// The tiles adjacent to `c`, in the order they are enumerated.
    spec fn adjacent_spec(c: Coord) -> Seq<Coord>;

    /// Distance is never negative, is symmetric, and is 0 from a tile to itself.
    proof fn lemma_distance_metric(a: Coord, b: Coord)
        ensures
            Self::distance_spec(a, b) >= 0,
            Self::distance_spec(a, b) == Self::distance_spec(b, a),
            Self::distance_spec(a, a) == 0,
    ;

    /// Distinct tiles have distinct indices.
    proof fn lemma_index_unique(a: Coord, b: Coord)
        ensures
            Self::index_spec(a) == Self::index_spec(b) ==> a == b,
    ;

    /// A tile is never adjacent to itself.
    proof fn lemma_adjacent_excludes_self(c: Coord)
        ensures
            !Self::adjacent_spec(c).contains(c),
    ;

    /// Calculates the distance between two coords, which is always >= 0, but
    /// may not be the sum of distances between the coords in between them.
    fn distance(a: &Coord, b: &Coord) -> (r: i32)
        requires
            Self::distance_spec(*a, *b) <= i32::MAX,
        ensures
            r == Self::distance_spec(*a, *b),
    ;

    /// Creates a vector index for a coord; coords closer to the origin have
    /// smaller indices and adjacent coords are often put together. Each coord
    /// gets a unique index.
    fn index(c: &Coord) -> (r: usize)
        requires
            Self::index_spec(*c) <= usize::MAX,
        ensures
            r == Self::index_spec(*c),
    ;

    /// The coords that are adjacent to this one, in a fixed order.
    fn iter_adjacent(c: &Coord) -> (r: Vec<Coord>)
        ensures
            r@ == Self::adjacent_spec(*c),
    ;
}

} // verus!
