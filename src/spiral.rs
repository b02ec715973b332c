//! Spiral-order numbering: a bijection between the plane and the natural
//! numbers that gives small numbers to tiles near the origin.
//!
//! A co-ordinate is read as a number in base 9. At each level its position in
//! the enclosing 3x3 block, a "digit co-ordinate" in `{-1, 0, 1}^2`, is turned
//! into a digit by walking clockwise from north; the block itself is then the
//! co-ordinate at the next, coarser level.

use vstd::prelude::*;
use crate::coord::Coord;

verus! {

/// The offset in `{-1, 0, 1}^2` that a digit `0..9` stands for.
pub open spec fn digit_offset(d: int) -> (int, int) {
    if d == 1 {
        (0, -1)
    } else if d == 2 {
        (1, -1)
    } else if d == 3 {
        (1, 0)
    } else if d == 4 {
        (1, 1)
    } else if d == 5 {
        (0, 1)
    } else if d == 6 {
        (-1, 1)
    } else if d == 7 {
        (-1, 0)
    } else if d == 8 {
        (-1, -1)
    } else {
        (0, 0)
    }
}

/// Whether `(x, y)` lies in the 3x3 block around the origin.
pub open spec fn is_digit_offset(x: int, y: int) -> bool {
    -1 <= x <= 1 && -1 <= y <= 1
}

/// The digit `0..9` of an offset in `{-1, 0, 1}^2`.
pub open spec fn offset_digit(x: int, y: int) -> nat {
    if x == 0 && y == -1 {
        1
    } else if x == 1 && y == -1 {
        2
    } else if x == 1 && y == 0 {
        3
    } else if x == 1 && y == 1 {
        4
    } else if x == 0 && y == 1 {
        5
    } else if x == -1 && y == 1 {
        6
    } else if x == -1 && y == 0 {
        7
    } else if x == -1 && y == -1 {
        8
    } else {
        0
    }
}

/// The absolute value of `v`.
pub open spec fn abs(v: int) -> int {
    if v < 0 { -v } else { v }
}

/// The position of `v` within its block of three, in `{-1, 0, 1}`.
pub open spec fn low_trit(v: int) -> int {
    (v + 1) % 3 - 1
}

/// The block of three that `v` lies in, i.e. `v` at the next level.
pub open spec fn high_trits(v: int) -> int {
    (v + 1) / 3
}

/// `v` splits into its position in its block of three and the block.
proof fn lemma_trits(v: int)
    ensures
        v == low_trit(v) + 3 * high_trits(v),
        -1 <= low_trit(v) <= 1,
        abs(high_trits(v)) <= abs(v),
        v != 0 ==> abs(high_trits(v)) < abs(v),
{
}

/// The spiral-order index of the co-ordinate `(x, y)`.
pub open spec fn spiral_index(x: int, y: int) -> nat
    decreases abs(x) + abs(y),
{
    if x == 0 && y == 0 {
        0
    } else {
        offset_digit(low_trit(x), low_trit(y)) + 9 * spiral_index(high_trits(x), high_trits(y))
    }
}

/// The co-ordinate, as a pair of integers, whose spiral-order index is `i`.
pub open spec fn spiral_coord(i: nat) -> (int, int)
    decreases i,
{
    if i == 0 {
        (0, 0)
    } else {
        let (dx, dy) = digit_offset((i % 9) as int);
        let (px, py) = spiral_coord(i / 9);
        (dx + 3 * px, dy + 3 * py)
    }
}

/// The two digit tables are inverse to each other.
proof fn lemma_digit_tables(d: int, x: int, y: int)
    ensures
        0 <= d < 9 ==> is_digit_offset(digit_offset(d).0, digit_offset(d).1),
        0 <= d < 9 ==> offset_digit(digit_offset(d).0, digit_offset(d).1) == d,
        is_digit_offset(x, y) ==> offset_digit(x, y) < 9,
        is_digit_offset(x, y) ==> digit_offset(offset_digit(x, y) as int) == (x, y),
{
}

/// `spiral_coord` read one digit at a time, the index 0 included.
proof fn lemma_spiral_coord_step(i: nat)
    ensures
        spiral_coord(i) == ({
            let (dx, dy) = digit_offset((i % 9) as int);
            let (px, py) = spiral_coord(i / 9);
            (dx + 3 * px, dy + 3 * py)
        }),
{
    if i == 0 {
        assert(spiral_coord(0) == (0int, 0int));
    }
}

/// Every co-ordinate is recovered from its spiral-order index: `spiral_coord`
/// undoes `spiral_index`.
pub proof fn lemma_coord_of_index(x: int, y: int)
    ensures
        spiral_coord(spiral_index(x, y)) == (x, y),
    decreases abs(x) + abs(y),
{
    if x == 0 && y == 0 {
    } else {
        lemma_trits(x);
        lemma_trits(y);
        let hx = high_trits(x);
        let hy = high_trits(y);
        let d = offset_digit(low_trit(x), low_trit(y));
        lemma_coord_of_index(hx, hy);
        lemma_digit_tables(0, low_trit(x), low_trit(y));
        let i = spiral_index(x, y);
        let r = spiral_index(hx, hy);
        assert(i == d + 9 * r);
        assert(i % 9 == d && i / 9 == r) by (nonlinear_arith)
            requires i == d + 9 * r, d < 9;
        lemma_spiral_coord_step(i);
    }
}

/// Every natural number is recovered from the co-ordinate it numbers:
/// `spiral_index` undoes `spiral_coord`.
pub proof fn lemma_index_of_coord(i: nat)
    ensures
        spiral_index(spiral_coord(i).0, spiral_coord(i).1) == i,
    decreases i,
{
    if i != 0 {
        lemma_index_of_coord(i / 9);
        let d = (i % 9) as int;
        lemma_digit_tables(d, 0, 0);
        let (dx, dy) = digit_offset(d);
        let (px, py) = spiral_coord(i / 9);
        let x = dx + 3 * px;
        let y = dy + 3 * py;
        assert(low_trit(x) == dx && high_trits(x) == px);
        assert(low_trit(y) == dy && high_trits(y) == py);
        if x == 0 && y == 0 {
            assert(px == 0 && py == 0);
            assert(spiral_index(0, 0) == 0);
        }
        assert(i == d + 9 * (i / 9));
    }
}

/// Distinct indices number distinct co-ordinates.
pub proof fn lemma_spiral_coord_injective(a: nat, b: nat)
    requires
        a != b,
    ensures
        spiral_coord(a) != spiral_coord(b),
{
    lemma_index_of_coord(a);
    lemma_index_of_coord(b);
}

/// The origin has index 0, and index 0 numbers the origin.
pub proof fn lemma_origin()
    ensures
        spiral_index(0, 0) == 0,
        spiral_coord(0) == (0int, 0int),
{
}

/// Whether both components of `p` are representable as `i32`.
pub open spec fn fits_i32(p: (int, int)) -> bool {
    i32::MIN <= p.0 <= i32::MAX && i32::MIN <= p.1 <= i32::MAX
}

/// `b` raised to the power `k`.
pub open spec fn power(b: int, k: nat) -> int
    decreases k,
{
    if k == 0 {
        1
    } else {
        b * power(b, (k - 1) as nat)
    }
}

/// The largest size of a component that `k` digits reach: `(3^k - 1) / 2`.
pub open spec fn reach(k: nat) -> int
    decreases k,
{
    if k == 0 {
        0
    } else {
        3 * reach((k - 1) as nat) + 1
    }
}

/// Co-ordinates within `reach(k)` of the origin in each component have fewer
/// than `k` digits.
pub proof fn lemma_index_below(x: int, y: int, k: nat)
    requires
        abs(x) <= reach(k),
        abs(y) <= reach(k),
    ensures
        spiral_index(x, y) < power(9, k),
    decreases k,
{
    if x == 0 && y == 0 {
        lemma_power_positive(9, k);
    } else {
        lemma_trits(x);
        lemma_trits(y);
        lemma_digit_tables(0, low_trit(x), low_trit(y));
        lemma_index_below(high_trits(x), high_trits(y), (k - 1) as nat);
    }
}

/// Indices with at most `k` digits number co-ordinates within `reach(k)` of
/// the origin in each component.
pub proof fn lemma_coord_within(i: nat, k: nat)
    requires
        i < power(9, k),
    ensures
        abs(spiral_coord(i).0) <= reach(k),
        abs(spiral_coord(i).1) <= reach(k),
    decreases k,
{
    lemma_reach_nonnegative(k);
    if i != 0 {
        lemma_digit_tables((i % 9) as int, 0, 0);
        lemma_coord_within(i / 9, (k - 1) as nat);
    }
}

proof fn lemma_power_positive(b: int, k: nat)
    requires
        b >= 1,
    ensures
        power(b, k) >= 1,
    decreases k,
{
    if k > 0 {
        lemma_power_positive(b, (k - 1) as nat);
        assert(b * power(b, (k - 1) as nat) >= 1) by (nonlinear_arith)
            requires
                b >= 1,
                power(b, (k - 1) as nat) >= 1,
        ;
    }
}

proof fn lemma_reach_nonnegative(k: nat)
    ensures
        reach(k) >= 0,
    decreases k,
{
    if k > 0 {
        lemma_reach_nonnegative((k - 1) as nat);
    }
}

/// A size of component up to which `spiral_order` is defined on every
/// co-ordinate, whatever the width of `usize`: ten digits, `(3^10 - 1) / 2`.
/// (With a 64-bit `usize` twenty digits fit.)
pub const INDEXABLE_COMPONENT: i32 = 29_524;

/// Every co-ordinate whose components are at most `INDEXABLE_COMPONENT` in
/// size has an index that fits in `usize`.
pub proof fn lemma_index_fits(c: Coord)
    requires
        abs(c@.0) <= INDEXABLE_COMPONENT,
        abs(c@.1) <= INDEXABLE_COMPONENT,
    ensures
        spiral_index(c@.0, c@.1) <= usize::MAX,
{
    reveal_with_fuel(reach, 11);
    reveal_with_fuel(power, 11);
    assert(reach(10) == INDEXABLE_COMPONENT);
    assert(power(9, 10) == 3486784401);
    lemma_index_below(c@.0, c@.1, 10);
}

/// One more than the largest index for which `rev_spiral_order` is defined on
/// every index below it: `9^19`.
pub const COORD_INDEX_LIMIT: u64 = 1_350_851_717_672_992_089;

/// Every index below `COORD_INDEX_LIMIT` numbers a co-ordinate that fits in
/// `i32`.
pub proof fn lemma_coord_fits(i: nat)
    requires
        i < COORD_INDEX_LIMIT,
    ensures
        fits_i32(spiral_coord(i)),
{
    reveal_with_fuel(reach, 20);
    reveal_with_fuel(power, 20);
    assert(power(9, 19) == COORD_INDEX_LIMIT);
    assert(reach(19) == 581130733);
    lemma_coord_within(i, 19);
}

/// Every co-ordinate is recovered from its index: `spiral_coord` of the index
/// of `c` is `c` itself, so it fits in `i32` and `rev_spiral_order` accepts
/// whatever `spiral_order` returns.
pub proof fn lemma_round_trip(c: Coord)
    ensures
        fits_i32(spiral_coord(spiral_index(c@.0, c@.1))),
        spiral_coord(spiral_index(c@.0, c@.1)) == c@,
{
    lemma_coord_of_index(c@.0, c@.1);
}

/// Co-ordinates whose components are at most `reach(19)`, 581_130_733, in
/// size have indices below `COORD_INDEX_LIMIT`.
pub proof fn lemma_index_within_limit(c: Coord)
    requires
        abs(c@.0) <= 581_130_733,
        abs(c@.1) <= 581_130_733,
    ensures
        spiral_index(c@.0, c@.1) < COORD_INDEX_LIMIT,
{
    reveal_with_fuel(reach, 20);
    reveal_with_fuel(power, 20);
    assert(power(9, 19) == COORD_INDEX_LIMIT);
    assert(reach(19) == 581130733);
    lemma_index_below(c@.0, c@.1, 19);
}

/// Relies on `num::Integer::mod_floor`: the remainder of the division rounded
/// toward negative infinity, which for a positive divisor lies in `0..d`.
#[verifier::external_body]
fn mod_floor(a: i64, d: i64) -> (r: i64)
    requires
        d > 0,
    ensures
        r as int == a as int % d as int,
{
    num::Integer::mod_floor(&a, &d)
}

/// Relies on `num::Integer::div_floor`: the quotient rounded toward negative
/// infinity.
#[verifier::external_body]
fn div_floor(a: i64, d: i64) -> (r: i64)
    requires
        d > 0,
    ensures
        r as int == a as int / d as int,
{
    num::Integer::div_floor(&a, &d)
}

/// Turns a digit `0..9` into its offset between `(-1, -1)` and `(1, 1)`.
pub fn rev_spiral(i: usize) -> (r: Option<Coord>)
    ensures
        r.is_some() == (i < 9),
        r.is_some() ==> r.unwrap()@ == digit_offset(i as int),
{
    match i {
        0 => Some(Coord::zero()),
        1 => Some(Coord::new(0, -1)),
        2 => Some(Coord::new(1, -1)),
        3 => Some(Coord::new(1, 0)),
        4 => Some(Coord::new(1, 1)),
        5 => Some(Coord::new(0, 1)),
        6 => Some(Coord::new(-1, 1)),
        7 => Some(Coord::new(-1, 0)),
        8 => Some(Coord::new(-1, -1)),
        _ => None,
    }
}

/// Turns an offset between `(-1, -1)` and `(1, 1)` into its digit `0..9`.
pub fn spiral(c: &Coord) -> (r: Option<usize>)
    ensures
        r.is_some() == is_digit_offset(c@.0, c@.1),
        r.is_some() ==> r.unwrap() == offset_digit(c@.0, c@.1),
{
    match (c.x, c.y) {
        (0, 0) => Some(0),
        (0, -1) => Some(1),
        (1, -1) => Some(2),
        (1, 0) => Some(3),
        (1, 1) => Some(4),
        (0, 1) => Some(5),
        (-1, 1) => Some(6),
        (-1, 0) => Some(7),
        (-1, -1) => Some(8),
        _ => None,
    }
}

/// The spiral-order index of `c`, starting at 0 for the origin.
///
/// Defined where the index fits in `usize`: for every co-ordinate whose
/// components are at most `INDEXABLE_COMPONENT` in size, and beyond.
pub fn spiral_order(c: &Coord) -> (r: usize)
    requires
        spiral_index(c@.0, c@.1) <= usize::MAX,
    ensures
        r == spiral_index(c@.0, c@.1),
{
    let ghost total = spiral_index(c@.0, c@.1);
    let mut c_left = *c;
    let mut c_mul: usize = 1;
    let mut i: usize = 0;
    while !(c_left.x == 0 && c_left.y == 0)
        invariant
            i + c_mul * spiral_index(c_left@.0, c_left@.1) == total,
            total <= usize::MAX,
            c_mul >= 1,
        decreases abs(c_left@.0) + abs(c_left@.1),
    {
        let ghost rest = spiral_index(c_left@.0, c_left@.1);
        proof {
            lemma_trits(c_left@.0);
            lemma_trits(c_left@.1);
            lemma_digit_tables(0, low_trit(c_left@.0), low_trit(c_left@.1));
        }
        let sx = c_left.x as i64 + 1;
        let sy = c_left.y as i64 + 1;
        let c_here = Coord { x: (mod_floor(sx, 3) - 1) as i32, y: (mod_floor(sy, 3) - 1) as i32 };
        c_left = Coord { x: div_floor(sx, 3) as i32, y: div_floor(sy, 3) as i32 };
        let digit = spiral(&c_here).unwrap();
        let ghost next = spiral_index(c_left@.0, c_left@.1);
        assert(rest == digit + 9 * next);
        assert(digit * c_mul <= c_mul * rest) by (nonlinear_arith)
            requires
                rest == digit + 9 * next,
                c_mul >= 1,
        ;
        let ghost i0 = i as int;
        i = i + digit * c_mul;
        assert(i + 9 * c_mul * next == total) by (nonlinear_arith)
            requires
                i == i0 + digit * c_mul,
                i0 + c_mul * rest == total,
                rest == digit + 9 * next,
        ;
        if !(c_left.x == 0 && c_left.y == 0) {
            proof {
                lemma_coord_of_index(c_left@.0, c_left@.1);
                assert(9 * c_mul <= c_mul * rest) by (nonlinear_arith)
                    requires
                        rest == digit + 9 * next,
                        next >= 1,
                        c_mul >= 1,
                ;
            }
            c_mul = c_mul * 9;
            assert(i + c_mul * next == total);
        } else {
            assert(next == 0);
            assert(c_mul * next == 0 && 9 * c_mul * next == 0) by (nonlinear_arith)
                requires
                    next == 0,
            ;
        }
    }
    assert(c_mul * spiral_index(c_left@.0, c_left@.1) == 0) by (nonlinear_arith)
        requires
            spiral_index(c_left@.0, c_left@.1) == 0,
    ;
    i
}

/// The co-ordinate whose spiral-order index is `i`.
///
/// Defined where that co-ordinate fits in `i32`: for every index below
/// `COORD_INDEX_LIMIT`, and beyond.
///
/// Digits are composed at weights 1, 3, 9, ...; the weight and the partial
/// sums are kept in `i64`, where they always fit.
pub fn rev_spiral_order(i: usize) -> (r: Coord)
    requires
        fits_i32(spiral_coord(i as nat)),
    ensures
        r@ == spiral_coord(i as nat),
{
    let ghost target = spiral_coord(i as nat);
    let mut i_left: usize = i;
    let mut i_mul: i64 = 1;
    let mut cx: i64 = 0;
    let mut cy: i64 = 0;
    while i_left != 0
        invariant
            cx + i_mul * spiral_coord(i_left as nat).0 == target.0,
            cy + i_mul * spiral_coord(i_left as nat).1 == target.1,
            i_mul >= 1,
            i_mul * i_mul * i_left <= i,
            2 * abs(cx as int) < i_mul,
            2 * abs(cy as int) < i_mul,
        decreases i_left,
    {
        let ghost l = i_left as nat;
        proof {
            lemma_spiral_coord_step(l);
            lemma_digit_tables((l % 9) as int, 0, 0);
            assert(i_mul < 0x1_0000_0000) by (nonlinear_arith)
                requires
                    i_mul * i_mul * l <= i,
                    l >= 1,
                    i_mul >= 1,
                    i <= usize::MAX,
            ;
        }
        let i_here = i_left % 9;
        i_left = i_left / 9;
        let off = rev_spiral(i_here).unwrap();
        let ghost (px, py) = spiral_coord(i_left as nat);
        let ghost (cx0, cy0) = (cx as int, cy as int);
        assert(-i_mul <= off.x * i_mul <= i_mul && -i_mul <= off.y * i_mul <= i_mul)
            by (nonlinear_arith)
            requires
                -1 <= off.x <= 1,
                -1 <= off.y <= 1,
                i_mul >= 1,
        ;
        cx = cx + off.x as i64 * i_mul;
        cy = cy + off.y as i64 * i_mul;
        proof {
            assert(cx + 3 * i_mul * px == target.0) by (nonlinear_arith)
                requires
                    cx == cx0 + off.x * i_mul,
                    cx0 + i_mul * (off.x + 3 * px) == target.0,
            ;
            assert(cy + 3 * i_mul * py == target.1) by (nonlinear_arith)
                requires
                    cy == cy0 + off.y * i_mul,
                    cy0 + i_mul * (off.y + 3 * py) == target.1,
            ;
            assert(3 * i_mul * 3 * i_mul * i_left <= i) by (nonlinear_arith)
                requires
                    9 * i_left <= l,
                    i_mul * i_mul * l <= i,
            ;
        }
        i_mul = i_mul * 3;
        assert(i_mul * i_mul * i_left <= i) by (nonlinear_arith)
            requires
                3 * (i_mul / 3) * 3 * (i_mul / 3) * i_left <= i,
                i_mul % 3 == 0,
        ;
    }
    assert(spiral_coord(0) == (0int, 0int));
    assert(i_mul * 0 == 0) by (nonlinear_arith);
    Coord::new(cx as i32, cy as i32)
}

} // verus!
