use hexland::spiral::{COORD_INDEX_LIMIT, INDEXABLE_COMPONENT};
use hexland::{rev_spiral, rev_spiral_order, spiral, spiral_order, Coord, CoordSystem, Square8};

/// Indices below 9^19 number co-ordinates that fit in `i32`.
const INDEX_LIMIT: usize = COORD_INDEX_LIMIT as usize;

/// Components of at most this size have an index that fits in `usize`.
const COMPONENT_LIMIT: i32 = 1_700_000_000;

fn unique_prop(a: usize, b: usize) -> bool {
    let a = a % INDEX_LIMIT;
    let b = b % INDEX_LIMIT;
    let coord_a = rev_spiral_order(a);
    let coord_b = rev_spiral_order(b);
    (coord_a == coord_b) == (a == b)
}

fn coord_round_trip_prop(x: i32, y: i32) -> bool {
    let c = Coord::new(x % COMPONENT_LIMIT, y % COMPONENT_LIMIT);
    let index = spiral_order(&c);
    let c2 = rev_spiral_order(index);
    c == c2
}

fn index_round_trip_prop(i: usize) -> bool {
    let i = i % INDEX_LIMIT;
    spiral_order(&rev_spiral_order(i)) == i
}

fn distance_symmetric_prop(ax: i16, ay: i16, bx: i16, by: i16) -> bool {
    let a = Coord::new(ax as i32, ay as i32);
    let b = Coord::new(bx as i32, by as i32);
    Square8::distance(&a, &b) == Square8::distance(&b, &a) && Square8::distance(&a, &a) == 0
}

#[test]
fn rev_spiral_order_is_unique() {
    quickcheck::quickcheck(unique_prop as fn(usize, usize) -> bool);
}

#[test]
fn spiral_order_round_trips() {
    quickcheck::quickcheck(coord_round_trip_prop as fn(i32, i32) -> bool);
}

#[test]
fn rev_spiral_order_round_trips() {
    quickcheck::quickcheck(index_round_trip_prop as fn(usize) -> bool);
}

#[test]
fn round_trips_on_a_block_around_the_origin() {
    for x in -40..=40 {
        for y in -40..=40 {
            let c = Coord::new(x, y);
            assert_eq!(rev_spiral_order(spiral_order(&c)), c);
        }
    }
    for i in 0..10_000usize {
        assert_eq!(spiral_order(&rev_spiral_order(i)), i);
    }
}

#[test]
fn round_trips_near_the_largest_sizes() {
    let c = Coord::new(COMPONENT_LIMIT, -COMPONENT_LIMIT);
    assert_eq!(rev_spiral_order(spiral_order(&c)), c);
    let i = INDEX_LIMIT - 1;
    assert_eq!(spiral_order(&rev_spiral_order(i)), i);
}

#[test]
fn ten_digits_reach_the_indexable_component() {
    let nine_to_ten: usize = 3_486_784_401;
    let k = INDEXABLE_COMPONENT;
    for c in [Coord::new(k, k), Coord::new(-k, k), Coord::new(k, -k), Coord::new(-k, -k)] {
        assert!(spiral_order(&c) < nine_to_ten);
        assert_eq!(rev_spiral_order(spiral_order(&c)), c);
    }
    assert!(spiral_order(&Coord::new(k + 1, 0)) >= nine_to_ten);
    assert!(spiral_order(&Coord::new(0, -k - 1)) >= nine_to_ten);
}

#[test]
fn indices_below_the_limit_fit() {
    let c = rev_spiral_order(INDEX_LIMIT - 1);
    assert!(c.x.abs() <= 581_130_733 && c.y.abs() <= 581_130_733);
    assert_eq!(spiral_order(&c), INDEX_LIMIT - 1);
}

#[test]
fn indices_below_eighty_one_are_distinct_and_near() {
    let mut seen = Vec::new();
    for i in 0..81usize {
        let c = rev_spiral_order(i);
        assert!(!seen.contains(&c));
        assert!(c.x.abs() <= 4 && c.y.abs() <= 4);
        seen.push(c);
    }
}

#[test]
fn origin_is_fixed_point() {
    assert_eq!(spiral_order(&Coord::zero()), 0);
    assert_eq!(rev_spiral_order(0), Coord::zero());
    assert_eq!(spiral_order(&Coord::new(0, 0)), 0);
}

#[test]
fn first_spiral_step_is_north() {
    assert_eq!(spiral_order(&Coord::new(0, -1)), 1);
    assert_eq!(rev_spiral_order(1), Coord::new(0, -1));
}

#[test]
fn spiral_order_exact_values() {
    assert_eq!(spiral_order(&Coord::new(1, 0)), 3);
    assert_eq!(spiral_order(&Coord::new(-1, -1)), 8);
    assert_eq!(spiral_order(&Coord::new(2, 0)), 34);
    assert_eq!(rev_spiral_order(34), Coord::new(2, 0));
    assert_eq!(spiral_order(&Coord::new(0, -3)), 9);
    assert_eq!(rev_spiral_order(9), Coord::new(0, -3));
    assert_eq!(rev_spiral_order(10), Coord::new(0, -4));
}

#[test]
fn digit_tables_agree() {
    for d in 0..9usize {
        let c = rev_spiral(d).unwrap();
        assert!(c.x.abs() <= 1 && c.y.abs() <= 1);
        assert_eq!(spiral(&c), Some(d));
    }
    assert_eq!(rev_spiral(2), Some(Coord::new(1, -1)));
    assert_eq!(spiral(&Coord::new(-1, 1)), Some(6));
}

#[test]
fn digit_tables_reject_out_of_range() {
    assert_eq!(rev_spiral(9), None);
    assert_eq!(rev_spiral(usize::MAX), None);
    assert_eq!(spiral(&Coord::new(2, 0)), None);
    assert_eq!(spiral(&Coord::new(0, -2)), None);
}

#[test]
fn coord_arithmetic() {
    let a = Coord::new(1, 2);
    let b = Coord::new(3, -4);
    assert_eq!(a + b, Coord::new(4, -2));
    assert_eq!(b * 3, Coord::new(9, -12));
    let mut c = a;
    c += b;
    assert_eq!(c, Coord::new(4, -2));
    assert_eq!(Coord::new(7, -8).x, 7);
    assert_eq!(Coord::new(7, -8).y, -8);
}

#[test]
fn coord_arithmetic_wraps() {
    let a = Coord::new(i32::MAX, i32::MIN);
    assert_eq!(a + Coord::new(1, -1), Coord::new(i32::MIN, i32::MAX));
    let mut c = a;
    c += Coord::new(1, -1);
    assert_eq!(c, Coord::new(i32::MIN, i32::MAX));
    assert_eq!(Coord::new(i32::MAX, 1) * 2, Coord::new(-2, 2));
}

#[test]
fn square8_distance_is_manhattan() {
    assert_eq!(Square8::distance(&Coord::new(0, 0), &Coord::new(3, 4)), 7);
    assert_eq!(Square8::distance(&Coord::new(-2, 5), &Coord::new(1, -1)), 9);
}

#[test]
fn square8_distance_counts_diagonal_step_as_two() {
    let origin = Coord::zero();
    let diagonal = Coord::new(1, 1);
    assert!(Square8::iter_adjacent(&origin).contains(&diagonal));
    assert_eq!(Square8::distance(&origin, &diagonal), 2);
}

#[test]
fn square8_distance_symmetry() {
    let a = Coord::new(-7, 3);
    let b = Coord::new(5, 11);
    assert_eq!(Square8::distance(&a, &b), 20);
    assert_eq!(Square8::distance(&b, &a), 20);
    assert_eq!(Square8::distance(&a, &a), 0);
    quickcheck::quickcheck(distance_symmetric_prop as fn(i16, i16, i16, i16) -> bool);
}

#[test]
fn square8_distance_at_the_extremes() {
    let a = Coord::new(i32::MIN, 0);
    let b = Coord::new(-1, 0);
    assert_eq!(Square8::distance(&a, &b), i32::MAX);
}

#[test]
fn square8_index_is_spiral_order() {
    assert_eq!(Square8::index(&Coord::new(0, 0)), 0);
    assert_eq!(Square8::index(&Coord::new(0, -1)), 1);
    assert_eq!(Square8::index(&Coord::new(2, 0)), 34);
}

#[test]
fn square8_adjacent_of_origin() {
    let expected = vec![
        Coord::new(0, -1),
        Coord::new(1, -1),
        Coord::new(1, 0),
        Coord::new(1, 1),
        Coord::new(0, 1),
        Coord::new(-1, 1),
        Coord::new(-1, 0),
        Coord::new(-1, -1),
    ];
    assert_eq!(Square8::iter_adjacent(&Coord::zero()), expected);
    assert_eq!(Square8::iter_adjacent(&Coord::zero()), expected);
}

#[test]
fn square8_adjacent_are_eight_distinct_others() {
    let corners = [
        Coord::new(5, -9),
        Coord::new(i32::MAX, i32::MAX),
        Coord::new(i32::MIN, i32::MAX),
    ];
    for c in corners.iter() {
        let n = Square8::iter_adjacent(c);
        assert_eq!(n.len(), 8);
        assert!(!n.contains(c));
        for j in 0..8 {
            for k in 0..8 {
                assert_eq!(n[j] == n[k], j == k);
            }
        }
    }
}

#[test]
fn square8_adjacent_wraps_at_the_edge() {
    let n = Square8::iter_adjacent(&Coord::new(i32::MAX, 0));
    assert_eq!(n[2], Coord::new(i32::MIN, 0));
}

#[test]
fn square8_adjacency_is_symmetric() {
    let a = Coord::new(3, -2);
    for b in Square8::iter_adjacent(&a) {
        assert!(Square8::iter_adjacent(&b).contains(&a));
    }
    let far = Coord::new(5, -2);
    assert!(!Square8::iter_adjacent(&a).contains(&far));
    assert!(!Square8::iter_adjacent(&far).contains(&a));
    let edge = Coord::new(i32::MIN, i32::MIN);
    for b in Square8::iter_adjacent(&edge) {
        assert!(Square8::iter_adjacent(&b).contains(&edge));
    }
}
