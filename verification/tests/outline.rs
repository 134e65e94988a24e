use canvas_geometry::arith::{div_floor, scale_up};
use canvas_geometry::minkowski::{edges_from_lowest, first_lowest_index, minkowski_sum, rotated_from};
use canvas_geometry::outline::EdgeVectors;
use canvas_geometry::vec2::Vec2;

fn v(x: i64, y: i64) -> Vec2 {
    Vec2::new(x, y)
}

fn outline(edges: &[(i64, i64)]) -> EdgeVectors {
    EdgeVectors(edges.iter().map(|&(x, y)| v(x, y)).collect())
}

fn total(edges: &EdgeVectors) -> (i64, i64) {
    edges.0.iter().fold((0, 0), |sum, e| (sum.0 + e.x, sum.1 + e.y))
}

#[test]
fn div_floor_rounds_down() {
    assert_eq!(div_floor(7, 2), 3);
    assert_eq!(div_floor(-7, 2), -4);
    assert_eq!(div_floor(-8, 2), -4);
    assert_eq!(div_floor(0, 5), 0);
    assert_eq!(div_floor(-1, 5), -1);
    assert_eq!(div_floor(i128::MAX, 1), i128::MAX);
}

#[test]
fn scale_up_rounds_away_from_zero() {
    // 10 * 3 / 5 and 10 * 4 / 5 are whole.
    assert_eq!(scale_up(10, 3, 25), 6);
    assert_eq!(scale_up(10, -4, 25), 8);
    // 4 / sqrt(2) = 2.83 goes up to 3.
    assert_eq!(scale_up(4, 1, 2), 3);
    // 1 * 1 / sqrt(10001) is more than nothing.
    assert_eq!(scale_up(1, 1, 10001), 1);
    assert_eq!(scale_up(0, 7, 49), 0);
    assert_eq!(scale_up(5, 0, 49), 0);
    assert_eq!(scale_up(5, 0, 0), 0);
    assert_eq!(scale_up(0x8000_0000, 0x8000_0000, 0x4000_0000_0000_0000), 0x8000_0000);
}

#[test]
fn scaled_to_keeps_the_direction() {
    assert_eq!(v(3, 4).scaled_to(10), v(6, 8));
    assert_eq!(v(3, -4).scaled_to(10), v(6, -8));
    assert_eq!(v(3, 4).scaled_to(-10), v(-6, -8));
    assert_eq!(v(1, 1).scaled_to(4), v(3, 3));
    assert_eq!(v(0, -7).scaled_to(2), v(0, -2));
    assert_eq!(v(0, 0).scaled_to(5), v(0, 0));
}

#[test]
fn vector_products() {
    assert_eq!(v(4, 0).cross(&v(0, 3)), 12);
    assert_eq!(v(0, 3).cross(&v(4, 0)), -12);
    assert_eq!(v(2, 3).dot(&v(-5, 7)), 11);
    assert_eq!(v(1, 2).dist2(&v(4, 6)), 25);
    assert_eq!(v(2, 5).outward(), v(5, -2));
    assert_eq!(v(2, 5).turned_left(), v(-5, 2));
    assert!(v(9, 1).is_below(&v(0, 2)));
    assert!(v(1, 2).is_below(&v(3, 2)));
    assert!(!v(3, 2).is_below(&v(3, 2)));
}

#[test]
fn rectangle_without_rotation() {
    let rect = EdgeVectors::with_rect_size_rotation(v(4, 3), v(1, 0), None);
    assert_eq!(rect.0, vec![v(4, 0), v(0, 3), v(-4, 0), v(0, -3)]);
}

#[test]
fn rectangle_turned_by_a_quarter() {
    let rect = EdgeVectors::with_rect_size_rotation(v(4, 3), v(0, 5), None);
    assert_eq!(rect.0, vec![v(0, 4), v(-3, 0), v(0, -4), v(3, 0)]);
}

#[test]
fn rectangle_turned_by_half_a_quarter_is_rounded_outwards() {
    let rect = EdgeVectors::with_rect_size_rotation(v(4, 4), v(1, 1), None);
    assert_eq!(rect.0, vec![v(3, 3), v(-3, 3), v(-3, -3), v(3, -3)]);
    assert_eq!(total(&rect), (0, 0));
}

#[test]
fn rectangle_with_split_sides() {
    let rect = EdgeVectors::with_rect_size_rotation(v(4, 2), v(1, 0), Some(2));
    assert_eq!(
        rect.0,
        vec![v(2, 0), v(2, 0), v(0, 1), v(0, 1), v(-2, 0), v(-2, 0), v(0, -1), v(0, -1)]
    );
    let whole = EdgeVectors::with_rect_size_rotation(v(4, 2), v(1, 0), Some(1));
    assert_eq!(whole.0, vec![v(4, 0), v(0, 2), v(-4, 0), v(0, -2)]);
}

#[test]
fn rectangle_of_no_size_is_degenerate() {
    let rect = EdgeVectors::with_rect_size_rotation(v(0, 3), v(1, 0), None);
    assert_eq!(rect.0, vec![v(0, 0), v(0, 3), v(0, 0), v(0, -3)]);
}

#[test]
fn from_vertices_joins_the_loop() {
    let edges = EdgeVectors::from_vertices(&[v(0, 0), v(4, 0), v(4, 4), v(0, 4)]);
    assert_eq!(edges.0, vec![v(4, 0), v(0, 4), v(-4, 0), v(0, -4)]);
    assert_eq!(EdgeVectors::from_vertices(&[]).len(), 0);
    assert_eq!(EdgeVectors::from_vertices(&[v(7, 7)]).0, vec![v(0, 0)]);
}

#[test]
fn local_vertices_walk_from_the_origin() {
    let edges = outline(&[(4, 0), (0, 3), (-4, 0), (0, -3)]);
    assert_eq!(edges.local_vertices(), vec![v(4, 0), v(4, 3), v(0, 3), v(0, 0)]);
    // The walk can be made again and again.
    assert_eq!(edges.local_vertices(), edges.local_vertices());
    // The edges between the vertices of the walk are the edges, from the second on.
    let again = EdgeVectors::from_vertices(&edges.local_vertices());
    assert_eq!(again.0, vec![v(0, 3), v(-4, 0), v(0, -3), v(4, 0)]);
}

#[test]
fn divide_splits_into_parts_that_add_up() {
    let edges = outline(&[(3, 1), (-3, 5), (0, -6)]);
    let halves = edges.divide(2);
    assert_eq!(halves.0, vec![v(1, 0), v(2, 1), v(-2, 2), v(-1, 3), v(0, -3), v(0, -3)]);
    let quarters = edges.divide(4);
    assert_eq!(quarters.len(), 12);
    for (i, e) in edges.0.iter().enumerate() {
        let sum = quarters.0[4 * i..4 * i + 4]
            .iter()
            .fold((0, 0), |s, p| (s.0 + p.x, s.1 + p.y));
        assert_eq!(sum, (e.x, e.y));
    }
    assert_eq!(total(&quarters), (0, 0));
}

#[test]
fn divide_by_one_and_by_none() {
    let edges = outline(&[(3, 1), (-3, 5), (0, -6)]);
    assert_eq!(edges.divide(1).0, edges.0);
    assert_eq!(edges.divide(0).len(), 0);
    let far = outline(&[(i64::MIN, i64::MAX)]);
    assert_eq!(far.divide(1).0, far.0);
    assert_eq!(total(&far.divide(3)), (i64::MIN, i64::MAX));
}

#[test]
fn first_lowest_takes_the_leftmost_and_the_first() {
    assert_eq!(first_lowest_index(&vec![v(4, 0), v(4, 3), v(0, 3), v(0, 0)]), 3);
    assert_eq!(first_lowest_index(&vec![v(1, 1), v(0, 1), v(0, 1), v(5, 2)]), 1);
    assert_eq!(first_lowest_index(&vec![v(1, 1)]), 0);
}

#[test]
fn edges_start_at_the_lowest_vertex() {
    let edges = outline(&[(0, 3), (-4, 0), (0, -3), (4, 0)]);
    assert_eq!(rotated_from(&edges, 2), vec![v(0, -3), v(4, 0), v(0, 3), v(-4, 0)]);
    assert_eq!(edges_from_lowest(&edges), vec![v(4, 0), v(0, 3), v(-4, 0), v(0, -3)]);
}

#[test]
fn sum_of_two_rectangles_fuses_parallel_edges() {
    let a = outline(&[(4, 0), (0, 3), (-4, 0), (0, -3)]);
    let b = outline(&[(0, 1), (-2, 0), (0, -1), (2, 0)]);
    let sum = minkowski_sum(&a, &b);
    assert_eq!(sum.0, vec![v(6, 0), v(0, 4), v(-6, 0), v(0, -4)]);
}

#[test]
fn sum_without_parallel_edges_has_every_edge() {
    let rect = outline(&[(4, 0), (0, 3), (-4, 0), (0, -3)]);
    let diamond = outline(&[(1, 1), (-1, 1), (-1, -1), (1, -1)]);
    let sum = minkowski_sum(&rect, &diamond);
    assert_eq!(
        sum.0,
        vec![v(4, 0), v(1, 1), v(0, 3), v(-1, 1), v(-4, 0), v(-1, -1), v(0, -3), v(1, -1)]
    );
    assert_eq!(sum.len(), rect.len() + diamond.len());
    let other_way = minkowski_sum(&diamond, &rect);
    assert_eq!(other_way.len(), 8);
    assert_eq!(total(&other_way), (0, 0));
}

#[test]
fn sum_of_halves_is_half_the_sum_twice() {
    let rect = outline(&[(8, 0), (0, 6), (-8, 0), (0, -6)]);
    let diamond = outline(&[(2, 2), (-2, 2), (-2, -2), (2, -2)]);
    let split_first = minkowski_sum(&rect.divide(2), &diamond.divide(2));
    let split_last = minkowski_sum(&rect, &diamond).divide(2);
    assert_eq!(split_first.0, split_last.0);
    assert_eq!(split_first.len(), 2 * rect.len() + 2 * diamond.len());

    let small = outline(&[(4, 0), (0, 2), (-4, 0), (0, -2)]);
    let both = minkowski_sum(&rect.divide(2), &small.divide(2));
    assert_eq!(both.0, minkowski_sum(&rect, &small).divide(2).0);
    assert_eq!(both.0[0], v(6, 0));
    assert_eq!(both.0[1], v(6, 0));
}

#[test]
fn sum_goes_on_when_one_outline_is_used_up() {
    // When the last side of the square has gone into the sum, two edges of
    // the other outline are left, and both turn further than that side.
    let square = outline(&[(4, 0), (0, 4), (-4, 0), (0, -4)]);
    let kite = outline(&[(2, 1), (-5, 4), (1, -4), (2, -1)]);
    let sum = minkowski_sum(&square, &kite);
    assert_eq!(
        sum.0,
        vec![v(4, 0), v(2, 1), v(0, 4), v(-5, 4), v(-4, 0), v(0, -4), v(1, -4), v(2, -1)]
    );
    assert_eq!(minkowski_sum(&kite, &square).0, sum.0);
}

#[test]
fn divide_gives_even_parts_where_it_can() {
    let edges = outline(&[(6, -9), (-6, 3), (0, 6)]);
    let thirds = edges.divide(3);
    assert_eq!(thirds.len(), 9);
    for (i, e) in edges.0.iter().enumerate() {
        for k in 0..3 {
            assert_eq!(thirds.0[3 * i + k], v(e.x / 3, e.y / 3));
        }
    }
    // Where the parts cannot be even they are within one unit of even.
    let uneven = outline(&[(7, -2)]).divide(3);
    assert_eq!(uneven.0, vec![v(2, -1), v(2, -1), v(3, 0)]);
    for part in &uneven.0 {
        assert!((3 * part.x - 7).abs() < 3 && (3 * part.y + 2).abs() < 3);
    }
}

#[test]
fn sum_of_convex_outlines_keeps_turning_left() {
    let triangle = outline(&[(4, 1), (-3, 2), (-1, -3)]);
    let kite = outline(&[(2, 1), (-5, 4), (1, -4), (2, -1)]);
    let sum = minkowski_sum(&triangle, &kite);
    assert_eq!(sum.len(), 7);
    assert_eq!(total(&sum), (0, 0));
    for i in 0..sum.len() {
        let next = (i + 1) % sum.len();
        assert!(sum.0[i].cross(&sum.0[next]) > 0);
    }
    assert!(sum.0[0].y > 0 || (sum.0[0].y == 0 && sum.0[0].x > 0));
}
