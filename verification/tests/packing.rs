use canvas_geometry::minkowski::minkowski_sum;
use canvas_geometry::outline::EdgeVectors;
use canvas_geometry::placement::{
    clears_all, fill, is_placeable, no_fit_candidates, organize, widened_by, PackingError,
};
use canvas_geometry::overlap::{axis_keeps_apart, axis_splits, projection_range};
use canvas_geometry::shape::calculate_centroid;
use canvas_geometry::shape::ShapePosition;
use canvas_geometry::vec2::Vec2;

/// Grid units per unit of length.
const UNIT: f64 = 1000.0;

fn grid(x: f64) -> i64 {
    (x * UNIT).round() as i64
}

fn at(x: f64, y: f64) -> Vec2 {
    Vec2::new(grid(x), grid(y))
}

fn upright() -> Vec2 {
    Vec2::new(1, 0)
}

#[test]
fn test_is_overlapping() {
    let a = ShapePosition {
        translation: at(0.0, 0.0),
        edges: EdgeVectors::with_rect_size_rotation(at(4.0, 4.0), upright(), None),
    };

    let b = ShapePosition {
        translation: at(2.0, 2.0),
        edges: EdgeVectors::with_rect_size_rotation(at(4.0, 4.0), upright(), None),
    };

    let c = ShapePosition {
        translation: at(0.0, 5.5),
        edges: EdgeVectors::with_rect_size_rotation(at(4.0, 4.0), upright(), None),
    };

    assert!(a.is_overlapping(&b));
    assert!(!a.is_overlapping(&c));
    assert!(b.is_overlapping(&c));
}

#[test]
fn test_minkowski_sum() {
    let a = EdgeVectors::with_rect_size_rotation(at(4.0, 3.0), upright(), None);
    let b = EdgeVectors::with_rect_size_rotation(at(2.0, 1.0), upright(), None);

    let result = minkowski_sum(&a, &b);

    assert_eq!(result.len(), 4);
    assert_eq!(result.0[0], at(6.0, 0.0));
    assert_eq!(result.0[1], at(0.0, 4.0));
    assert_eq!(result.0[2], at(-6.0, 0.0));
    assert_eq!(result.0[3], at(0.0, -4.0));

    let a = EdgeVectors::with_rect_size_rotation(at(4.0, 3.0), upright(), None);
    let b = EdgeVectors::with_rect_size_rotation(at(2.0, 1.0), upright(), None);

    let result = minkowski_sum(&a, &b).divide(2);

    assert_eq!(result.len(), 8);
    assert_eq!(result.0[0], at(3.0, 0.0));
    assert_eq!(result.0[1], at(3.0, 0.0));
    assert_eq!(result.0[2], at(0.0, 2.0));
    assert_eq!(result.0[3], at(0.0, 2.0));
    assert_eq!(result.0[4], at(-3.0, 0.0));
    assert_eq!(result.0[5], at(-3.0, 0.0));
    assert_eq!(result.0[6], at(0.0, -2.0));
    assert_eq!(result.0[7], at(0.0, -2.0));
}

fn length(v: Vec2) -> f64 {
    ((v.x as f64).powi(2) + (v.y as f64).powi(2)).sqrt() / UNIT
}

#[test]
fn test_fill() {
    let mut placed_shapes = vec![ShapePosition {
        translation: at(0.0, 0.0),
        edges: EdgeVectors::with_rect_size_rotation(at(4.0, 4.0), upright(), None),
    }];

    let shape_to_place = ShapePosition {
        translation: at(25.0, 25.0),
        edges: EdgeVectors::with_rect_size_rotation(at(2.0, 2.0), upright(), None),
    };

    let result = fill(&placed_shapes, &shape_to_place, grid(0.1), Some(2)).unwrap();

    // Ensure the result is not overlapping with the placed shape
    for placed in &placed_shapes {
        assert!(!result.is_overlapping(placed));
    }

    let gap = 0.1;

    assert!(
        (length(result.translation) - 3.0 * std::f64::consts::SQRT_2 - gap) < 0.1,
        "{:?}",
        result.translation
    );

    // Since we initially placed the shape at (25, 25), the result should be close to that
    assert!(result.translation.x > 0 && result.translation.y > 0);

    placed_shapes.push(result.clone());

    let shape_to_place2 = ShapePosition {
        translation: at(0.0, 0.0),
        edges: EdgeVectors::with_rect_size_rotation(at(10.0, 10.0), upright(), None),
    };

    let result2 = fill(&placed_shapes, &shape_to_place2, grid(0.1), Some(2)).unwrap();

    for placed in &placed_shapes {
        assert!(!result2.is_overlapping(placed));
    }
}

#[test]
fn fill_places_at_the_nearest_corner() {
    let placed_shapes = vec![ShapePosition {
        translation: at(0.0, 0.0),
        edges: EdgeVectors::with_rect_size_rotation(at(4.0, 4.0), upright(), None),
    }];
    let shape_to_place = ShapePosition {
        translation: at(25.0, 25.0),
        edges: EdgeVectors::with_rect_size_rotation(at(2.0, 2.0), upright(), None),
    };
    let result = fill(&placed_shapes, &shape_to_place, grid(0.1), Some(2)).unwrap();
    assert_eq!(result.translation, at(3.1, 3.1));
    assert_eq!(result.edges.0, shape_to_place.edges.0);
    println!("{:?}", result);
}

fn square(center: (f64, f64), side: f64) -> ShapePosition {
    ShapePosition {
        translation: at(center.0, center.1),
        edges: EdgeVectors::with_rect_size_rotation(at(side, side), upright(), None),
    }
}

#[test]
fn squares_overlap_ground_truth() {
    let a = square((0.0, 0.0), 4.0);
    assert!(a.is_overlapping(&square((2.0, 2.0), 4.0)));
    assert!(!a.is_overlapping(&square((0.0, 5.5), 4.0)));
}

#[test]
fn overlap_is_symmetric() {
    let shapes = vec![
        square((0.0, 0.0), 4.0),
        square((2.0, 2.0), 4.0),
        square((0.0, 5.5), 4.0),
        square((4.0, 0.0), 4.0),
        ShapePosition {
            translation: at(3.0, 3.0),
            edges: EdgeVectors(vec![at(1.0, 1.0), at(-1.0, 1.0), at(-1.0, -1.0), at(1.0, -1.0)]),
        },
    ];
    for a in &shapes {
        for b in &shapes {
            assert_eq!(a.is_overlapping(b), b.is_overlapping(a));
        }
    }
}

#[test]
fn shapes_that_touch_overlap() {
    let a = square((0.0, 0.0), 4.0);
    // A common side.
    let beside = square((4.0, 0.0), 4.0);
    assert!(a.is_overlapping(&beside));
    assert!(beside.is_overlapping(&a));
    // A common corner.
    let across = square((4.0, 4.0), 4.0);
    assert!(a.is_overlapping(&across));
    // One grid unit of room.
    let mut apart = square((4.0, 0.0), 4.0);
    apart.translation.x += 1;
    assert!(!a.is_overlapping(&apart));
    // One grid unit into the other.
    let mut near = square((4.0, 0.0), 4.0);
    near.translation.x -= 1;
    assert!(a.is_overlapping(&near));
    assert!(a.is_overlapping(&a));
}

#[test]
fn shapes_that_touch_share_no_more_than_boundary() {
    let a = square((0.0, 0.0), 4.0);
    assert!(!a.interiors_meet(&square((4.0, 0.0), 4.0)));
    assert!(!a.interiors_meet(&square((4.0, 4.0), 4.0)));
    let mut near = square((4.0, 0.0), 4.0);
    near.translation.x -= 1;
    assert!(a.interiors_meet(&near));
    assert!(near.interiors_meet(&a));
    assert!(a.interiors_meet(&a));
    assert!(!a.interiors_meet(&square((0.0, 5.5), 4.0)));
}

#[test]
fn a_diamond_beside_the_corner_of_a_square() {
    // The bounding boxes overlap; the normal of a side of the diamond tells them apart.
    let a = square((0.0, 0.0), 4.0);
    let diamond = ShapePosition {
        translation: at(3.6, 3.6),
        edges: EdgeVectors(vec![at(2.0, 2.0), at(-2.0, 2.0), at(-2.0, -2.0), at(2.0, -2.0)]),
    };
    assert!(!a.is_overlapping(&diamond));
    let nearer = ShapePosition { translation: at(2.9, 2.9), edges: diamond.edges.clone() };
    assert!(a.is_overlapping(&nearer));
}

#[test]
fn point_in_polygon_ground_truth() {
    let edges = EdgeVectors::from_vertices(&[at(4.0, 0.0), at(4.0, 4.0), at(0.0, 4.0), at(0.0, 0.0)]);
    let shape = ShapePosition { translation: at(2.0, 2.0), edges };
    assert_eq!(shape.vertices(), vec![at(4.0, 4.0), at(0.0, 4.0), at(0.0, 0.0), at(4.0, 0.0)]);
    assert!(shape.contains(&at(2.0, 2.0)));
    assert!(!shape.contains(&at(5.0, 5.0)));
    assert!(!shape.contains(&at(2.0, 5.0)));
    assert!(!shape.contains(&at(-2.0, 2.0)));
    // The boundary belongs to the polygon.
    assert!(shape.contains(&at(4.0, 2.0)));
    assert!(shape.contains(&at(0.0, 0.0)));
}

#[test]
fn vertices_are_centred_on_the_translation() {
    let shape = ShapePosition {
        translation: at(10.0, -3.0),
        edges: EdgeVectors::with_rect_size_rotation(at(4.0, 2.0), upright(), None),
    };
    let vertices = shape.vertices();
    assert_eq!(vertices, vec![at(12.0, -4.0), at(12.0, -2.0), at(8.0, -2.0), at(8.0, -4.0)]);
    assert_eq!(calculate_centroid(&vertices), shape.translation);
    assert_eq!(ShapePosition { translation: at(1.0, 1.0), edges: EdgeVectors(vec![]) }.vertices(), vec![]);
}

#[test]
fn centroid_rounds_down() {
    assert_eq!(calculate_centroid(&[Vec2::new(0, 0), Vec2::new(1, 0), Vec2::new(0, 1)]), Vec2::new(0, 0));
    assert_eq!(calculate_centroid(&[Vec2::new(0, 0), Vec2::new(-1, 0), Vec2::new(0, -2)]), Vec2::new(-1, -1));
    assert_eq!(calculate_centroid(&[Vec2::new(5, -7)]), Vec2::new(5, -7));
    // The centroid of the vertices is the translation also where the local centroid is rounded.
    let lopsided = ShapePosition {
        translation: Vec2::new(7, 7),
        edges: EdgeVectors(vec![Vec2::new(5, 0), Vec2::new(-4, 3), Vec2::new(-1, -3)]),
    };
    assert_eq!(calculate_centroid(&lopsided.vertices()), Vec2::new(7, 7));
}

#[test]
fn offset_pushes_the_corners_of_a_rectangle_out() {
    let mut shape = square((1.0, 1.0), 4.0);
    let before = shape.vertices();
    assert_eq!(before, vec![at(3.0, -1.0), at(3.0, 3.0), at(-1.0, 3.0), at(-1.0, -1.0)]);
    shape.offset(grid(0.5));
    assert_eq!(shape.translation, at(1.0, 1.0));
    assert_eq!(shape.edges.0, vec![at(0.0, 5.0), at(-5.0, 0.0), at(0.0, -5.0), at(5.0, 0.0)]);
    assert_eq!(shape.vertices(), vec![at(3.5, 3.5), at(-1.5, 3.5), at(-1.5, -1.5), at(3.5, -1.5)]);
}

#[test]
fn offset_pushes_a_vertex_between_parallel_edges_twice() {
    let mut shape = ShapePosition {
        translation: at(0.0, 0.0),
        edges: EdgeVectors::with_rect_size_rotation(at(4.0, 4.0), upright(), Some(2)),
    };
    shape.offset(grid(0.1));
    let vertices = shape.vertices();
    assert_eq!(vertices.len(), 8);
    assert!(vertices.contains(&at(2.1, 2.1)));
    assert!(vertices.contains(&at(0.0, 2.2)));
    assert!(vertices.contains(&at(-2.2, 0.0)));
}

#[test]
fn offset_with_a_negative_width_pulls_in() {
    let mut shape = square((0.0, 0.0), 4.0);
    shape.offset(grid(-0.5));
    assert_eq!(shape.vertices(), vec![at(1.5, 1.5), at(-1.5, 1.5), at(-1.5, -1.5), at(1.5, -1.5)]);
}

#[test]
fn fill_keeps_the_gap_and_is_nearest() {
    let placed = vec![square((0.0, 0.0), 4.0), square((6.0, 0.0), 2.0)];
    let shape = square((5.0, 5.0), 2.0);
    let gap = grid(0.25);
    let result = fill(&placed, &shape, gap, Some(2)).unwrap();
    let widened = widened_by(&placed, gap);
    assert!(clears_all(&result, &widened));
    let reached = result.translation.dist2(&shape.translation);
    let mut pool = 0;
    for obstacle in &placed {
        for candidate in no_fit_candidates(obstacle, &shape, gap, 2) {
            pool += 1;
            let trial = ShapePosition { translation: candidate, edges: shape.edges.clone() };
            if clears_all(&trial, &widened) {
                assert!(reached <= candidate.dist2(&shape.translation));
            }
        }
    }
    assert_eq!(pool, 16);
    assert_eq!(result.translation, at(3.25, 3.25));
}

#[test]
fn fill_finds_no_place_without_placed_shapes() {
    let shape = square((5.0, 5.0), 2.0);
    assert_eq!(fill(&[], &shape, grid(0.1), Some(2)).unwrap_err(), PackingError::NoValidPlacement);
    assert_eq!(fill(&[], &shape, grid(0.1), None).unwrap_err(), PackingError::NoValidPlacement);
}

#[test]
fn fill_refuses_degenerate_requests() {
    let placed = vec![square((0.0, 0.0), 4.0)];
    let shape = square((5.0, 5.0), 2.0);
    let refused = |placed: &[ShapePosition], shape: &ShapePosition, gap: i64, div: Option<u32>| {
        assert_eq!(fill(placed, shape, gap, div).unwrap_err(), PackingError::Degenerate);
    };
    // No parts.
    refused(&placed, &shape, grid(0.1), Some(0));
    // Too many parts.
    refused(&placed, &shape, grid(0.1), Some(513));
    assert!(fill(&placed, &shape, grid(0.1), Some(512)).is_ok());
    // The gap is out of range.
    refused(&placed, &shape, 0x4000_0001, None);
    refused(&placed, &shape, -0x4000_0001, None);
    assert!(fill(&placed, &shape, 0x4000_0000, None).is_ok());
    // No outline.
    let empty = ShapePosition { translation: at(0.0, 0.0), edges: EdgeVectors(vec![]) };
    refused(&placed, &empty, grid(0.1), None);
    refused(&[empty.clone()], &shape, grid(0.1), None);
    // An outline that is not closed.
    let open = ShapePosition {
        translation: at(0.0, 0.0),
        edges: EdgeVectors(vec![at(1.0, 0.0), at(0.0, 1.0), at(-1.0, 0.0)]),
    };
    refused(&placed, &open, grid(0.1), None);
    // An edge of no length.
    let stuck = ShapePosition {
        translation: at(0.0, 0.0),
        edges: EdgeVectors(vec![at(1.0, 0.0), at(0.0, 0.0), at(0.0, 1.0), at(-1.0, -1.0)]),
    };
    refused(&placed, &stuck, grid(0.1), None);
    refused(&[square((0.0, 0.0), 4.0), stuck], &shape, grid(0.1), None);
    // Too far from the origin.
    let mut far = square((0.0, 0.0), 4.0);
    far.translation.x = 0x4000_0001;
    refused(&placed, &far, grid(0.1), None);
    let long = ShapePosition {
        translation: at(0.0, 0.0),
        edges: EdgeVectors(vec![Vec2::new(0x4000_0001, 0), Vec2::new(-0x4000_0001, 1), Vec2::new(0, -1)]),
    };
    refused(&placed, &long, grid(0.1), None);
}

#[test]
fn fill_without_a_gap_touches_the_placed_shape() {
    let placed = vec![square((0.0, 0.0), 4.0)];
    let shape = square((0.0, 9.0), 2.0);
    let result = fill(&placed, &shape, 0, None).unwrap();
    // Without parts the candidates are the corners of the no-fit outline.
    assert_eq!(result.translation, at(3.0, 3.0));
    // Without a gap the shape touches the placed one.
    assert!(result.is_overlapping(&placed[0]));
    assert!(!result.interiors_meet(&placed[0]));
    // With the sides split the middle of the upper side is nearest.
    let result = fill(&placed, &shape, 0, Some(2)).unwrap();
    assert_eq!(result.translation, at(0.0, 3.0));
}

#[test]
fn organize_places_each_shape_among_those_before_it() {
    let shapes = vec![square((0.5, 0.0), 2.0), square((0.0, 0.5), 2.0), square((0.0, 0.0), 4.0)];
    let gap = grid(0.5);
    let arranged: Vec<ShapePosition> =
        organize(&shapes, gap, Some(2)).into_iter().map(|outcome| outcome.unwrap()).collect();
    assert_eq!(arranged.len(), 3);
    // The last shape stays, the outlines are kept.
    assert_eq!(arranged[2].translation, shapes[2].translation);
    for (before, after) in shapes.iter().zip(&arranged) {
        assert_eq!(before.edges.0, after.edges.0);
    }
    for (i, a) in arranged.iter().enumerate() {
        for b in &arranged[i + 1..] {
            assert!(!a.is_overlapping(b));
        }
    }
    // The first shape was placed against the last alone.
    let first = fill(&shapes[2..], &shapes[0], gap, Some(2)).unwrap();
    assert_eq!(arranged[0].translation, first.translation);
    let second = fill(&[shapes[2].clone(), first], &shapes[1], gap, Some(2)).unwrap();
    assert_eq!(arranged[1].translation, second.translation);
}

#[test]
fn organize_leaves_a_shape_that_cannot_be_placed() {
    let open = ShapePosition {
        translation: at(1.0, 1.0),
        edges: EdgeVectors(vec![at(1.0, 0.0), at(0.0, 1.0)]),
    };
    let shapes = vec![open.clone(), square((0.0, 0.0), 4.0)];
    let arranged = organize(&shapes, grid(0.5), None);
    assert_eq!(arranged[0].as_ref().unwrap_err(), &PackingError::Degenerate);
    assert_eq!(arranged[1].as_ref().unwrap().translation, at(0.0, 0.0));
    assert_eq!(organize(&[], grid(0.5), None).len(), 0);
    let alone = organize(&shapes[1..], grid(0.5), None);
    assert_eq!(alone[0].as_ref().unwrap().translation, at(0.0, 0.0));
    // A shape that stays is in the way of those that follow.
    let blocked = vec![open.clone(), square((0.0, 0.0), 2.0), square((0.0, 0.0), 4.0)];
    let arranged = organize(&blocked, grid(0.5), None);
    assert!(arranged[0].is_err());
    assert_eq!(arranged[1].as_ref().unwrap_err(), &PackingError::Degenerate);
    assert!(arranged[2].is_ok());
}

#[test]
fn limits_are_told_before_they_are_met() {
    let shape = square((0.0, 0.0), 4.0);
    assert!(shape.is_fitting());
    assert!(shape.can_be_offset());
    assert!(is_placeable(&shape));

    let mut far = square((0.0, 0.0), 4.0);
    far.translation.x = 0x800_0000_0001;
    assert!(far.is_fitting());
    assert!(!far.can_be_offset());
    assert!(!is_placeable(&far));
    far.translation.x = 0x1000_0000_0000_0001;
    assert!(!far.is_fitting());

    let empty = ShapePosition { translation: at(0.0, 0.0), edges: EdgeVectors(vec![]) };
    assert!(empty.is_fitting());
    assert!(!empty.can_be_offset());
    assert!(!is_placeable(&empty));

    let long = ShapePosition {
        translation: at(0.0, 0.0),
        edges: EdgeVectors(vec![Vec2::new(0x8000_0001, 0), Vec2::new(-0x8000_0001, 0)]),
    };
    assert!(long.is_fitting());
    assert!(!long.can_be_offset());
    assert!(long.edges.is_within(0x8000_0001));
    assert!(!long.edges.is_within(0x8000_0000));
}

#[test]
fn vertices_are_told_apart_along_an_axis() {
    let a = square((0.0, 0.0), 4.0).vertices();
    let b = square((5.0, 1.0), 4.0).vertices();
    assert_eq!(projection_range(&a, &Vec2::new(1, 0)), (grid(-2.0) as i128, grid(2.0) as i128));
    assert_eq!(projection_range(&b, &Vec2::new(0, -2)), (-2 * grid(3.0) as i128, 2 * grid(1.0) as i128));
    assert!(axis_splits(&Vec2::new(1, 0), &a, &b));
    assert!(axis_splits(&Vec2::new(-3, 0), &a, &b));
    assert!(!axis_splits(&Vec2::new(0, 1), &a, &b));
    assert!(axis_keeps_apart(&Vec2::new(1, 0), &a, &b));
    assert!(!axis_keeps_apart(&Vec2::new(0, 1), &a, &b));
    // Extents that meet in one value: side by side, not separated.
    let c = square((4.0, 0.0), 4.0).vertices();
    assert!(!axis_splits(&Vec2::new(1, 0), &a, &c));
    assert!(axis_keeps_apart(&Vec2::new(1, 0), &a, &c));
    // No direction, no axis.
    assert!(!axis_splits(&Vec2::new(0, 0), &a, &b));
    assert!(!axis_keeps_apart(&Vec2::new(0, 0), &a, &b));
    // Nothing lies on both sides of anything.
    assert!(axis_splits(&Vec2::new(0, 1), &a, &vec![]));
}
