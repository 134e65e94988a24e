use vstd::prelude::*;
use crate::offset::{
    lemma_offset_vertices, lemma_upright_keeps_centroid, lemma_upright_pushes, upright_edges,
};
use crate::outline::{prefix_sum, walk};
use crate::overlap::{keeps_apart, lies_before, precedes, splits};
use crate::placement::is_fill_result;
use crate::shape::Shape;
use crate::vec2::Point;

verus! {

/// The absolute value of a coordinate.
pub open spec fn magnitude(c: int) -> int {
    if c >= 0 {
        c
    } else {
        -c
    }
}

/// The corners of the upright rectangle between `low` and `high`, counter-
/// clockwise from the lower right one.
pub open spec fn corners(low: Point, high: Point) -> Seq<Point> {
    seq![
        Point { x: high.x, y: low.y },
        Point { x: high.x, y: high.y },
        Point { x: low.x, y: high.y },
        Point { x: low.x, y: low.y },
    ]
}

/// The corners of the upright rectangle between `low` and `high` grown by
/// `gap` on every side, counter-clockwise from the upper right one.
pub open spec fn grown_corners(low: Point, high: Point, gap: int) -> Seq<Point> {
    seq![
        Point { x: high.x + gap, y: high.y + gap },
        Point { x: low.x - gap, y: high.y + gap },
        Point { x: low.x - gap, y: low.y - gap },
        Point { x: high.x + gap, y: low.y - gap },
    ]
}

/// A point of a rectangle lies further along an axis than the corner of the
/// grown rectangle that lies least far along it, by the gap taken along the
/// axis at least; and as much less far than the corner that lies furthest.
pub proof fn lemma_between_grown_corners(low: Point, high: Point, gap: int, axis: Point, at: Point)
    requires
        gap >= 0,
        low.x <= at.x <= high.x,
        low.y <= at.y <= high.y,
    ensures
        exists|k: int|
            0 <= k < 4 && (#[trigger] grown_corners(low, high, gap)[k]).dot(axis) + gap * (
            magnitude(axis.x) + magnitude(axis.y)) <= at.dot(axis),
        exists|k: int|
            0 <= k < 4 && (#[trigger] grown_corners(low, high, gap)[k]).dot(axis) - gap * (
            magnitude(axis.x) + magnitude(axis.y)) >= at.dot(axis),
{
    let grown = grown_corners(low, high, gap);
    let least_x = if axis.x >= 0 { low.x - gap } else { high.x + gap };
    let least_y = if axis.y >= 0 { low.y - gap } else { high.y + gap };
    let most_x = if axis.x >= 0 { high.x + gap } else { low.x - gap };
    let most_y = if axis.y >= 0 { high.y + gap } else { low.y - gap };
    assert(least_x * axis.x + gap * magnitude(axis.x) <= at.x * axis.x) by (nonlinear_arith)
        requires
            gap >= 0,
            low.x <= at.x <= high.x,
            least_x == (if axis.x >= 0 { low.x - gap } else { high.x + gap }),
            magnitude(axis.x) == (if axis.x >= 0 { axis.x } else { -axis.x }),
    ;
    assert(least_y * axis.y + gap * magnitude(axis.y) <= at.y * axis.y) by (nonlinear_arith)
        requires
            gap >= 0,
            low.y <= at.y <= high.y,
            least_y == (if axis.y >= 0 { low.y - gap } else { high.y + gap }),
            magnitude(axis.y) == (if axis.y >= 0 { axis.y } else { -axis.y }),
    ;
    assert(most_x * axis.x - gap * magnitude(axis.x) >= at.x * axis.x) by (nonlinear_arith)
        requires
            gap >= 0,
            low.x <= at.x <= high.x,
            most_x == (if axis.x >= 0 { high.x + gap } else { low.x - gap }),
            magnitude(axis.x) == (if axis.x >= 0 { axis.x } else { -axis.x }),
    ;
    assert(most_y * axis.y - gap * magnitude(axis.y) >= at.y * axis.y) by (nonlinear_arith)
        requires
            gap >= 0,
            low.y <= at.y <= high.y,
            most_y == (if axis.y >= 0 { high.y + gap } else { low.y - gap }),
            magnitude(axis.y) == (if axis.y >= 0 { axis.y } else { -axis.y }),
    ;
    assert(gap * (magnitude(axis.x) + magnitude(axis.y)) == gap * magnitude(axis.x) + gap
        * magnitude(axis.y)) by (nonlinear_arith);
    let least = Point { x: least_x, y: least_y };
    let most = Point { x: most_x, y: most_y };
    let k_least: int = if axis.x >= 0 {
        if axis.y >= 0 { 2 } else { 1 }
    } else {
        if axis.y >= 0 { 3 } else { 0 }
    };
    let k_most: int = if axis.x >= 0 {
        if axis.y >= 0 { 0 } else { 3 }
    } else {
        if axis.y >= 0 { 1 } else { 2 }
    };
    assert(grown[k_least] == least);
    assert(grown[k_most] == most);
}

/// Whatever lies side by side with a grown rectangle along an axis lies
/// side by side with the rectangle itself, and is separated from it where
/// the rectangle was grown at all.
pub proof fn lemma_apart_from_grown(
    axis: Point,
    a: Seq<Point>,
    low: Point,
    high: Point,
    gap: int,
)
    requires
        gap >= 0,
        low.x <= high.x,
        low.y <= high.y,
        keeps_apart(axis, a, grown_corners(low, high, gap)),
    ensures
        keeps_apart(axis, a, corners(low, high)),
        gap > 0 ==> splits(axis, a, corners(low, high)),
{
    let inner = corners(low, high);
    let grown = grown_corners(low, high, gap);
    let room = gap * (magnitude(axis.x) + magnitude(axis.y));
    assert(room >= 0 && (gap > 0 ==> room > 0)) by (nonlinear_arith)
        requires
            room == gap * (magnitude(axis.x) + magnitude(axis.y)),
            gap >= 0,
            magnitude(axis.x) + magnitude(axis.y) > 0,
    ;
    if precedes(axis, a, grown) {
        assert forall|i: int, j: int| 0 <= i < a.len() && 0 <= j < inner.len() implies (
        #[trigger] a[i]).dot(axis) + room <= (#[trigger] inner[j]).dot(axis) by {
            lemma_between_grown_corners(low, high, gap, axis, inner[j]);
            let k = choose|k: int|
                0 <= k < 4 && (#[trigger] grown[k]).dot(axis) + room <= inner[j].dot(axis);
            assert(a[i].dot(axis) <= grown[k].dot(axis));
        }
        assert(precedes(axis, a, inner));
        if gap > 0 {
            assert(lies_before(axis, a, inner));
        }
    } else {
        assert(precedes(axis, grown, a));
        assert forall|i: int, j: int| 0 <= i < inner.len() && 0 <= j < a.len() implies (
        #[trigger] inner[i]).dot(axis) + room <= (#[trigger] a[j]).dot(axis) by {
            lemma_between_grown_corners(low, high, gap, axis, inner[i]);
            let k = choose|k: int|
                0 <= k < 4 && (#[trigger] grown[k]).dot(axis) - room >= inner[i].dot(axis);
            assert(grown[k].dot(axis) <= a[j].dot(axis));
        }
        assert(precedes(axis, inner, a));
        if gap > 0 {
            assert(lies_before(axis, inner, a));
        }
    }
}

/// The lower left corner of a shape with the outline of an upright
/// rectangle: its last vertex.
pub open spec fn lower_left(shape: Shape) -> Point {
    shape.vertices()[3]
}

/// The vertices of an upright rectangle are the corners of the rectangle
/// between its lower left corner and the corner across.
pub proof fn lemma_upright_vertices(shape: Shape, size: Point)
    requires
        shape.edges == upright_edges(size),
    ensures
        shape.vertices() == corners(lower_left(shape), lower_left(shape).plus(size)),
{
    let local = walk(shape.edges);
    assert(local =~= seq![
        Point { x: size.x, y: 0 },
        Point { x: size.x, y: size.y },
        Point { x: 0, y: size.y },
        Point { x: 0, y: 0 },
    ]) by {
        reveal_with_fuel(prefix_sum, 5);
    }
    assert(shape.vertices() =~= corners(lower_left(shape), lower_left(shape).plus(size)));
}

/// A widened upright rectangle is the rectangle grown by the width on every
/// side: its vertices are the corners of the grown rectangle, and its edges
/// run along the sides of the rectangle, the first of them upwards.
pub proof fn lemma_upright_widened(shape: Shape, size: Point, gap: int)
    requires
        shape.edges == upright_edges(size),
        size.x > 0,
        size.y > 0,
        gap >= 0,
    ensures
        shape.offset(gap).vertices() == grown_corners(
            lower_left(shape),
            lower_left(shape).plus(size),
            gap,
        ),
        shape.offset(gap).edges == seq![
            Point { x: 0, y: size.y + 2 * gap },
            Point { x: -size.x - 2 * gap, y: 0 },
            Point { x: 0, y: -size.y - 2 * gap },
            Point { x: size.x + 2 * gap, y: 0 },
        ],
{
    let low = lower_left(shape);
    let high = low.plus(size);
    lemma_upright_vertices(shape, size);
    lemma_upright_pushes(shape, size, gap);
    lemma_upright_keeps_centroid(shape, size, gap);
    let pushed = shape.pushed_out(gap);
    assert(pushed =~= seq![
        Point { x: high.x + gap, y: low.y - gap },
        Point { x: high.x + gap, y: high.y + gap },
        Point { x: low.x - gap, y: high.y + gap },
        Point { x: low.x - gap, y: low.y - gap },
    ]);
    assert(1int % 4 == 1 && 2int % 4 == 2 && 3int % 4 == 3 && 4int % 4 == 0);
    lemma_offset_vertices(shape, gap, 0);
    lemma_offset_vertices(shape, gap, 1);
    lemma_offset_vertices(shape, gap, 2);
    lemma_offset_vertices(shape, gap, 3);
    assert(shape.offset(gap).vertices() =~= grown_corners(low, high, gap));
    assert(shape.offset(gap).edges =~= seq![
        Point { x: 0, y: size.y + 2 * gap },
        Point { x: -size.x - 2 * gap, y: 0 },
        Point { x: 0, y: -size.y - 2 * gap },
        Point { x: size.x + 2 * gap, y: 0 },
    ]);
}

/// A shape that keeps clear of a widened upright rectangle keeps clear of
/// the rectangle itself, and does not even touch it where the rectangle was
/// widened at all.
pub proof fn lemma_clear_of_widened_rectangle(trial: Shape, placed: Shape, size: Point, gap: int)
    requires
        placed.edges == upright_edges(size),
        size.x > 0,
        size.y > 0,
        gap >= 0,
        !trial.interiors_meet(placed.offset(gap)),
    ensures
        !trial.interiors_meet(placed),
        gap > 0 ==> !trial.overlaps(placed),
{
    let low = lower_left(placed);
    let high = low.plus(size);
    let wide = placed.offset(gap);
    let a = trial.vertices();
    lemma_upright_vertices(placed, size);
    lemma_upright_widened(placed, size, gap);
    if exists|k: int|
        0 <= k < trial.edges.len() && keeps_apart((#[trigger] trial.edges[k]).outward(), a, wide.vertices()) {
        let k = choose|k: int|
            0 <= k < trial.edges.len() && keeps_apart(
                (#[trigger] trial.edges[k]).outward(),
                a,
                wide.vertices(),
            );
        lemma_apart_from_grown(trial.edges[k].outward(), a, low, high, gap);
    } else {
        let k = choose|k: int|
            0 <= k < wide.edges.len() && keeps_apart(
                (#[trigger] wide.edges[k]).outward(),
                a,
                wide.vertices(),
            );
        let axis = wide.edges[k].outward();
        let next = (k + 1) % 4;
        assert(1int % 4 == 1 && 2int % 4 == 2 && 3int % 4 == 3 && 4int % 4 == 0);
        let other = placed.edges[next].outward();
        lemma_apart_from_grown(axis, a, low, high, gap);
        lemma_same_direction_apart(axis, other, a, placed.vertices());
        assert(keeps_apart(other, a, placed.vertices()));
    }
}

/// Where [`fill`](crate::placement::fill) has placed a shape among upright
/// rectangles, the shape keeps clear of the rectangles themselves, and for
/// a gap that is more than nothing it does not overlap any of them.
pub proof fn lemma_fill_clears_rectangles(
    placed: Seq<Shape>,
    sizes: Seq<Point>,
    shape: Shape,
    gap: int,
    div: Option<u32>,
    at: Shape,
)
    requires
        is_fill_result(placed, shape, gap, div, Ok(at)),
        gap >= 0,
        sizes.len() == placed.len(),
        forall|k: int|
            0 <= k < placed.len() ==> (#[trigger] placed[k]).edges == upright_edges(sizes[k])
                && sizes[k].x > 0 && sizes[k].y > 0,
    ensures
        forall|k: int| 0 <= k < placed.len() ==> !at.interiors_meet(#[trigger] placed[k]),
        gap > 0 ==> forall|k: int| 0 <= k < placed.len() ==> !at.overlaps(#[trigger] placed[k]),
{
    assert(at == (Shape { translation: at.translation, edges: shape.edges }));
    assert forall|k: int| 0 <= k < placed.len() implies !at.interiors_meet(#[trigger] placed[k])
        && (gap > 0 ==> !at.overlaps(placed[k])) by {
        assert(!at.interiors_meet(placed[k].offset(gap)));
        lemma_clear_of_widened_rectangle(at, placed[k], sizes[k], gap);
    }
}

/// Two axes that run along the same coordinate axis in the same direction
/// tell the same point sets apart.
pub proof fn lemma_same_direction_apart(axis: Point, other: Point, a: Seq<Point>, b: Seq<Point>)
    requires
        (axis.y == 0 && other.y == 0 && ((axis.x > 0 && other.x > 0) || (axis.x < 0 && other.x < 0)))
            || (axis.x == 0 && other.x == 0 && ((axis.y > 0 && other.y > 0) || (axis.y < 0
            && other.y < 0))),
    ensures
        keeps_apart(axis, a, b) ==> keeps_apart(other, a, b),
        splits(axis, a, b) ==> splits(other, a, b),
{
    if precedes(axis, a, b) {
        assert forall|i: int, j: int| 0 <= i < a.len() && 0 <= j < b.len() implies (
        #[trigger] a[i]).dot(other) <= (#[trigger] b[j]).dot(other) by {
            lemma_same_direction_order(axis, other, a[i], b[j]);
        }
    }
    if precedes(axis, b, a) {
        assert forall|i: int, j: int| 0 <= i < b.len() && 0 <= j < a.len() implies (
        #[trigger] b[i]).dot(other) <= (#[trigger] a[j]).dot(other) by {
            lemma_same_direction_order(axis, other, b[i], a[j]);
        }
    }
    if lies_before(axis, a, b) {
        assert forall|i: int, j: int| 0 <= i < a.len() && 0 <= j < b.len() implies (
        #[trigger] a[i]).dot(other) < (#[trigger] b[j]).dot(other) by {
            lemma_same_direction_order(axis, other, a[i], b[j]);
        }
    }
    if lies_before(axis, b, a) {
        assert forall|i: int, j: int| 0 <= i < b.len() && 0 <= j < a.len() implies (
        #[trigger] b[i]).dot(other) < (#[trigger] a[j]).dot(other) by {
            lemma_same_direction_order(axis, other, b[i], a[j]);
        }
    }
}

/// Two axes that run along the same coordinate axis in the same direction
/// order two points alike.
pub proof fn lemma_same_direction_order(axis: Point, other: Point, u: Point, v: Point)
    requires
        (axis.y == 0 && other.y == 0 && ((axis.x > 0 && other.x > 0) || (axis.x < 0 && other.x < 0)))
            || (axis.x == 0 && other.x == 0 && ((axis.y > 0 && other.y > 0) || (axis.y < 0
            && other.y < 0))),
    ensures
        (u.dot(axis) <= v.dot(axis)) == (u.dot(other) <= v.dot(other)),
        (u.dot(axis) < v.dot(axis)) == (u.dot(other) < v.dot(other)),
{
    if axis.y == 0 && other.y == 0 {
        lemma_scaled_order(u.x, v.x, axis.x, other.x);
        assert(u.dot(axis) == u.x * axis.x && v.dot(axis) == v.x * axis.x && u.dot(other) == u.x
            * other.x && v.dot(other) == v.x * other.x) by (nonlinear_arith)
            requires
                axis.y == 0,
                other.y == 0,
                u.dot(axis) == u.x * axis.x + u.y * axis.y,
                v.dot(axis) == v.x * axis.x + v.y * axis.y,
                u.dot(other) == u.x * other.x + u.y * other.y,
                v.dot(other) == v.x * other.x + v.y * other.y,
        ;
    } else {
        lemma_scaled_order(u.y, v.y, axis.y, other.y);
        assert(u.dot(axis) == u.y * axis.y && v.dot(axis) == v.y * axis.y && u.dot(other) == u.y
            * other.y && v.dot(other) == v.y * other.y) by (nonlinear_arith)
            requires
                axis.x == 0,
                other.x == 0,
                u.dot(axis) == u.x * axis.x + u.y * axis.y,
                v.dot(axis) == v.x * axis.x + v.y * axis.y,
                u.dot(other) == u.x * other.x + u.y * other.y,
                v.dot(other) == v.x * other.x + v.y * other.y,
        ;
    }
}

/// Two factors of one sign order the multiples of two numbers alike.
proof fn lemma_scaled_order(u: int, v: int, c: int, d: int)
    by (nonlinear_arith)
    requires
        (c > 0 && d > 0) || (c < 0 && d < 0),
    ensures
        (u * c <= v * c) == (u * d <= v * d),
        (u * c < v * c) == (u * d < v * d),
{
}

} // verus!
