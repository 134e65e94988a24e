use vstd::prelude::*;
use vstd::arithmetic::div_mod::{lemma_mod_bound, lemma_mod_self_0, lemma_small_mod};
use crate::arith::{lemma_scaled_up_at_most, lemma_scaled_up_on_axis, SCALE_LIMIT};
use crate::minkowski::{lemma_rotated_sum, rotated};
use crate::outline::{
    all_within, edges_between, is_closed, lemma_edges_between_closed, lemma_edges_between_prefix,
    lemma_prefix_sum_within, path_sum, points_of, prefix_sum, rect_edges, walk, EdgeVectors,
};
use crate::shape::{
    calculate_centroid, centroid, lemma_centroid_moved, lemma_mean_within, lemma_prefix_sum_added,
    lemma_vertices_centered, lemma_vertices_reach, moved, Shape, ShapePosition, SHAPE_EDGE_LIMIT,
    SHAPE_MAX_EDGES,
};
use crate::vec2::{Point, Vec2, COORD_LIMIT};

verus! {

/// Largest absolute coordinate of the translation of a shape that
/// [`ShapePosition::offset`] takes.
pub const OFFSET_TRANSLATION_LIMIT: i64 = 0x800_0000_0000;

impl Shape {
    /// How far vertex `i` moves when the outline is widened by `width`: by
    /// `width` along the outward normal of each of the two edges that meet
    /// there.
    pub open spec fn push(self, i: int, width: int) -> Point {
        let next = (i + 1) % (self.edges.len() as int);
        self.edges[i].outward().scaled_to(width).plus(
            self.edges[next].outward().scaled_to(width),
        )
    }

    /// The vertices after widening the outline by `width`.
    pub open spec fn pushed_out(self, width: int) -> Seq<Point> {
        let vertices = self.vertices();
        Seq::new(vertices.len(), |i: int| vertices[i].plus(self.push(i, width)))
    }

    /// The shape widened by `width`: its edges join the pushed vertices, and
    /// its translation moves against the shift of the centroid.
    pub open spec fn offset(self, width: int) -> Shape {
        let before = self.vertices();
        let after = self.pushed_out(width);
        Shape {
            translation: self.translation.minus(centroid(after).minus(centroid(before))),
            edges: edges_between(after),
        }
    }

    /// Whether the shape can be widened: it has an edge, its edges are short
    /// enough for their normals to be scaled, and it is near the origin.
    pub open spec fn can_offset(self) -> bool {
        &&& 1 <= self.edges.len() <= SHAPE_MAX_EDGES
        &&& all_within(self.edges, SCALE_LIMIT as int)
        &&& self.translation.within(OFFSET_TRANSLATION_LIMIT as int)
    }
}

impl ShapePosition {
    /// Whether the shape can be widened.
    pub fn can_be_offset(&self) -> (r: bool)
        ensures
            r == self@.can_offset(),
    {
        1 <= self.edges.len() && self.edges.len() <= SHAPE_MAX_EDGES && self.edges.is_within(
            SCALE_LIMIT,
        ) && self.translation.is_within(OFFSET_TRANSLATION_LIMIT)
    }

    /// Widen the outline by `width`: every vertex moves by `width` along
    /// the outward normal of each of the two edges that meet there. The
    /// translation moves against the shift of the centroid.
    pub fn offset(&mut self, width: i64)
        requires
            old(self)@.can_offset(),
            -SCALE_LIMIT <= width <= SCALE_LIMIT,
        ensures
            final(self)@ == old(self)@.offset(width as int),
            final(self)@.fits(),
            final(self)@.edges.len() == old(self)@.edges.len(),
            final(self)@.translation.within(0x4000_0000_0000),
            is_closed(final(self)@.edges),
    {
        let ghost shape = self@;
        proof {
            lemma_offset_fits(shape, width as int);
            assert(shape.fits());
        }
        let vertices: Vec<Vec2> = self.vertices();
        let n: usize = vertices.len();
        let ghost before = points_of(vertices@);
        assert(before.len() == n);
        let mut pushed: Vec<Vec2> = Vec::with_capacity(n);
        let mut i: usize = 0;
        while i < n
            invariant
                0 <= i <= n,
                n == vertices@.len(),
                n == self.edges@.len(),
                self@ == shape,
                shape.can_offset(),
                -SCALE_LIMIT <= width <= SCALE_LIMIT,
                before == points_of(vertices@),
                before == shape.vertices(),
                all_within(before, 0x1800_0000_0000),
                pushed@.len() == i,
                forall|j: int|
                    0 <= j < i ==> (#[trigger] pushed@[j])@ == before[j].plus(
                        shape.push(j, width as int),
                    ),
            decreases n - i,
        {
            let next: usize = if i + 1 == n { 0 } else { i + 1 };
            proof {
                if i + 1 == n {
                    lemma_mod_self_0(n as int);
                } else {
                    lemma_small_mod((i + 1) as nat, n as nat);
                }
                assert(shape.edges[i as int].within(SCALE_LIMIT as int));
                assert(shape.edges[next as int].within(SCALE_LIMIT as int));
                assert(shape.edges[i as int] == self.edges.0@[i as int]@);
                assert(shape.edges[next as int] == self.edges.0@[next as int]@);
                assert(before[i as int].within(0x1800_0000_0000));
                assert(before[i as int] == vertices@[i as int]@);
            }
            let along: Vec2 = self.edges.0[i].outward().scaled_to(width);
            let beyond: Vec2 = self.edges.0[next].outward().scaled_to(width);
            let push: Vec2 = along.plus(&beyond);
            pushed.push(vertices[i].plus(&push));
            i += 1;
        }
        proof {
            assert(points_of(pushed@) =~= shape.pushed_out(width as int));
            assert(all_within(points_of(pushed@), COORD_LIMIT as int)) by {
                assert forall|j: int| 0 <= j < pushed@.len() implies (#[trigger] points_of(
                    pushed@,
                )[j]).within(COORD_LIMIT as int) by {
                    assert(shape.pushed_out(width as int)[j].within(
                        0x1800_0000_0000 + 2 * SCALE_LIMIT,
                    ));
                }
            }
            assert(all_within(before, COORD_LIMIT as int)) by {
                assert forall|j: int| 0 <= j < before.len() implies (#[trigger] before[j]).within(
                    COORD_LIMIT as int,
                ) by {
                    assert(before[j].within(0x1800_0000_0000));
                }
            }
        }
        let middle_before: Vec2 = calculate_centroid(vertices.as_slice());
        let middle_after: Vec2 = calculate_centroid(pushed.as_slice());
        proof {
            assert(all_within(points_of(pushed@), 0x1800_0000_0000 + 2 * SCALE_LIMIT));
        }
        let shift: Vec2 = middle_after.minus(&middle_before);
        self.edges = EdgeVectors::from_vertices(pushed.as_slice());
        self.translation = self.translation.minus(&shift);
    }
}

/// What widening a shape within the limits of [`Shape::can_offset`] moves
/// stays within the limits of [`Shape::fits`].
pub proof fn lemma_offset_fits(shape: Shape, width: int)
    requires
        shape.can_offset(),
        -SCALE_LIMIT <= width <= SCALE_LIMIT,
    ensures
        all_within(shape.vertices(), 0x1800_0000_0000),
        all_within(shape.pushed_out(width), 0x1800_0000_0000 + 2 * SCALE_LIMIT),
        shape.offset(width).edges.len() == shape.edges.len(),
        all_within(shape.offset(width).edges, SHAPE_EDGE_LIMIT as int),
        shape.offset(width).translation.within(0x4000_0000_0000),
        shape.offset(width).fits(),
{
    let n = shape.edges.len() as int;
    let before = shape.vertices();
    let after = shape.pushed_out(width);
    lemma_vertices_reach(shape, SCALE_LIMIT as int, OFFSET_TRANSLATION_LIMIT as int);
    assert(n * SCALE_LIMIT <= SHAPE_MAX_EDGES * SCALE_LIMIT) by (nonlinear_arith)
        requires
            0 <= n <= SHAPE_MAX_EDGES,
    ;
    assert forall|i: int| 0 <= i < before.len() implies (#[trigger] before[i]).within(
        0x1800_0000_0000,
    ) by {
        assert(before[i].within(OFFSET_TRANSLATION_LIMIT + 2 * (n * SCALE_LIMIT)));
    }
    let span = if width >= 0 { width } else { -width };
    assert forall|i: int| 0 <= i < after.len() implies (#[trigger] after[i]).within(
        0x1800_0000_0000 + 2 * SCALE_LIMIT,
    ) by {
        let next = (i + 1) % n;
        lemma_mod_bound(i + 1, n);
        assert(before[i].within(0x1800_0000_0000));
        assert(shape.edges[i].within(SCALE_LIMIT as int));
        assert(shape.edges[next].within(SCALE_LIMIT as int));
        lemma_scaled_to_within(shape.edges[i].outward(), width);
        lemma_scaled_to_within(shape.edges[next].outward(), width);
    }
    let reach = 0x1800_0000_0000 + 2 * SCALE_LIMIT;
    let widened = shape.offset(width);
    assert forall|i: int| 0 <= i < widened.edges.len() implies (#[trigger] widened.edges[i]).within(
        SHAPE_EDGE_LIMIT as int,
    ) by {
        lemma_mod_bound(i + 1, n);
        assert(after[i].within(reach));
        assert(after[(i + 1) % n].within(reach));
    }
    lemma_prefix_sum_within(before, n, 0x1800_0000_0000);
    lemma_mean_within(path_sum(before).x, n, 0x1800_0000_0000);
    lemma_mean_within(path_sum(before).y, n, 0x1800_0000_0000);
    lemma_prefix_sum_within(after, n, reach);
    lemma_mean_within(path_sum(after).x, n, reach);
    lemma_mean_within(path_sum(after).y, n, reach);
}

/// A vector scaled to a length has no coordinate beyond that length.
pub proof fn lemma_scaled_to_within(direction: Point, len: int)
    ensures
        direction.scaled_to(len).within(if len >= 0 { len } else { -len }),
{
    let span = if len >= 0 { len } else { -len };
    let l2 = direction.norm2();
    lemma_scaled_up_at_most(span, direction.x, direction.y);
    lemma_scaled_up_at_most(span, direction.y, direction.x);
    assert(direction.y * direction.y + direction.x * direction.x == l2);
}

/// The vertices of a widened shape are the pushed vertices, from the second
/// one on, all moved by twice the way from the centroid of the pushed
/// vertices to the translation of the shape.
pub proof fn lemma_offset_vertices(shape: Shape, width: int, k: int)
    requires
        0 <= k < shape.edges.len(),
    ensures
        shape.offset(width).vertices().len() == shape.edges.len(),
        shape.offset(width).vertices()[k] == shape.pushed_out(width)[(k + 1) % (
        shape.edges.len() as int)].plus(
            Point {
                x: 2 * (shape.translation.x - centroid(shape.pushed_out(width)).x),
                y: 2 * (shape.translation.y - centroid(shape.pushed_out(width)).y),
            },
        ),
{
    let n = shape.edges.len() as int;
    let pushed = shape.pushed_out(width);
    let start = 1int % n;
    lemma_mod_bound(1, n);
    lemma_mod_bound(k + 1, n);
    lemma_vertices_centered(shape);
    lemma_walk_of_edges_between(pushed);
    let turned = rotated(pushed, start);
    lemma_rotated_sum(pushed, start);
    assert(centroid(turned) == centroid(pushed));
    lemma_centroid_moved(turned, pushed[0].negated());
    assert((start + k) % n == (k + 1) % n) by {
        if n == 1 {
            assert(1int % 1 == 0);
            assert(k == 0);
        } else {
            lemma_small_mod(1, n as nat);
        }
    }
}

/// The walk along the edges between the vertices of a loop passes through
/// those vertices, from the second one on, as seen from the first.
pub proof fn lemma_walk_of_edges_between(vertices: Seq<Point>)
    requires
        vertices.len() >= 1,
    ensures
        walk(edges_between(vertices)) == moved(
            rotated(vertices, 1int % (vertices.len() as int)),
            vertices[0].negated(),
        ),
{
    let n = vertices.len() as int;
    let edges = edges_between(vertices);
    let start = 1int % n;
    let seen = moved(rotated(vertices, start), vertices[0].negated());
    lemma_edges_between_closed(vertices);
    assert forall|k: int| 0 <= k < n implies walk(edges)[k] == seen[k] by {
        if k + 1 < n {
            lemma_edges_between_prefix(vertices, k + 1);
            lemma_small_mod(1, n as nat);
            lemma_small_mod((k + 1) as nat, n as nat);
        } else {
            lemma_mod_self_0(n);
            if n == 1 {
                assert(1int % 1 == 0);
            } else {
                lemma_small_mod(1, n as nat);
            }
        }
    }
    assert(walk(edges) =~= seen);
}

/// Whether every edge runs along one of the two axes and none turns back
/// on the one before it: the outline of an upright rectangle, its sides
/// split or not.
pub open spec fn is_upright(edges: Seq<Point>) -> bool {
    &&& forall|i: int| 0 <= i < edges.len() ==> ((#[trigger] edges[i]).x == 0) != (edges[i].y == 0)
    &&& forall|i: int|
        0 <= i < edges.len() ==> (#[trigger] edges[i]).dot(edges[(i + 1) % (edges.len() as int)])
            >= 0
}

/// The length of an edge that runs along an axis.
pub open spec fn axis_length(edge: Point) -> int {
    (if edge.x >= 0 { edge.x } else { -edge.x }) + (if edge.y >= 0 { edge.y } else { -edge.y })
}

/// Widening an upright outline whose pushed vertices keep the centroid puts
/// every vertex out by the width at least, beyond each of the two edges
/// that meet in it.
///
/// Vertex `k` of the widened shape comes from vertex `k + 1` of the shape,
/// counted around the outline. Taken along the outward normal of either edge
/// at that vertex, the way between the two is `width` times the length of
/// that normal or more.
pub proof fn lemma_offset_clears_edges(shape: Shape, width: int, k: int)
    requires
        is_upright(shape.edges),
        width > 0,
        0 <= k < shape.edges.len(),
        centroid(shape.pushed_out(width)) == shape.translation,
    ensures
        ({
            let n = shape.edges.len() as int;
            let i = (k + 1) % n;
            let next = (i + 1) % n;
            let way = shape.offset(width).vertices()[k].minus(shape.vertices()[i]);
            &&& way.dot(shape.edges[i].outward()) >= width * axis_length(shape.edges[i])
            &&& way.dot(shape.edges[next].outward()) >= width * axis_length(shape.edges[next])
        }),
{
    let n = shape.edges.len() as int;
    let i = (k + 1) % n;
    lemma_mod_bound(k + 1, n);
    lemma_offset_vertices(shape, width, k);
    lemma_push_clears_edges(shape, width, i);
    let way = shape.offset(width).vertices()[k].minus(shape.vertices()[i]);
    assert(way == shape.push(i, width));
}

/// Widening an upright outline moves every vertex out by the width at
/// least, beyond each of the two edges that meet in it: the way that vertex
/// `i` is pushed, taken along the outward normal of the edge, is `width`
/// times the length of that normal or more.
pub proof fn lemma_push_clears_edges(shape: Shape, width: int, i: int)
    requires
        is_upright(shape.edges),
        width > 0,
        0 <= i < shape.edges.len(),
    ensures
        shape.push(i, width).dot(shape.edges[i].outward()) >= width * axis_length(shape.edges[i]),
        shape.push(i, width).dot(shape.edges[(i + 1) % (shape.edges.len() as int)].outward())
            >= width * axis_length(shape.edges[(i + 1) % (shape.edges.len() as int)]),
{
    let n = shape.edges.len() as int;
    let next = (i + 1) % n;
    lemma_mod_bound(i + 1, n);
    let e = shape.edges[i];
    let f = shape.edges[next];
    assert(e.dot(f) >= 0);
    lemma_axis_normal(e, width);
    lemma_axis_normal(f, width);
    let push = shape.push(i, width);
    assert(push.dot(e.outward()) >= width * axis_length(e) && push.dot(f.outward()) >= width
        * axis_length(f)) by (nonlinear_arith)
        requires
            (e.x == 0) != (e.y == 0),
            (f.x == 0) != (f.y == 0),
            e.x * f.x + e.y * f.y >= 0,
            width > 0,
            push.x == (if e.y > 0 {
                width
            } else if e.y < 0 {
                -width
            } else {
                0
            }) + (if f.y > 0 {
                width
            } else if f.y < 0 {
                -width
            } else {
                0
            }),
            push.y == (if e.x > 0 {
                -width
            } else if e.x < 0 {
                width
            } else {
                0
            }) + (if f.x > 0 {
                -width
            } else if f.x < 0 {
                width
            } else {
                0
            }),
            push.dot(e.outward()) == push.x * e.y + push.y * (-e.x),
            push.dot(f.outward()) == push.x * f.y + push.y * (-f.x),
            axis_length(e) == (if e.x >= 0 { e.x } else { -e.x }) + (if e.y >= 0 { e.y } else { -e.y }),
            axis_length(f) == (if f.x >= 0 { f.x } else { -f.x }) + (if f.y >= 0 { f.y } else { -f.y }),
    ;
}

/// The outward normal of an edge along an axis, scaled to `width`, is exact:
/// it is `width` long and has no other component.
pub proof fn lemma_axis_normal(edge: Point, width: int)
    requires
        (edge.x == 0) != (edge.y == 0),
        width >= 0,
    ensures
        edge.outward().scaled_to(width) == (Point {
            x: if edge.y > 0 {
                width
            } else if edge.y < 0 {
                -width
            } else {
                0
            },
            y: if edge.x > 0 {
                -width
            } else if edge.x < 0 {
                width
            } else {
                0
            },
        }),
{
    let normal = edge.outward();
    if edge.x == 0 {
        lemma_scaled_up_on_axis(width, edge.y);
        assert(normal.norm2() == edge.y * edge.y) by (nonlinear_arith)
            requires
                normal.norm2() == edge.y * edge.y + (-edge.x) * (-edge.x),
                edge.x == 0,
        ;
    } else {
        lemma_scaled_up_on_axis(width, -edge.x);
        assert(normal.norm2() == (-edge.x) * (-edge.x)) by (nonlinear_arith)
            requires
                normal.norm2() == edge.y * edge.y + (-edge.x) * (-edge.x),
                edge.y == 0,
        ;
    }
}

/// Pushed vertices whose pushes add up to nothing keep the centroid.
pub proof fn lemma_balanced_push_keeps_centroid(shape: Shape, width: int)
    requires
        shape.edges.len() >= 1,
        path_sum(Seq::new(shape.edges.len(), |i: int| shape.push(i, width))) == Point::zero(),
    ensures
        centroid(shape.pushed_out(width)) == shape.translation,
{
    let n = shape.edges.len() as int;
    let before = shape.vertices();
    let pushes = Seq::new(shape.edges.len(), |i: int| shape.push(i, width));
    let after = shape.pushed_out(width);
    lemma_prefix_sum_added(before, pushes, after, n);
    lemma_vertices_centered(shape);
}

/// The four edges of the upright rectangle of the given size.
pub open spec fn upright_edges(size: Point) -> Seq<Point> {
    seq![
        Point { x: size.x, y: 0 },
        Point { x: 0, y: size.y },
        Point { x: -size.x, y: 0 },
        Point { x: 0, y: -size.y },
    ]
}

/// Widening an upright rectangle by a width puts every corner out by that
/// width, beyond both sides that meet in it.
///
/// Corner `k` of the widened rectangle comes from corner `k + 1` of the
/// rectangle, counted around it. Taken along the outward normal of either
/// side at that corner, the way between the two is `width` times the length
/// of that normal or more.
pub proof fn lemma_rectangle_offset_clears_sides(
    shape: Shape,
    size: Point,
    along: int,
    width: int,
    k: int,
)
    requires
        shape.edges == rect_edges(size, Point { x: along, y: 0 }),
        along > 0,
        size.x > 0,
        size.y > 0,
        width > 0,
        0 <= k < 4,
    ensures
        ({
            let i = (k + 1) % 4;
            let next = (i + 1) % 4;
            let way = shape.offset(width).vertices()[k].minus(shape.vertices()[i]);
            &&& way.dot(shape.edges[i].outward()) >= width * axis_length(shape.edges[i])
            &&& way.dot(shape.edges[next].outward()) >= width * axis_length(shape.edges[next])
        }),
{
    lemma_rect_edges_upright(size, along);
    lemma_upright_edges(size);
    lemma_upright_keeps_centroid(shape, size, width);
    assert(shape.edges.len() == 4);
    lemma_offset_clears_edges(shape, width, k);
}

/// A rectangle whose axis points to the right has the edges of the upright
/// rectangle of its size, however long the axis is.
pub proof fn lemma_rect_edges_upright(size: Point, along: int)
    requires
        along > 0,
        size.x >= 0,
        size.y >= 0,
    ensures
        rect_edges(size, Point { x: along, y: 0 }) == upright_edges(size),
{
    let axis = Point { x: along, y: 0 };
    let up = axis.turned_left();
    lemma_scaled_up_on_axis(size.x, along);
    lemma_scaled_up_on_axis(size.y, along);
    assert(axis.norm2() == along * along) by (nonlinear_arith)
        requires
            axis.norm2() == along * along + 0 * 0,
    ;
    assert(up.norm2() == along * along) by (nonlinear_arith)
        requires
            up.norm2() == (-0) * (-0) + along * along,
    ;
    assert(axis.scaled_to(size.x) == (Point { x: size.x, y: 0 }));
    assert(up.scaled_to(size.y) == (Point { x: 0, y: size.y }));
    assert(rect_edges(size, axis) =~= upright_edges(size));
}

/// The outline of an upright rectangle runs along the axes and is closed.
pub proof fn lemma_upright_edges(size: Point)
    requires
        size.x > 0,
        size.y > 0,
    ensures
        is_upright(upright_edges(size)),
        is_closed(upright_edges(size)),
{
    let edges = upright_edges(size);
    assert(edges.len() == 4);
    assert(1int % 4 == 1 && 2int % 4 == 2 && 3int % 4 == 3 && 4int % 4 == 0);
    assert(edges[0].dot(edges[1]) == 0 && edges[1].dot(edges[2]) == 0 && edges[2].dot(edges[3])
        == 0 && edges[3].dot(edges[0]) == 0) by (nonlinear_arith)
        requires
            edges[0] == (Point { x: size.x, y: 0 }),
            edges[1] == (Point { x: 0, y: size.y }),
            edges[2] == (Point { x: -size.x, y: 0 }),
            edges[3] == (Point { x: 0, y: -size.y }),
            edges[0].dot(edges[1]) == edges[0].x * edges[1].x + edges[0].y * edges[1].y,
            edges[1].dot(edges[2]) == edges[1].x * edges[2].x + edges[1].y * edges[2].y,
            edges[2].dot(edges[3]) == edges[2].x * edges[3].x + edges[2].y * edges[3].y,
            edges[3].dot(edges[0]) == edges[3].x * edges[0].x + edges[3].y * edges[0].y,
    ;
    assert forall|i: int| 0 <= i < edges.len() implies (#[trigger] edges[i]).dot(
        edges[(i + 1) % (edges.len() as int)],
    ) >= 0 by {
        if i == 0 {
        } else if i == 1 {
        } else if i == 2 {
        } else {
            assert(i == 3);
        }
    }
    assert(is_closed(edges)) by {
        reveal_with_fuel(prefix_sum, 5);
    }
}

/// Widening an upright rectangle pushes its four corners out evenly: each
/// by the width along both axes, away from the rectangle.
pub proof fn lemma_upright_pushes(shape: Shape, size: Point, width: int)
    requires
        shape.edges == upright_edges(size),
        size.x > 0,
        size.y > 0,
        width >= 0,
    ensures
        shape.push(0, width) == (Point { x: width, y: -width }),
        shape.push(1, width) == (Point { x: width, y: width }),
        shape.push(2, width) == (Point { x: -width, y: width }),
        shape.push(3, width) == (Point { x: -width, y: -width }),
{
    assert(shape.edges.len() == 4);
    assert(1int % 4 == 1 && 2int % 4 == 2 && 3int % 4 == 3 && 4int % 4 == 0);
    lemma_axis_normal(shape.edges[0], width);
    lemma_axis_normal(shape.edges[1], width);
    lemma_axis_normal(shape.edges[2], width);
    lemma_axis_normal(shape.edges[3], width);
}

/// The pushed corners of an upright rectangle keep its centroid, so that
/// widening it puts every corner out by the width, beyond both sides that
/// meet in it.
pub proof fn lemma_upright_keeps_centroid(shape: Shape, size: Point, width: int)
    requires
        shape.edges == upright_edges(size),
        size.x > 0,
        size.y > 0,
        width >= 0,
    ensures
        centroid(shape.pushed_out(width)) == shape.translation,
{
    lemma_upright_pushes(shape, size, width);
    let pushes = Seq::new(shape.edges.len(), |i: int| shape.push(i, width));
    assert(pushes =~= seq![
        Point { x: width, y: -width },
        Point { x: width, y: width },
        Point { x: -width, y: width },
        Point { x: -width, y: -width },
    ]);
    assert(path_sum(pushes) == Point::zero()) by {
        reveal_with_fuel(prefix_sum, 5);
    }
    lemma_balanced_push_keeps_centroid(shape, width);
}

/// Whether the way, taken along the normal, is `width` long at least: it
/// does not lead against the normal, and its product with the normal is as
/// great as that of a vector of length `width` along the normal.
pub open spec fn reaches(way: Point, normal: Point, width: int) -> bool {
    &&& way.dot(normal) >= 0
    &&& way.dot(normal) * way.dot(normal) >= width * width * normal.norm2()
}

/// A vector scaled to a length is that long at least, taken along itself:
/// rounding away from zero never makes it shorter.
pub proof fn lemma_scaled_reaches(direction: Point, width: int)
    requires
        width >= 0,
    ensures
        reaches(direction.scaled_to(width), direction, width),
{
    let (x, y) = (direction.x, direction.y);
    let l2 = direction.norm2();
    lemma_scaled_up_at_most(width, x, y);
    lemma_scaled_up_at_most(width, y, x);
    assert(y * y + x * x == l2);
    let qx = crate::arith::scaled_up(width, x, l2);
    let qy = crate::arith::scaled_up(width, y, l2);
    let scaled = direction.scaled_to(width);
    let ax = if x >= 0 { x } else { -x };
    let ay = if y >= 0 { y } else { -y };
    let along_x = qx * ax;
    let along_y = qy * ay;
    assert(scaled.x * x == along_x && scaled.y * y == along_y) by (nonlinear_arith)
        requires
            scaled.x == (if x >= 0 { qx } else { -qx }),
            scaled.y == (if y >= 0 { qy } else { -qy }),
            ax == (if x >= 0 { x } else { -x }),
            ay == (if y >= 0 { y } else { -y }),
            along_x == qx * ax,
            along_y == qy * ay,
    ;
    let u = x * x;
    let v = y * y;
    let ww = width * width;
    let p = qx * qx * l2;
    let q = qy * qy * l2;
    assert(u >= 0 && v >= 0 && ww >= 0 && u == ax * ax && v == ay * ay) by (nonlinear_arith)
        requires
            u == x * x,
            v == y * y,
            ww == width * width,
            ax == (if x >= 0 { x } else { -x }),
            ay == (if y >= 0 { y } else { -y }),
    ;
    assert(p >= ww * u && q >= ww * v) by (nonlinear_arith)
        requires
            p == qx * qx * l2,
            q == qy * qy * l2,
            qx * qx * l2 >= (width * x) * (width * x),
            qy * qy * l2 >= (width * y) * (width * y),
            ww == width * width,
            u == x * x,
            v == y * y,
    ;
    // The squares of the two parts, and their product, each times `l2`.
    let xx = along_x * along_x * l2;
    let yy = along_y * along_y * l2;
    let xy = along_x * along_y * l2;
    assert(xx == p * u && yy == q * v) by (nonlinear_arith)
        requires
            xx == (qx * ax) * (qx * ax) * l2,
            yy == (qy * ay) * (qy * ay) * l2,
            p == qx * qx * l2,
            q == qy * qy * l2,
            u == ax * ax,
            v == ay * ay,
    ;
    assert(xx >= ww * u * u && yy >= ww * v * v) by (nonlinear_arith)
        requires
            xx == p * u,
            yy == q * v,
            p >= ww * u,
            q >= ww * v,
            u >= 0,
            v >= 0,
    ;
    assert(xy * xy == xx * yy) by (nonlinear_arith)
        requires
            xx == along_x * along_x * l2,
            yy == along_y * along_y * l2,
            xy == along_x * along_y * l2,
    ;
    assert(along_x >= 0 && along_y >= 0 && l2 >= 0 && xy >= 0) by (nonlinear_arith)
        requires
            along_x == qx * ax,
            along_y == qy * ay,
            qx >= 0,
            qy >= 0,
            ax >= 0,
            ay >= 0,
            l2 == u + v,
            u >= 0,
            v >= 0,
            xy == along_x * along_y * l2,
    ;
    let floor = ww * u * v;
    assert(xx * yy >= floor * floor && floor >= 0) by (nonlinear_arith)
        requires
            xx >= ww * u * u,
            yy >= ww * v * v,
            ww >= 0,
            u >= 0,
            v >= 0,
            floor == ww * u * v,
    ;
    assert(xy >= floor) by (nonlinear_arith)
        requires
            xy * xy >= floor * floor,
            xy >= 0,
            floor >= 0,
    ;
    let along = along_x + along_y;
    assert(along * along * l2 == xx + 2 * xy + yy) by (nonlinear_arith)
        requires
            along == along_x + along_y,
            xx == along_x * along_x * l2,
            yy == along_y * along_y * l2,
            xy == along_x * along_y * l2,
    ;
    assert(ww * l2 * l2 == ww * u * u + 2 * floor + ww * v * v) by (nonlinear_arith)
        requires
            l2 == u + v,
            floor == ww * u * v,
    ;
    assert(along * along >= ww * l2) by (nonlinear_arith)
        requires
            along * along * l2 >= ww * l2 * l2,
            l2 >= 0,
            ww >= 0,
            along * along >= 0,
    ;
    assert(scaled.dot(direction) == along);
}

/// Widening moves a vertex out by the width at least, beyond the edge that
/// ends in it, where the push along the next edge does not lead back
/// against the normal of that edge: where the corner is not sharper than a
/// right angle, as the scaled normals see it.
pub proof fn lemma_push_reaches(shape: Shape, width: int, i: int)
    requires
        width >= 0,
        0 <= i < shape.edges.len(),
    ensures
        ({
            let next = (i + 1) % (shape.edges.len() as int);
            let here = shape.edges[i].outward();
            let there = shape.edges[next].outward();
            &&& there.scaled_to(width).dot(here) >= 0 ==> reaches(shape.push(i, width), here, width)
            &&& here.scaled_to(width).dot(there) >= 0 ==> reaches(
                shape.push(i, width),
                there,
                width,
            )
        }),
{
    let next = (i + 1) % (shape.edges.len() as int);
    let here = shape.edges[i].outward();
    let there = shape.edges[next].outward();
    lemma_scaled_reaches(here, width);
    lemma_scaled_reaches(there, width);
    lemma_longer_way_reaches(here.scaled_to(width), there.scaled_to(width), here, width);
    lemma_longer_way_reaches(there.scaled_to(width), here.scaled_to(width), there, width);
    let push = shape.push(i, width);
    assert(push == here.scaled_to(width).plus(there.scaled_to(width)));
    assert(push == there.scaled_to(width).plus(here.scaled_to(width)));
}

/// Widening a shape whose pushed vertices keep the centroid puts every
/// vertex out by the width at least, beyond each of the two edges that meet
/// in it, where the corner is not sharper than a right angle, as the scaled
/// normals see it.
///
/// Vertex `k` of the widened shape comes from vertex `k + 1` of the shape,
/// counted around the outline.
pub proof fn lemma_offset_reaches(shape: Shape, width: int, k: int)
    requires
        width >= 0,
        0 <= k < shape.edges.len(),
        centroid(shape.pushed_out(width)) == shape.translation,
    ensures
        ({
            let n = shape.edges.len() as int;
            let i = (k + 1) % n;
            let next = (i + 1) % n;
            let here = shape.edges[i].outward();
            let there = shape.edges[next].outward();
            let way = shape.offset(width).vertices()[k].minus(shape.vertices()[i]);
            &&& there.scaled_to(width).dot(here) >= 0 ==> reaches(way, here, width)
            &&& here.scaled_to(width).dot(there) >= 0 ==> reaches(way, there, width)
        }),
{
    let n = shape.edges.len() as int;
    let i = (k + 1) % n;
    lemma_mod_bound(k + 1, n);
    lemma_offset_vertices(shape, width, k);
    lemma_push_reaches(shape, width, i);
    let way = shape.offset(width).vertices()[k].minus(shape.vertices()[i]);
    assert(way == shape.push(i, width));
}

/// A way that reaches a width along a normal still does so when a way is
/// added to it that does not lead against the normal.
pub proof fn lemma_longer_way_reaches(way: Point, more: Point, normal: Point, width: int)
    requires
        reaches(way, normal, width),
    ensures
        more.dot(normal) >= 0 ==> reaches(way.plus(more), normal, width),
{
    let sum = way.plus(more);
    assert(sum.dot(normal) == way.dot(normal) + more.dot(normal)) by (nonlinear_arith)
        requires
            sum.x == way.x + more.x,
            sum.y == way.y + more.y,
            sum.dot(normal) == sum.x * normal.x + sum.y * normal.y,
            way.dot(normal) == way.x * normal.x + way.y * normal.y,
            more.dot(normal) == more.x * normal.x + more.y * normal.y,
    ;
    if more.dot(normal) >= 0 {
        let a = way.dot(normal);
        let b = more.dot(normal);
        assert((a + b) * (a + b) >= a * a) by (nonlinear_arith)
            requires
                a >= 0,
                b >= 0,
        ;
    }
}

} // verus!
