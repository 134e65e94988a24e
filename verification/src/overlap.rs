use vstd::prelude::*;
use crate::outline::{all_within, points_of, EdgeVectors};
use crate::shape::{Shape, ShapePosition, SHAPE_EDGE_LIMIT};
use crate::vec2::{lemma_product_bound, Point, Vec2, COORD_LIMIT};

verus! {

/// Whether every point of `a` lies before every point of `b` along `axis`,
/// with room between them.
pub open spec fn lies_before(axis: Point, a: Seq<Point>, b: Seq<Point>) -> bool {
    forall|i: int, j: int|
        0 <= i < a.len() && 0 <= j < b.len() ==> (#[trigger] a[i]).dot(axis) < (#[trigger] b[j]).dot(
            axis,
        )
}

/// Whether no point of `a` lies further along `axis` than any point of `b`.
pub open spec fn precedes(axis: Point, a: Seq<Point>, b: Seq<Point>) -> bool {
    forall|i: int, j: int|
        0 <= i < a.len() && 0 <= j < b.len() ==> (#[trigger] a[i]).dot(axis) <= (#[trigger] b[j]).dot(
            axis,
        )
}

/// Whether `axis` separates the two point sets: their extents along it do
/// not meet, not even in one value.
pub open spec fn splits(axis: Point, a: Seq<Point>, b: Seq<Point>) -> bool {
    lies_before(axis, a, b) || lies_before(axis, b, a)
}

/// Whether `axis` is a direction along which the two point sets lie side by
/// side: their extents along it meet in one value at most.
pub open spec fn keeps_apart(axis: Point, a: Seq<Point>, b: Seq<Point>) -> bool {
    !axis.is_zero() && (precedes(axis, a, b) || precedes(axis, b, a))
}

/// Whether `axis` tells the two point sets apart: it separates them, or,
/// where touching is allowed, they lie side by side along it.
pub open spec fn tells_apart(axis: Point, a: Seq<Point>, b: Seq<Point>, touching: bool) -> bool {
    if touching {
        keeps_apart(axis, a, b)
    } else {
        splits(axis, a, b)
    }
}

impl Shape {
    /// Whether the extents of the two shapes meet along the normal of every
    /// edge of both: no edge normal separates them. Shapes that touch
    /// overlap.
    pub open spec fn overlaps(self, other: Shape) -> bool {
        &&& forall|k: int|
            0 <= k < self.edges.len() ==> !splits(
                (#[trigger] self.edges[k]).outward(),
                self.vertices(),
                other.vertices(),
            )
        &&& forall|k: int|
            0 <= k < other.edges.len() ==> !splits(
                (#[trigger] other.edges[k]).outward(),
                self.vertices(),
                other.vertices(),
            )
    }

    /// Whether the two shapes share more than their boundary: along the
    /// normal of no edge of either they lie side by side. Shapes that only
    /// touch do not meet in this way.
    pub open spec fn interiors_meet(self, other: Shape) -> bool {
        &&& forall|k: int|
            0 <= k < self.edges.len() ==> !keeps_apart(
                (#[trigger] self.edges[k]).outward(),
                self.vertices(),
                other.vertices(),
            )
        &&& forall|k: int|
            0 <= k < other.edges.len() ==> !keeps_apart(
                (#[trigger] other.edges[k]).outward(),
                self.vertices(),
                other.vertices(),
            )
    }

    /// Whether `point` lies to the left of every edge or on it: inside the
    /// counter-clockwise convex outline, its boundary included.
    pub open spec fn contains(self, point: Point) -> bool {
        forall|i: int|
            0 <= i < self.edges.len() ==> (#[trigger] self.edges[i]).cross(
                point.minus(self.vertices()[i]),
            ) >= 0
    }
}

impl ShapePosition {
    /// Check overlap with the separating axis theorem: the shapes overlap
    /// unless the normal of one of their edges separates them. Shapes that
    /// touch overlap.
    pub fn is_overlapping(&self, other: &ShapePosition) -> (r: bool)
        requires
            self@.fits(),
            other@.fits(),
        ensures
            r == self@.overlaps(other@),
    {
        let a: Vec<Vec2> = self.vertices();
        let b: Vec<Vec2> = other.vertices();
        if some_normal_tells_apart(&self.edges, &a, &b, false) {
            return false;
        }
        !some_normal_tells_apart(&other.edges, &a, &b, false)
    }

    /// Whether the two shapes share more than their boundary.
    pub fn interiors_meet(&self, other: &ShapePosition) -> (r: bool)
        requires
            self@.fits(),
            other@.fits(),
        ensures
            r == self@.interiors_meet(other@),
    {
        let a: Vec<Vec2> = self.vertices();
        let b: Vec<Vec2> = other.vertices();
        if some_normal_tells_apart(&self.edges, &a, &b, true) {
            return false;
        }
        !some_normal_tells_apart(&other.edges, &a, &b, true)
    }

    /// Whether `point` lies inside the outline or on its boundary.
    pub fn contains(&self, point: &Vec2) -> (r: bool)
        requires
            self@.fits(),
            point@.within(COORD_LIMIT as int),
        ensures
            r == self@.contains(point@),
    {
        let vertices: Vec<Vec2> = self.vertices();
        let ghost world = points_of(vertices@);
        assert(world.len() == vertices@.len());
        let mut i: usize = 0;
        while i < self.edges.0.len()
            invariant
                0 <= i <= self.edges@.len(),
                vertices@.len() == self.edges@.len(),
                self@.fits(),
                point@.within(COORD_LIMIT as int),
                world == points_of(vertices@),
                world == self@.vertices(),
                all_within(world, COORD_LIMIT as int),
                forall|j: int|
                    0 <= j < i ==> (#[trigger] self.edges@[j]).cross(point@.minus(world[j])) >= 0,
            decreases self.edges@.len() - i,
        {
            let edge: Vec2 = self.edges.0[i];
            let vertex: Vec2 = vertices[i];
            proof {
                assert(self.edges@[i as int] == edge@);
                assert(self.edges@[i as int].within(SHAPE_EDGE_LIMIT as int));
                assert(world[i as int] == vertex@);
                assert(world[i as int].within(COORD_LIMIT as int));
            }
            let dx: i128 = point.x as i128 - vertex.x as i128;
            let dy: i128 = point.y as i128 - vertex.y as i128;
            proof {
                lemma_product_bound(edge.x as int, dy as int, 2 * COORD_LIMIT);
                lemma_product_bound(edge.y as int, dx as int, 2 * COORD_LIMIT);
            }
            let turn: i128 = (edge.x as i128) * dy - (edge.y as i128) * dx;
            if turn < 0 {
                return false;
            }
            i += 1;
        }
        true
    }
}

/// Whether the normal of one of the edges tells the two vertex sets apart.
pub fn some_normal_tells_apart(
    edges: &EdgeVectors,
    a: &Vec<Vec2>,
    b: &Vec<Vec2>,
    touching: bool,
) -> (r: bool)
    requires
        all_within(points_of(a@), COORD_LIMIT as int),
        all_within(points_of(b@), COORD_LIMIT as int),
        all_within(edges@, SHAPE_EDGE_LIMIT as int),
    ensures
        r == exists|k: int|
            0 <= k < edges@.len() && tells_apart(
                (#[trigger] edges@[k]).outward(),
                points_of(a@),
                points_of(b@),
                touching,
            ),
{
    let mut k: usize = 0;
    while k < edges.0.len()
        invariant
            0 <= k <= edges@.len(),
            all_within(points_of(a@), COORD_LIMIT as int),
            all_within(points_of(b@), COORD_LIMIT as int),
            all_within(edges@, SHAPE_EDGE_LIMIT as int),
            forall|l: int|
                0 <= l < k ==> !tells_apart(
                    (#[trigger] edges@[l]).outward(),
                    points_of(a@),
                    points_of(b@),
                    touching,
                ),
        decreases edges@.len() - k,
    {
        assert(edges@[k as int].within(SHAPE_EDGE_LIMIT as int));
        assert(edges@[k as int] == edges.0@[k as int]@);
        let axis: Vec2 = edges.0[k].outward();
        let apart: bool = if touching {
            axis_keeps_apart(&axis, a, b)
        } else {
            axis_splits(&axis, a, b)
        };
        if apart {
            return true;
        }
        k += 1;
    }
    false
}

/// Whether `axis` separates the two vertex sets: the greatest extent of one
/// is less than the least extent of the other.
pub fn axis_splits(axis: &Vec2, a: &Vec<Vec2>, b: &Vec<Vec2>) -> (r: bool)
    requires
        all_within(points_of(a@), COORD_LIMIT as int),
        all_within(points_of(b@), COORD_LIMIT as int),
        axis@.within(COORD_LIMIT as int),
    ensures
        r == splits(axis@, points_of(a@), points_of(b@)),
{
    if a.len() == 0 || b.len() == 0 {
        return true;
    }
    let (least_a, greatest_a) = projection_range(a, axis);
    let (least_b, greatest_b) = projection_range(b, axis);
    greatest_a < least_b || greatest_b < least_a
}

/// Whether the two vertex sets lie side by side along `axis`, touching at
/// most.
pub fn axis_keeps_apart(axis: &Vec2, a: &Vec<Vec2>, b: &Vec<Vec2>) -> (r: bool)
    requires
        all_within(points_of(a@), COORD_LIMIT as int),
        all_within(points_of(b@), COORD_LIMIT as int),
        axis@.within(COORD_LIMIT as int),
    ensures
        r == keeps_apart(axis@, points_of(a@), points_of(b@)),
{
    if axis.x == 0 && axis.y == 0 {
        return false;
    }
    if a.len() == 0 || b.len() == 0 {
        return true;
    }
    let (least_a, greatest_a) = projection_range(a, axis);
    let (least_b, greatest_b) = projection_range(b, axis);
    greatest_a <= least_b || greatest_b <= least_a
}

/// The least and the greatest extent of the vertices along `axis`.
pub fn projection_range(vertices: &Vec<Vec2>, axis: &Vec2) -> (range: (i128, i128))
    requires
        vertices@.len() >= 1,
        all_within(points_of(vertices@), COORD_LIMIT as int),
        axis@.within(COORD_LIMIT as int),
    ensures
        forall|i: int|
            0 <= i < vertices@.len() ==> range.0 <= (#[trigger] points_of(vertices@)[i]).dot(axis@)
                <= range.1,
        exists|i: int| 0 <= i < vertices@.len() && points_of(vertices@)[i].dot(axis@) == range.0,
        exists|i: int| 0 <= i < vertices@.len() && points_of(vertices@)[i].dot(axis@) == range.1,
{
    let ghost points = points_of(vertices@);
    assert(points[0].within(COORD_LIMIT as int));
    let first: i128 = vertices[0].dot(axis);
    let mut least: i128 = first;
    let mut greatest: i128 = first;
    let ghost mut at_least: int = 0;
    let ghost mut at_greatest: int = 0;
    let mut i: usize = 1;
    while i < vertices.len()
        invariant
            1 <= i <= vertices@.len(),
            points == points_of(vertices@),
            all_within(points, COORD_LIMIT as int),
            axis@.within(COORD_LIMIT as int),
            forall|j: int| 0 <= j < i ==> least <= (#[trigger] points[j]).dot(axis@) <= greatest,
            0 <= at_least < i,
            0 <= at_greatest < i,
            points[at_least].dot(axis@) == least,
            points[at_greatest].dot(axis@) == greatest,
        decreases vertices@.len() - i,
    {
        assert(points[i as int].within(COORD_LIMIT as int));
        let extent: i128 = vertices[i].dot(axis);
        if extent < least {
            least = extent;
            proof {
                at_least = i as int;
            }
        }
        if extent > greatest {
            greatest = extent;
            proof {
                at_greatest = i as int;
            }
        }
        i += 1;
    }
    (least, greatest)
}

/// Overlap does not depend on the order of the two shapes.
pub proof fn lemma_overlaps_symmetric(a: Shape, b: Shape)
    ensures
        a.overlaps(b) == b.overlaps(a),
        a.interiors_meet(b) == b.interiors_meet(a),
{
    assert forall|axis: Point| splits(axis, a.vertices(), b.vertices()) == splits(
        axis,
        b.vertices(),
        a.vertices(),
    ) by {}
    assert forall|axis: Point| keeps_apart(axis, a.vertices(), b.vertices()) == keeps_apart(
        axis,
        b.vertices(),
        a.vertices(),
    ) by {}
}

/// Whether `axis` is the outward normal of an edge of one of the shapes.
pub open spec fn is_normal_of(axis: Point, a: Shape, b: Shape) -> bool {
    ||| exists|k: int| 0 <= k < a.edges.len() && (#[trigger] a.edges[k]).outward() == axis
    ||| exists|k: int| 0 <= k < b.edges.len() && (#[trigger] b.edges[k]).outward() == axis
}

/// Shapes that do not overlap are separated by the normal of one of their
/// edges: along it all vertices of one lie before all vertices of the other.
pub proof fn lemma_apart_along_a_normal(a: Shape, b: Shape)
    requires
        !a.overlaps(b),
    ensures
        exists|axis: Point| #[trigger]
            splits(axis, a.vertices(), b.vertices()) && is_normal_of(axis, a, b),
{
    if exists|k: int|
        0 <= k < a.edges.len() && splits(
            (#[trigger] a.edges[k]).outward(),
            a.vertices(),
            b.vertices(),
        ) {
        let k = choose|k: int|
            0 <= k < a.edges.len() && splits(
                (#[trigger] a.edges[k]).outward(),
                a.vertices(),
                b.vertices(),
            );
        let axis = a.edges[k].outward();
        assert(splits(axis, a.vertices(), b.vertices()) && is_normal_of(axis, a, b));
    } else {
        let k = choose|k: int|
            0 <= k < b.edges.len() && splits(
                (#[trigger] b.edges[k]).outward(),
                a.vertices(),
                b.vertices(),
            );
        let axis = b.edges[k].outward();
        assert(splits(axis, a.vertices(), b.vertices()) && is_normal_of(axis, a, b));
    }
}

/// Shapes whose interiors do not meet lie side by side along the normal of
/// one of their edges: all vertices of one lie at or before all vertices of
/// the other.
pub proof fn lemma_side_by_side_along_a_normal(a: Shape, b: Shape)
    requires
        !a.interiors_meet(b),
    ensures
        exists|axis: Point| #[trigger]
            keeps_apart(axis, a.vertices(), b.vertices()) && is_normal_of(axis, a, b),
{
    if exists|k: int|
        0 <= k < a.edges.len() && keeps_apart(
            (#[trigger] a.edges[k]).outward(),
            a.vertices(),
            b.vertices(),
        ) {
        let k = choose|k: int|
            0 <= k < a.edges.len() && keeps_apart(
                (#[trigger] a.edges[k]).outward(),
                a.vertices(),
                b.vertices(),
            );
        let axis = a.edges[k].outward();
        assert(keeps_apart(axis, a.vertices(), b.vertices()) && is_normal_of(axis, a, b));
    } else {
        let k = choose|k: int|
            0 <= k < b.edges.len() && keeps_apart(
                (#[trigger] b.edges[k]).outward(),
                a.vertices(),
                b.vertices(),
            );
        let axis = b.edges[k].outward();
        assert(keeps_apart(axis, a.vertices(), b.vertices()) && is_normal_of(axis, a, b));
    }
}

/// How far along `axis` the first `k` points reach when they are weighed:
/// the sum of the extents of the points along the axis, each taken as often
/// as its weight says. Divided by the sum of the weights it is the extent of
/// the weighted mean of the points, which is a point of their convex hull.
pub open spec fn weighed_extent(points: Seq<Point>, weights: Seq<nat>, axis: Point, k: int) -> int
    decreases k,
{
    if k <= 0 {
        0
    } else {
        weighed_extent(points, weights, axis, k - 1) + weights[k - 1] * points[k - 1].dot(axis)
    }
}

/// The sum of the first `k` weights.
pub open spec fn weight_sum(weights: Seq<nat>, k: int) -> int
    decreases k,
{
    if k <= 0 {
        0
    } else {
        weight_sum(weights, k - 1) + weights[k - 1]
    }
}

/// Along an axis on which no vertex of `a` lies further than any vertex of
/// `b`, no point of the convex hull of `a` lies further than any point of the
/// convex hull of `b`: the weighted means of the vertices of `a`, whatever
/// the weights, reach at most as far as those of `b`.
///
/// With `wa` and `wb` as the sums of the weights, the means lie at
/// `ea / wa` and `eb / wb`; the law compares them without dividing.
pub proof fn lemma_hulls_apart(
    axis: Point,
    a: Seq<Point>,
    b: Seq<Point>,
    weights_a: Seq<nat>,
    weights_b: Seq<nat>,
)
    requires
        precedes(axis, a, b),
        weights_a.len() == a.len(),
        weights_b.len() == b.len(),
        weight_sum(weights_a, a.len() as int) > 0,
        weight_sum(weights_b, b.len() as int) > 0,
    ensures
        weighed_extent(a, weights_a, axis, a.len() as int) * weight_sum(weights_b, b.len() as int)
            <= weighed_extent(b, weights_b, axis, b.len() as int) * weight_sum(
            weights_a,
            a.len() as int,
        ),
{
    let n = a.len() as int;
    let m = b.len() as int;
    let ea = weighed_extent(a, weights_a, axis, n);
    let eb = weighed_extent(b, weights_b, axis, m);
    let wa = weight_sum(weights_a, n);
    let wb = weight_sum(weights_b, m);
    assert(n > 0 && m > 0);
    lemma_furthest_extent(a, axis, n);
    let top = choose|top: int| #[trigger] reaches_furthest(a, axis, n, top);
    let bound = a[top].dot(axis);
    assert forall|j: int| 0 <= j < m implies (#[trigger] b[j]).dot(axis) >= bound by {
        assert(a[top].dot(axis) <= b[j].dot(axis));
    }
    lemma_weighed_extent_bound(a, weights_a, axis, n, bound);
    lemma_weighed_extent_bound(b, weights_b, axis, m, bound);
    assert(ea * wb <= eb * wa) by (nonlinear_arith)
        requires
            ea <= bound * wa,
            eb >= bound * wb,
            wa > 0,
            wb > 0,
    ;
}

/// Points that all lie at or before `bound` along the axis have their
/// weighted mean there too, and likewise at or after it.
pub proof fn lemma_weighed_extent_bound(
    points: Seq<Point>,
    weights: Seq<nat>,
    axis: Point,
    k: int,
    bound: int,
)
    requires
        0 <= k <= points.len(),
        k <= weights.len(),
    ensures
        (forall|i: int| 0 <= i < points.len() ==> (#[trigger] points[i]).dot(axis) <= bound)
            ==> weighed_extent(points, weights, axis, k) <= bound * weight_sum(weights, k),
        (forall|i: int| 0 <= i < points.len() ==> (#[trigger] points[i]).dot(axis) >= bound)
            ==> weighed_extent(points, weights, axis, k) >= bound * weight_sum(weights, k),
        weight_sum(weights, k) >= 0,
    decreases k,
{
    if k > 0 {
        lemma_weighed_extent_bound(points, weights, axis, k - 1, bound);
        let w = weights[k - 1] as int;
        let x = points[k - 1].dot(axis);
        let before = weight_sum(weights, k - 1);
        assert(bound * (before + w) == bound * before + bound * w) by (nonlinear_arith);
        if forall|i: int| 0 <= i < points.len() ==> (#[trigger] points[i]).dot(axis) <= bound {
            assert(points[k - 1].dot(axis) <= bound);
            assert(w * x <= bound * w) by (nonlinear_arith)
                requires
                    x <= bound,
                    w >= 0,
            ;
        }
        if forall|i: int| 0 <= i < points.len() ==> (#[trigger] points[i]).dot(axis) >= bound {
            assert(points[k - 1].dot(axis) >= bound);
            assert(w * x >= bound * w) by (nonlinear_arith)
                requires
                    x >= bound,
                    w >= 0,
            ;
        }
    } else {
        assert(bound * 0 == 0) by (nonlinear_arith);
    }
}

/// Whether point `top` is one of the first `k` points and none of them
/// reaches further along the axis.
pub open spec fn reaches_furthest(points: Seq<Point>, axis: Point, k: int, top: int) -> bool {
    &&& 0 <= top < k
    &&& forall|i: int| 0 <= i < k ==> (#[trigger] points[i]).dot(axis) <= points[top].dot(axis)
}

/// Among the first `k` points one reaches furthest along the axis.
pub proof fn lemma_furthest_extent(points: Seq<Point>, axis: Point, k: int)
    requires
        1 <= k <= points.len(),
    ensures
        exists|top: int| #[trigger] reaches_furthest(points, axis, k, top),
    decreases k,
{
    if k == 1 {
        assert(reaches_furthest(points, axis, 1, 0));
    } else {
        lemma_furthest_extent(points, axis, k - 1);
        let before = choose|top: int| #[trigger] reaches_furthest(points, axis, k - 1, top);
        let top = if points[k - 1].dot(axis) > points[before].dot(axis) {
            k - 1
        } else {
            before
        };
        assert(reaches_furthest(points, axis, k, top));
    }
}

} // verus!
