use vstd::prelude::*;
use crate::arith::{div_floor, lemma_floor_bounds, lemma_floor_unique};
use crate::outline::{
    all_within, lemma_prefix_sum_within, path_sum, points_of, prefix_sum, walk, EdgeVectors,
};
use crate::vec2::{Point, Vec2, COORD_LIMIT};

verus! {

/// Largest number of edges of a positioned outline.
pub const SHAPE_MAX_EDGES: usize = 0x1000;

/// Largest absolute coordinate of an edge of a positioned outline.
pub const SHAPE_EDGE_LIMIT: i64 = 0x4000_0000_0000;

/// Largest absolute coordinate of the translation of a positioned outline.
pub const SHAPE_TRANSLATION_LIMIT: i64 = 0x1000_0000_0000_0000;

/// The mean of the vertices, each coordinate rounded down.
pub open spec fn centroid(vertices: Seq<Point>) -> Point {
    let total = path_sum(vertices);
    let n = vertices.len() as int;
    Point { x: total.x / n, y: total.y / n }
}

/// The points of `s`, each moved by `by`.
pub open spec fn moved(s: Seq<Point>, by: Point) -> Seq<Point> {
    Seq::new(s.len(), |i: int| s[i].plus(by))
}

/// A positioned outline, as mathematical values.
pub struct Shape {
    pub translation: Point,
    pub edges: Seq<Point>,
}

impl Shape {
    /// The vertices in world space: the local vertices moved so that their
    /// centroid comes to lie on `translation`.
    pub open spec fn vertices(self) -> Seq<Point> {
        let local = walk(self.edges);
        moved(local, self.translation.minus(centroid(local)))
    }

    /// Whether the shape is small enough for its vertices to be computed:
    /// few enough edges, none too long, and not too far from the origin.
    pub open spec fn fits(self) -> bool {
        &&& self.edges.len() <= SHAPE_MAX_EDGES
        &&& all_within(self.edges, SHAPE_EDGE_LIMIT as int)
        &&& self.translation.within(SHAPE_TRANSLATION_LIMIT as int)
    }
}

/// An outline at a place: the translation is where the centroid of its
/// vertices lies.
#[derive(Debug)]
pub struct ShapePosition {
    pub translation: Vec2,
    pub edges: EdgeVectors,
}

impl View for ShapePosition {
    type V = Shape;

    open spec fn view(&self) -> Shape {
        Shape { translation: self.translation@, edges: self.edges@ }
    }
}

impl Clone for ShapePosition {
    fn clone(&self) -> (copy: Self)
        ensures
            copy@ == self@,
    {
        ShapePosition { translation: self.translation, edges: self.edges.clone() }
    }
}

impl ShapePosition {
    /// Whether the shape is small enough for its vertices to be computed.
    pub fn is_fitting(&self) -> (r: bool)
        ensures
            r == self@.fits(),
    {
        self.edges.len() <= SHAPE_MAX_EDGES && self.edges.is_within(SHAPE_EDGE_LIMIT)
            && self.translation.is_within(SHAPE_TRANSLATION_LIMIT)
    }

    /// The vertices in world space: the local vertices moved so that their
    /// centroid comes to lie on `translation`.
    pub fn vertices(&self) -> (vertices: Vec<Vec2>)
        requires
            self@.fits(),
        ensures
            points_of(vertices@) == self@.vertices(),
            all_within(points_of(vertices@), COORD_LIMIT as int),
            vertices@.len() == self@.edges.len(),
            vertices@.len() >= 1 ==> centroid(points_of(vertices@)) == self@.translation,
    {
        proof {
            if self@.edges.len() >= 1 {
                lemma_vertices_centered(self@);
                lemma_vertices_reach(
                    self@,
                    SHAPE_EDGE_LIMIT as int,
                    SHAPE_TRANSLATION_LIMIT as int,
                );
                assert(self@.edges.len() * SHAPE_EDGE_LIMIT <= SHAPE_MAX_EDGES * SHAPE_EDGE_LIMIT)
                    by (nonlinear_arith)
                    requires
                        0 <= self@.edges.len() <= SHAPE_MAX_EDGES,
                ;
            }
            assert forall|k: int| 0 <= k <= self.edges@.len() implies (#[trigger] prefix_sum(
                self.edges@,
                k,
            )).within(i64::MAX as int) by {
                lemma_prefix_sum_within(self.edges@, k, SHAPE_EDGE_LIMIT as int);
                assert(k * SHAPE_EDGE_LIMIT <= SHAPE_MAX_EDGES * SHAPE_EDGE_LIMIT)
                    by (nonlinear_arith)
                    requires
                        0 <= k <= SHAPE_MAX_EDGES,
                ;
            }
        }
        let mut vertices: Vec<Vec2> = self.edges.local_vertices();
        let n: usize = vertices.len();
        if n == 0 {
            proof {
                assert(points_of(vertices@) =~= self@.vertices());
            }
            return vertices;
        }
        let ghost local = points_of(vertices@);
        proof {
            assert(local.len() == n);
            assert(all_within(local, COORD_LIMIT as int)) by {
                assert forall|i: int| 0 <= i < local.len() implies (#[trigger] local[i]).within(
                    COORD_LIMIT as int,
                ) by {
                    assert(walk(self.edges@)[i].within(SHAPE_MAX_EDGES * SHAPE_EDGE_LIMIT));
                }
            }
        }
        let middle: Vec2 = calculate_centroid(vertices.as_slice());
        let by: Vec2 = self.translation.minus(&middle);
        let mut i: usize = 0;
        while i < n
            invariant
                0 <= i <= n,
                n == vertices@.len(),
                n == local.len(),
                local == walk(self.edges@),
                all_within(local, SHAPE_MAX_EDGES * SHAPE_EDGE_LIMIT),
                by@ == self.translation@.minus(centroid(local)),
                by@.within(SHAPE_TRANSLATION_LIMIT + SHAPE_MAX_EDGES * SHAPE_EDGE_LIMIT),
                forall|j: int| 0 <= j < i ==> (#[trigger] vertices@[j])@ == local[j].plus(by@),
                forall|j: int| i <= j < n ==> (#[trigger] vertices@[j])@ == local[j],
            decreases n - i,
        {
            proof {
                assert(local[i as int].within(SHAPE_MAX_EDGES * SHAPE_EDGE_LIMIT));
            }
            let at: Vec2 = vertices[i].plus(&by);
            vertices.set(i, at);
            i += 1;
        }
        proof {
            assert(points_of(vertices@) =~= self@.vertices());
        }
        vertices
    }
}

/// The mean of the vertices, each coordinate rounded down.
pub fn calculate_centroid(vertices: &[Vec2]) -> (c: Vec2)
    requires
        vertices@.len() >= 1,
        all_within(points_of(vertices@), COORD_LIMIT as int),
    ensures
        c@ == centroid(points_of(vertices@)),
        forall|limit: int|
            0 <= limit && #[trigger] all_within(points_of(vertices@), limit) ==> c@.within(limit),
{
    let n: usize = vertices.len();
    let ghost points = points_of(vertices@);
    let mut total_x: i128 = 0;
    let mut total_y: i128 = 0;
    let mut i: usize = 0;
    while i < n
        invariant
            0 <= i <= n,
            n == vertices@.len(),
            points == points_of(vertices@),
            all_within(points, COORD_LIMIT as int),
            total_x == prefix_sum(points, i as int).x,
            total_y == prefix_sum(points, i as int).y,
        decreases n - i,
    {
        proof {
            lemma_prefix_sum_within(points, i as int, COORD_LIMIT as int);
            lemma_total_fits(i as int);
            assert(points[i as int].within(COORD_LIMIT as int));
            assert(points[i as int] == vertices@[i as int]@);
        }
        total_x = total_x + vertices[i].x as i128;
        total_y = total_y + vertices[i].y as i128;
        i += 1;
    }
    proof {
        lemma_prefix_sum_within(points, n as int, COORD_LIMIT as int);
        lemma_total_fits(n as int);
        lemma_mean_within(total_x as int, n as int, COORD_LIMIT as int);
        lemma_mean_within(total_y as int, n as int, COORD_LIMIT as int);
    }
    let x: i128 = div_floor(total_x, n as i128);
    let y: i128 = div_floor(total_y, n as i128);
    let c = Vec2 { x: x as i64, y: y as i64 };
    proof {
        assert forall|limit: int| 0 <= limit && #[trigger] all_within(points, limit) implies c@.within(
            limit,
        ) by {
            lemma_prefix_sum_within(points, n as int, limit);
            lemma_mean_within(total_x as int, n as int, limit);
            lemma_mean_within(total_y as int, n as int, limit);
        }
    }
    c
}

/// The centroid of the world-space vertices of a shape is its translation.
pub proof fn lemma_vertices_centered(shape: Shape)
    requires
        shape.edges.len() >= 1,
    ensures
        centroid(shape.vertices()) == shape.translation,
{
    let local = walk(shape.edges);
    let n = local.len() as int;
    let c = centroid(local);
    let by = shape.translation.minus(c);
    let total = path_sum(local);
    lemma_prefix_sum_moved(local, by, n);
    let world = path_sum(shape.vertices());
    assert(world == total.plus(Point { x: n * by.x, y: n * by.y }));
    lemma_floor_bounds(total.x, n);
    lemma_floor_bounds(total.y, n);
    assert(shape.translation.x * n <= world.x < shape.translation.x * n + n) by (nonlinear_arith)
        requires
            world.x == total.x + n * (shape.translation.x - c.x),
            c.x * n <= total.x < c.x * n + n,
    ;
    assert(shape.translation.y * n <= world.y < shape.translation.y * n + n) by (nonlinear_arith)
        requires
            world.y == total.y + n * (shape.translation.y - c.y),
            c.y * n <= total.y < c.y * n + n,
    ;
    lemma_floor_unique(world.x, n, shape.translation.x);
    lemma_floor_unique(world.y, n, shape.translation.y);
}

/// Moving every point moves the centroid as far.
pub proof fn lemma_centroid_moved(s: Seq<Point>, by: Point)
    requires
        s.len() >= 1,
    ensures
        centroid(moved(s, by)) == centroid(s).plus(by),
{
    let n = s.len() as int;
    let total = path_sum(s);
    let c = centroid(s);
    lemma_prefix_sum_moved(s, by, n);
    let after = path_sum(moved(s, by));
    lemma_floor_bounds(total.x, n);
    lemma_floor_bounds(total.y, n);
    assert((c.x + by.x) * n <= after.x < (c.x + by.x) * n + n) by (nonlinear_arith)
        requires
            after.x == total.x + n * by.x,
            c.x * n <= total.x < c.x * n + n,
    ;
    assert((c.y + by.y) * n <= after.y < (c.y + by.y) * n + n) by (nonlinear_arith)
        requires
            after.y == total.y + n * by.y,
            c.y * n <= total.y < c.y * n + n,
    ;
    lemma_floor_unique(after.x, n, c.x + by.x);
    lemma_floor_unique(after.y, n, c.y + by.y);
}

/// The vertices of a shape lie no further from its translation than twice
/// the length of the walk along its edges.
pub proof fn lemma_vertices_reach(shape: Shape, edge_limit: int, translation_limit: int)
    requires
        shape.edges.len() >= 1,
        0 <= edge_limit,
        all_within(shape.edges, edge_limit),
        shape.translation.within(translation_limit),
    ensures
        all_within(walk(shape.edges), shape.edges.len() * edge_limit),
        centroid(walk(shape.edges)).within(shape.edges.len() * edge_limit),
        all_within(shape.vertices(), translation_limit + 2 * (shape.edges.len() * edge_limit)),
{
    let local = walk(shape.edges);
    let n = local.len() as int;
    let reach = n * edge_limit;
    assert(reach >= 0) by (nonlinear_arith)
        requires
            reach == n * edge_limit,
            n >= 0,
            edge_limit >= 0,
    ;
    assert forall|i: int| 0 <= i < n implies (#[trigger] local[i]).within(reach) by {
        lemma_prefix_sum_within(shape.edges, i + 1, edge_limit);
        assert((i + 1) * edge_limit <= reach) by (nonlinear_arith)
            requires
                0 <= i + 1 <= n,
                0 <= edge_limit,
                reach == n * edge_limit,
        ;
    }
    lemma_prefix_sum_within(local, n, reach);
    lemma_mean_within(path_sum(local).x, n, reach);
    lemma_mean_within(path_sum(local).y, n, reach);
    let world = shape.vertices();
    assert forall|i: int| 0 <= i < world.len() implies (#[trigger] world[i]).within(
        translation_limit + 2 * reach,
    ) by {
        assert(local[i].within(reach));
    }
}

/// Moving every point moves each partial sum by as many times as it has
/// points.
pub proof fn lemma_prefix_sum_moved(s: Seq<Point>, by: Point, k: int)
    requires
        0 <= k <= s.len(),
    ensures
        prefix_sum(moved(s, by), k) == prefix_sum(s, k).plus(Point { x: k * by.x, y: k * by.y }),
    decreases k,
{
    if k > 0 {
        lemma_prefix_sum_moved(s, by, k - 1);
        assert((k - 1) * by.x + by.x == k * by.x) by (nonlinear_arith);
        assert((k - 1) * by.y + by.y == k * by.y) by (nonlinear_arith);
    } else {
        assert(0 * by.x == 0 && 0 * by.y == 0);
    }
}

/// The partial sums of pointwise sums are the sums of the partial sums.
pub proof fn lemma_prefix_sum_added(a: Seq<Point>, b: Seq<Point>, sum: Seq<Point>, k: int)
    requires
        0 <= k <= a.len(),
        a.len() == b.len(),
        a.len() == sum.len(),
        forall|i: int| 0 <= i < a.len() ==> sum[i] == a[i].plus(b[i]),
    ensures
        prefix_sum(sum, k) == prefix_sum(a, k).plus(prefix_sum(b, k)),
    decreases k,
{
    if k > 0 {
        lemma_prefix_sum_added(a, b, sum, k - 1);
    }
}

/// A mean of `n` values between `-limit` and `limit` lies between them too.
pub proof fn lemma_mean_within(total: int, n: int, limit: int)
    requires
        n >= 1,
        -(n * limit) <= total <= n * limit,
    ensures
        -limit <= total / n <= limit,
{
    lemma_floor_bounds(total, n);
    let q = total / n;
    if q > limit {
        assert(q * n >= n * limit + n) by (nonlinear_arith)
            requires
                q >= limit + 1,
                n >= 1,
        ;
    }
    if q < -limit {
        assert(q * n + n <= -(n * limit)) by (nonlinear_arith)
            requires
                q <= -limit - 1,
                n >= 1,
        ;
    }
}

/// A sum of up to `usize::MAX` coordinates within the limit fits in 128 bits.
proof fn lemma_total_fits(k: int)
    by (nonlinear_arith)
    requires
        0 <= k <= 0xffff_ffff_ffff_ffff,
    ensures
        k * COORD_LIMIT <= 0x2000_0000_0000_0000_0000_0000_0000_0000,
        k * COORD_LIMIT >= 0,
{
}

} // verus!
