use vstd::prelude::*;
use vstd::arithmetic::div_mod::{
    lemma_fundamental_div_mod_converse, lemma_mod_self_0, lemma_small_mod,
};
use crate::arith::{div_floor, lemma_floor_bounds, SCALE_LIMIT};
use crate::vec2::{Point, Vec2, COORD_LIMIT};

verus! {

/// The sum of the first `k` vectors of `s`.
pub open spec fn prefix_sum(s: Seq<Point>, k: int) -> Point
    decreases k,
{
    if k <= 0 {
        Point::zero()
    } else {
        prefix_sum(s, k - 1).plus(s[k - 1])
    }
}

/// The sum of all vectors of `s`.
pub open spec fn path_sum(s: Seq<Point>) -> Point {
    prefix_sum(s, s.len() as int)
}

/// Whether the edges lead back to where they started.
pub open spec fn is_closed(edges: Seq<Point>) -> bool {
    path_sum(edges) == Point::zero()
}

/// The vertices that a walk along `edges` from the origin reaches, one after
/// each edge.
pub open spec fn walk(edges: Seq<Point>) -> Seq<Point> {
    Seq::new(edges.len(), |i: int| prefix_sum(edges, i + 1))
}

/// The edges between consecutive vertices of a closed loop, the last one
/// leading back to the first vertex.
pub open spec fn edges_between(vertices: Seq<Point>) -> Seq<Point> {
    Seq::new(
        vertices.len(),
        |i: int| vertices[(i + 1) % (vertices.len() as int)].minus(vertices[i]),
    )
}

/// Every vector of `s` has both coordinates in `-limit ..= limit`.
pub open spec fn all_within(s: Seq<Point>, limit: int) -> bool {
    forall|i: int| 0 <= i < s.len() ==> (#[trigger] s[i]).within(limit)
}

/// The views of a sequence of vectors.
pub open spec fn points_of(s: Seq<Vec2>) -> Seq<Point> {
    s.map_values(|v: Vec2| v@)
}

/// A partial sum of vectors within `limit` lies within `k * limit`.
pub proof fn lemma_prefix_sum_within(s: Seq<Point>, k: int, limit: int)
    requires
        0 <= k <= s.len(),
        0 <= limit,
        all_within(s, limit),
    ensures
        prefix_sum(s, k).within(k * limit),
    decreases k,
{
    if k > 0 {
        lemma_prefix_sum_within(s, k - 1, limit);
        assert(s[k - 1].within(limit));
        assert((k - 1) * limit + limit == k * limit) by (nonlinear_arith);
    } else {
        assert(0 * limit == 0);
    }
}

/// A partial sum depends only on the vectors that it adds.
pub proof fn lemma_prefix_sum_agrees(s: Seq<Point>, t: Seq<Point>, k: int)
    requires
        0 <= k <= s.len(),
        k <= t.len(),
        forall|i: int| 0 <= i < k ==> s[i] == t[i],
    ensures
        prefix_sum(s, k) == prefix_sum(t, k),
    decreases k,
{
    if k > 0 {
        lemma_prefix_sum_agrees(s, t, k - 1);
    }
}

/// The edges between the vertices of a loop add up to nothing.
pub proof fn lemma_edges_between_closed(vertices: Seq<Point>)
    ensures
        is_closed(edges_between(vertices)),
{
    let n = vertices.len() as int;
    let e = edges_between(vertices);
    if n > 0 {
        lemma_edges_between_prefix(vertices, n - 1);
        assert((n - 1 + 1) % n == 0) by {
            lemma_mod_self_0(n);
        }
        assert(e[n - 1] == vertices[0].minus(vertices[n - 1]));
    }
}

/// The first `k` edges between the vertices of a loop lead from the first
/// vertex to the one with index `k`.
pub proof fn lemma_edges_between_prefix(vertices: Seq<Point>, k: int)
    requires
        0 <= k < vertices.len(),
    ensures
        prefix_sum(edges_between(vertices), k) == vertices[k].minus(vertices[0]),
    decreases k,
{
    let n = vertices.len() as int;
    if k > 0 {
        lemma_edges_between_prefix(vertices, k - 1);
        assert((k - 1 + 1) % n == k) by {
            lemma_small_mod(k as nat, n as nat);
        }
    }
}

/// Part `k` of an edge split into `n` parts that add up to the edge: the
/// points `k * e / n`, rounded down, are joined.
pub open spec fn sub_edge(e: Point, n: int, k: int) -> Point {
    Point {
        x: ((k + 1) * e.x) / n - (k * e.x) / n,
        y: ((k + 1) * e.y) / n - (k * e.y) / n,
    }
}

/// The edges with each one split into `n` parts.
pub open spec fn divided(edges: Seq<Point>, n: int) -> Seq<Point> {
    Seq::new((edges.len() * n) as nat, |i: int| sub_edge(edges[i / n], n, i % n))
}

/// The four edges of a rectangle, counter-clockwise from the corner that is
/// the lowest and leftmost while `axis` points to the right: `size.x` along
/// `axis`, then `size.y` along `axis` turned left, then both back.
pub open spec fn rect_edges(size: Point, axis: Point) -> Seq<Point> {
    let across = axis.scaled_to(size.x);
    let up = axis.turned_left().scaled_to(size.y);
    seq![across, up, across.negated(), up.negated()]
}

/// One coordinate of a part of an edge lies between zero and the edge's.
pub proof fn lemma_sub_edge_between(e: int, n: int, k: int, low: int, high: int)
    requires
        n >= 1,
        low <= 0 <= high,
        low <= e <= high,
    ensures
        low <= ((k + 1) * e) / n - (k * e) / n <= high,
{
    let upper = ((k + 1) * e) / n;
    let lower = (k * e) / n;
    lemma_floor_bounds((k + 1) * e, n);
    lemma_floor_bounds(k * e, n);
    assert((k + 1) * e == k * e + e) by (nonlinear_arith);
    let d = upper - lower;
    assert(d * n == upper * n - lower * n) by (nonlinear_arith)
        requires
            d == upper - lower,
    ;
    if d > high {
        assert(d * n >= high * n + n) by (nonlinear_arith)
            requires
                d >= high + 1,
                n >= 1,
        ;
        assert(high * n >= high) by (nonlinear_arith)
            requires
                high >= 0,
                n >= 1,
        ;
    }
    if d < low {
        assert(d * n <= low * n - n) by (nonlinear_arith)
            requires
                d <= low - 1,
                n >= 1,
        ;
        assert(low * n <= low) by (nonlinear_arith)
            requires
                low <= 0,
                n >= 1,
        ;
    }
}

/// The parts of an edge are no longer than the edge.
pub proof fn lemma_divided_within(edges: Seq<Point>, n: int, limit: int)
    requires
        n >= 1,
        0 <= limit,
        all_within(edges, limit),
    ensures
        all_within(divided(edges, n), limit),
{
    let d = divided(edges, n);
    assert forall|i: int| 0 <= i < d.len() implies (#[trigger] d[i]).within(limit) by {
        let e = edges[i / n];
        assert(0 <= i / n < edges.len()) by {
            lemma_index_in_group(edges.len() as int, n, i);
        }
        assert(e.within(limit));
        lemma_sub_edge_between(e.x, n, i % n, -limit, limit);
        lemma_sub_edge_between(e.y, n, i % n, -limit, limit);
    }
}

/// Index `i` of `len * n` items in groups of `n` lies in one of the `len`
/// groups.
pub proof fn lemma_index_in_group(len: int, n: int, i: int)
    requires
        n >= 1,
        0 <= i < len * n,
    ensures
        0 <= i / n < len,
        0 <= i % n < n,
{
    lemma_floor_bounds(i, n);
    vstd::arithmetic::div_mod::lemma_mod_bound(i, n);
    let q = i / n;
    if q >= len {
        assert(q * n >= len * n) by (nonlinear_arith)
            requires
                q >= len,
                n >= 1,
        ;
    }
    if q < 0 {
        assert(q * n + n <= 0) by (nonlinear_arith)
            requires
                q <= -1,
                n >= 1,
        ;
    }
}

/// The first `j` parts of edge `k`, after all parts of the edges before it,
/// lead to the point `j * e / n` of that edge, rounded down.
pub proof fn lemma_divided_prefix(edges: Seq<Point>, n: int, k: int, j: int)
    requires
        n >= 1,
        0 <= k < edges.len(),
        0 <= j <= n,
    ensures
        prefix_sum(divided(edges, n), k * n + j) == prefix_sum(edges, k).plus(
            Point { x: (j * edges[k].x) / n, y: (j * edges[k].y) / n },
        ),
    decreases k, j,
{
    let parts = divided(edges, n);
    let e = edges[k];
    if j == 0 {
        assert(0 * e.x == 0 && 0 * e.y == 0) by (nonlinear_arith);
        assert(0int / n == 0) by {
            lemma_floor_unique_zero(n);
        }
        if k > 0 {
            lemma_divided_prefix(edges, n, k - 1, n);
            let before = edges[k - 1];
            assert((k - 1) * n + n == k * n + 0) by (nonlinear_arith);
            lemma_whole_quotient(before.x, n);
            lemma_whole_quotient(before.y, n);
        } else {
            assert(0 * n + 0 == 0) by (nonlinear_arith);
        }
    } else {
        lemma_divided_prefix(edges, n, k, j - 1);
        let at = k * n + j - 1;
        assert(0 <= at < edges.len() * n) by (nonlinear_arith)
            requires
                at == k * n + j - 1,
                0 <= k < edges.len(),
                1 <= j <= n,
        ;
        assert(at / n == k && at % n == j - 1) by {
            assert(k * n == n * k) by (nonlinear_arith);
            lemma_fundamental_div_mod_converse(at, n, k, j - 1);
        }
        assert(parts[at] == sub_edge(e, n, j - 1));
        assert(prefix_sum(parts, at + 1) == prefix_sum(parts, at).plus(parts[at]));
    }
}

/// Nothing divided by a positive number is nothing.
proof fn lemma_floor_unique_zero(n: int)
    requires
        n >= 1,
    ensures
        0int / n == 0,
{
    crate::arith::lemma_floor_unique(0, n, 0);
}

/// `n * e / n` is `e`.
proof fn lemma_whole_quotient(e: int, n: int)
    requires
        n >= 1,
    ensures
        (n * e) / n == e,
{
    assert(e * n == n * e) by (nonlinear_arith);
    crate::arith::lemma_floor_unique(n * e, n, e);
}

/// The parts of the edges add up to what the edges add up to: splitting the
/// edges of a closed outline leaves it closed.
pub proof fn lemma_divided_sum(edges: Seq<Point>, n: int)
    requires
        n >= 1,
    ensures
        path_sum(divided(edges, n)) == path_sum(edges),
{
    let len = edges.len() as int;
    if len > 0 {
        lemma_divided_prefix(edges, n, len - 1, n);
        lemma_whole_quotient(edges[len - 1].x, n);
        lemma_whole_quotient(edges[len - 1].y, n);
        assert((len - 1) * n + n == len * n) by (nonlinear_arith);
    } else {
        assert(0 * n == 0) by (nonlinear_arith);
    }
}

/// What splitting does to edge `i`: part `k` of it is the `n`-th of the edge
/// where `n` divides its coordinates, and within one grid unit of that
/// else; and the `n` parts together lead as far as the edge.
pub proof fn lemma_divided_parts(edges: Seq<Point>, n: int, i: int, k: int)
    requires
        n >= 1,
        0 <= i < edges.len(),
        0 <= k < n,
    ensures
        divided(edges, n).len() == edges.len() * n,
        0 <= i * n + k < edges.len() * n,
        divided(edges, n)[i * n + k] == sub_edge(edges[i], n, k),
        -n < n * divided(edges, n)[i * n + k].x - edges[i].x < n,
        -n < n * divided(edges, n)[i * n + k].y - edges[i].y < n,
        edges[i].x % n == 0 && edges[i].y % n == 0 ==> divided(edges, n)[i * n + k] == (Point {
            x: edges[i].x / n,
            y: edges[i].y / n,
        }),
        prefix_sum(divided(edges, n), (i + 1) * n) == prefix_sum(divided(edges, n), i * n).plus(
            edges[i],
        ),
{
    let e = edges[i];
    let at = i * n + k;
    assert(0 <= at < edges.len() * n) by (nonlinear_arith)
        requires
            at == i * n + k,
            0 <= i < edges.len(),
            0 <= k < n,
    ;
    assert(at / n == i && at % n == k) by {
        assert(i * n == n * i) by (nonlinear_arith);
        lemma_fundamental_div_mod_converse(at, n, i, k);
    }
    lemma_floor_bounds((k + 1) * e.x, n);
    lemma_floor_bounds(k * e.x, n);
    lemma_floor_bounds((k + 1) * e.y, n);
    lemma_floor_bounds(k * e.y, n);
    let part = sub_edge(e, n, k);
    assert(-n < n * part.x - e.x < n) by (nonlinear_arith)
        requires
            part.x == ((k + 1) * e.x) / n - (k * e.x) / n,
            (((k + 1) * e.x) / n) * n <= (k + 1) * e.x < (((k + 1) * e.x) / n) * n + n,
            ((k * e.x) / n) * n <= k * e.x < ((k * e.x) / n) * n + n,
    ;
    assert(-n < n * part.y - e.y < n) by (nonlinear_arith)
        requires
            part.y == ((k + 1) * e.y) / n - (k * e.y) / n,
            (((k + 1) * e.y) / n) * n <= (k + 1) * e.y < (((k + 1) * e.y) / n) * n + n,
            ((k * e.y) / n) * n <= k * e.y < ((k * e.y) / n) * n + n,
    ;
    if e.x % n == 0 && e.y % n == 0 {
        lemma_sub_edge_exact(e, n, k);
    }
    lemma_divided_prefix(edges, n, i, n);
    lemma_divided_prefix(edges, n, i, 0);
    lemma_whole_quotient(e.x, n);
    lemma_whole_quotient(e.y, n);
    lemma_floor_unique_zero(n);
    assert((i + 1) * n == i * n + n && 0 * e.x == 0 && 0 * e.y == 0) by (nonlinear_arith);
}

/// Edges split into one part each are the edges.
pub proof fn lemma_divided_by_one(edges: Seq<Point>)
    ensures
        divided(edges, 1) == edges,
{
    let parts = divided(edges, 1);
    assert(parts.len() == edges.len()) by (nonlinear_arith)
        requires
            parts.len() == edges.len() * 1,
    ;
    assert forall|i: int| 0 <= i < edges.len() implies parts[i] == edges[i] by {
        assert(1 * edges[i].x == edges[i].x && 0 * edges[i].x == 0 && 1 * edges[i].y == edges[i].y
            && 0 * edges[i].y == 0) by (nonlinear_arith);
    }
    assert(parts =~= edges);
}

/// The parts of an edge whose coordinates `n` divides are all the `n`-th of
/// the edge.
pub proof fn lemma_sub_edge_exact(e: Point, n: int, k: int)
    requires
        n >= 1,
        e.x % n == 0,
        e.y % n == 0,
    ensures
        sub_edge(e, n, k) == (Point { x: e.x / n, y: e.y / n }),
{
    lemma_multiple_quotient(e.x, n, k);
    lemma_multiple_quotient(e.x, n, k + 1);
    lemma_multiple_quotient(e.y, n, k);
    lemma_multiple_quotient(e.y, n, k + 1);
    assert((k + 1) * (e.x / n) - k * (e.x / n) == e.x / n) by (nonlinear_arith);
    assert((k + 1) * (e.y / n) - k * (e.y / n) == e.y / n) by (nonlinear_arith);
}

/// Where `n` divides `e`, `k * e / n` is `k` times `e / n`.
pub proof fn lemma_multiple_quotient(e: int, n: int, k: int)
    requires
        n >= 1,
        e % n == 0,
    ensures
        (k * e) / n == k * (e / n),
{
    vstd::arithmetic::div_mod::lemma_fundamental_div_mod(e, n);
    let q = e / n;
    assert(k * e == (k * q) * n + 0) by (nonlinear_arith)
        requires
            e == n * q,
    ;
    lemma_fundamental_div_mod_converse(k * e, n, k * q, 0);
}

/// A multiple of a coordinate by a count of parts fits in 128 bits.
proof fn lemma_multiple_fits(k: int, e: int)
    by (nonlinear_arith)
    requires
        0 <= k <= 0x1_0000_0000,
        -0x8000_0000_0000_0000 <= e <= 0x8000_0000_0000_0000,
    ensures
        -0x8000_0000_0000_0000_0000_0000 <= k * e <= 0x8000_0000_0000_0000_0000_0000,
{
}

/// A polygon represented by its edge vectors, in counter-clockwise order.
#[derive(Debug)]
pub struct EdgeVectors(pub Vec<Vec2>);

impl Clone for EdgeVectors {
    fn clone(&self) -> (copy: Self)
        ensures
            copy@ == self@,
    {
        let copy = EdgeVectors(self.0.clone());
        proof {
            assert(copy@ =~= self@);
        }
        copy
    }
}

impl View for EdgeVectors {
    type V = Seq<Point>;

    open spec fn view(&self) -> Seq<Point> {
        points_of(self.0@)
    }
}

impl EdgeVectors {
    /// The number of edges.
    pub fn len(&self) -> (n: usize)
        ensures
            n == self@.len(),
    {
        self.0.len()
    }

    /// Whether every edge has both coordinates in `-limit ..= limit`.
    pub fn is_within(&self, limit: i64) -> (r: bool)
        requires
            0 <= limit,
        ensures
            r == all_within(self@, limit as int),
    {
        let mut i: usize = 0;
        while i < self.0.len()
            invariant
                0 <= i <= self.0.len(),
                0 <= limit,
                forall|j: int| 0 <= j < i ==> (#[trigger] self@[j]).within(limit as int),
            decreases self.0.len() - i,
        {
            if !self.0[i].is_within(limit) {
                assert(!self@[i as int].within(limit as int));
                return false;
            }
            i += 1;
        }
        true
    }

    /// Construct from the vertices of a closed loop: each edge leads from one
    /// vertex to the next, the last one back to the first.
    pub fn from_vertices(vertices: &[Vec2]) -> (edges: EdgeVectors)
        requires
            all_within(points_of(vertices@), COORD_LIMIT as int),
        ensures
            edges@ == edges_between(points_of(vertices@)),
            is_closed(edges@),
            all_within(edges@, 2 * COORD_LIMIT),
    {
        let n: usize = vertices.len();
        let mut edges: Vec<Vec2> = Vec::with_capacity(n);
        let ghost points = points_of(vertices@);
        let mut i: usize = 0;
        while i < n
            invariant
                0 <= i <= n,
                n == vertices@.len(),
                points == points_of(vertices@),
                all_within(points, COORD_LIMIT as int),
                edges@.len() == i,
                forall|j: int|
                    0 <= j < i ==> (#[trigger] edges@[j])@ == points[(j + 1) % (n as int)].minus(
                        points[j],
                    ),
            decreases n - i,
        {
            let a: Vec2 = vertices[i];
            let next: usize = if i + 1 == n { 0 } else { i + 1 };
            let b: Vec2 = vertices[next];
            proof {
                if i + 1 == n {
                    lemma_mod_self_0(n as int);
                } else {
                    lemma_small_mod((i + 1) as nat, n as nat);
                }
                assert(points[i as int].within(COORD_LIMIT as int));
                assert(points[next as int].within(COORD_LIMIT as int));
            }
            edges.push(b.minus(&a));
            i += 1;
        }
        let result = EdgeVectors(edges);
        proof {
            assert(result@ =~= edges_between(points));
            lemma_edges_between_closed(points);
            assert forall|j: int| 0 <= j < result@.len() implies (#[trigger] result@[j]).within(
                2 * COORD_LIMIT,
            ) by {
                assert(points[j].within(COORD_LIMIT as int));
                assert(points[(j + 1) % (n as int)].within(COORD_LIMIT as int));
            }
        }
        result
    }

    /// The four edges of a rectangle of the given size whose local x axis
    /// points along `axis` (`(1, 0)` for no rotation), each edge split into
    /// `subdivisions` parts where that is given.
    pub fn with_rect_size_rotation(size: Vec2, axis: Vec2, subdivisions: Option<u32>) -> (edges:
        EdgeVectors)
        requires
            size@.within(SCALE_LIMIT as int),
            axis@.within(SCALE_LIMIT as int),
        ensures
            edges@ == match subdivisions {
                Some(n) => divided(rect_edges(size@, axis@), n as int),
                None => rect_edges(size@, axis@),
            },
            all_within(edges@, SCALE_LIMIT as int),
            subdivisions != Some(0u32) ==> is_closed(edges@),
    {
        let across: Vec2 = axis.scaled_to(size.x);
        let up: Vec2 = axis.turned_left().scaled_to(size.y);
        let mut sides: Vec<Vec2> = Vec::with_capacity(4);
        sides.push(across);
        sides.push(up);
        sides.push(across.negated());
        sides.push(up.negated());
        let rect = EdgeVectors(sides);
        proof {
            assert(rect@ =~= rect_edges(size@, axis@));
            assert(is_closed(rect@)) by {
                reveal_with_fuel(prefix_sum, 5);
            }
        }
        match subdivisions {
            Some(n) => {
                proof {
                    if n >= 1 {
                        lemma_divided_within(rect@, n as int, SCALE_LIMIT as int);
                    }
                }
                rect.divide(n)
            },
            None => rect,
        }
    }

    /// Divide each edge vector into `n` parts that add up to it.
    pub fn divide(&self, n: u32) -> (edges: EdgeVectors)
        ensures
            edges@ == divided(self@, n as int),
            edges@.len() == self@.len() * n,
            n >= 1 ==> path_sum(edges@) == path_sum(self@),
            n == 1 ==> edges@ == self@,
    {
        proof {
            if n >= 1 {
                lemma_divided_sum(self@, n as int);
            }
            if n == 1 {
                lemma_divided_by_one(self@);
            }
        }
        let len: usize = self.0.len();
        let mut edges: Vec<Vec2> = Vec::new();
        let wide_n: i128 = n as i128;
        let mut i: usize = 0;
        while i < len
            invariant
                0 <= i <= len,
                len == self@.len(),
                wide_n == n,
                edges@.len() == i * n,
                forall|j: int|
                    0 <= j < i * n ==> (#[trigger] edges@[j])@ == sub_edge(
                        self@[j / (n as int)],
                        n as int,
                        j % (n as int),
                    ),
            decreases len - i,
        {
            let e: Vec2 = self.0[i];
            let mut k: u32 = 0;
            while k < n
                invariant
                    0 <= k <= n,
                    0 <= i < len,
                    len == self@.len(),
                    wide_n == n,
                    e == self.0@[i as int],
                    edges@.len() == i * n + k,
                    forall|j: int|
                        0 <= j < i * n + k ==> (#[trigger] edges@[j])@ == sub_edge(
                            self@[j / (n as int)],
                            n as int,
                            j % (n as int),
                        ),
                decreases n - k,
            {
                let wide_k: i128 = k as i128;
                proof {
                    lemma_multiple_fits(k as int, e.x as int);
                    lemma_multiple_fits(k as int, e.y as int);
                    lemma_multiple_fits(k + 1, e.x as int);
                    lemma_multiple_fits(k + 1, e.y as int);
                }
                let x1: i128 = div_floor((wide_k + 1) * (e.x as i128), wide_n);
                let x0: i128 = div_floor(wide_k * (e.x as i128), wide_n);
                let y1: i128 = div_floor((wide_k + 1) * (e.y as i128), wide_n);
                let y0: i128 = div_floor(wide_k * (e.y as i128), wide_n);
                proof {
                    lemma_sub_edge_between(
                        e.x as int,
                        n as int,
                        k as int,
                        i64::MIN as int,
                        i64::MAX as int,
                    );
                    lemma_sub_edge_between(
                        e.y as int,
                        n as int,
                        k as int,
                        i64::MIN as int,
                        i64::MAX as int,
                    );
                    let j = i * n + k;
                    assert(j / (n as int) == i && j % (n as int) == k) by {
                        assert(i * n == n * i) by (nonlinear_arith);
                        lemma_fundamental_div_mod_converse(j, n as int, i as int, k as int);
                    }
                    assert(self@[i as int] == e@);
                }
                edges.push(Vec2 { x: (x1 - x0) as i64, y: (y1 - y0) as i64 });
                k += 1;
            }
            proof {
                assert(i * n + n == (i + 1) * n) by (nonlinear_arith);
            }
            i += 1;
        }
        let result = EdgeVectors(edges);
        proof {
            assert(len * n == self@.len() * n);
            assert(result@ =~= divided(self@, n as int));
        }
        result
    }

    /// The vertices in local space: the points that a walk along the edges
    /// from the origin reaches, one after each edge.
    pub fn local_vertices(&self) -> (vertices: Vec<Vec2>)
        requires
            forall|k: int|
                0 <= k <= self@.len() ==> (#[trigger] prefix_sum(self@, k)).within(i64::MAX as int),
        ensures
            points_of(vertices@) == walk(self@),
    {
        let n: usize = self.0.len();
        let mut vertices: Vec<Vec2> = Vec::with_capacity(n);
        let mut position: Vec2 = Vec2::zero();
        let mut i: usize = 0;
        while i < n
            invariant
                0 <= i <= n,
                n == self@.len(),
                position@ == prefix_sum(self@, i as int),
                vertices@.len() == i,
                forall|k: int|
                    0 <= k <= self@.len() ==> (#[trigger] prefix_sum(self@, k)).within(
                        i64::MAX as int,
                    ),
                forall|j: int| 0 <= j < i ==> (#[trigger] vertices@[j])@ == prefix_sum(self@, j + 1),
            decreases n - i,
        {
            proof {
                assert(prefix_sum(self@, i + 1).within(i64::MAX as int));
                assert(self@[i as int] == self.0@[i as int]@);
            }
            position = position.plus(&self.0[i]);
            vertices.push(position);
            i += 1;
        }
        proof {
            assert(points_of(vertices@) =~= walk(self@));
        }
        vertices
    }
}

} // verus!
