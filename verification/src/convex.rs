use vstd::prelude::*;
use crate::minkowski::{
    first_lowest, from_lowest, fused, is_first_lowest, lemma_first_lowest_unique,
    lemma_merged_at_least, lemma_merged_len, lemma_minkowski_closed, lemma_path_sum_joined, merged,
    minkowski, rotated,
};
use crate::offset::{lemma_upright_edges, upright_edges};
use crate::outline::{is_closed, lemma_prefix_sum_agrees, path_sum, prefix_sum, walk};
use crate::vec2::Point;

verus! {

/// Whether the vector points upwards, or to the right along the x axis: its
/// direction lies in the first half of a turn that begins at the x axis.
pub open spec fn points_up(e: Point) -> bool {
    e.y > 0 || (e.y == 0 && e.x > 0)
}

/// Whether both vectors point the same way.
pub open spec fn same_direction(u: Point, v: Point) -> bool {
    u.cross(v) == 0 && u.dot(v) > 0
}

/// Whether `v` points where `u` points or less than half a turn to the left
/// of it.
pub open spec fn turns_left_to(u: Point, v: Point) -> bool {
    u.cross(v) > 0 || same_direction(u, v)
}

/// Whether the direction of `u` comes at or before that of `v` in one turn
/// that begins at the x axis and goes to the left.
pub open spec fn comes_by(u: Point, v: Point) -> bool {
    (points_up(u) && !points_up(v)) || (points_up(u) == points_up(v) && u.cross(v) >= 0)
}

/// Whether `v` comes next after `u` in a walk that keeps turning left:
/// its direction comes at or after that of `u` in the turn, and less than
/// half a turn after it.
pub open spec fn follows(u: Point, v: Point) -> bool {
    comes_by(u, v) && turns_left_to(u, v)
}

/// Whether a walk along the edges keeps turning left: no edge is without
/// length, and every edge follows the one before it.
pub open spec fn keeps_turning(edges: Seq<Point>) -> bool {
    &&& forall|i: int| 0 <= i < edges.len() ==> !(#[trigger] edges[i]).is_zero()
    &&& forall|i: int| 0 <= i < edges.len() - 1 ==> follows(#[trigger] edges[i], edges[i + 1])
}

/// Whether a walk along the edges turns through the directions once: it
/// sets out upwards, or to the right along the x axis, and keeps turning
/// left within one turn.
pub open spec fn turns_once(edges: Seq<Point>) -> bool {
    keeps_turning(edges) && (edges.len() > 0 ==> points_up(edges[0]))
}

/// Whether no edge of the one sequence points the way of an edge of the
/// other.
pub open spec fn no_common_direction(a: Seq<Point>, b: Seq<Point>) -> bool {
    forall|i: int, j: int|
        0 <= i < a.len() && 0 <= j < b.len() ==> !same_direction(#[trigger] a[i], #[trigger] b[j])
}

/// Whether the edges are those of a convex outline that is walked counter-
/// clockwise: the outline is closed, and the walk along its edges from the
/// lowest vertex turns through the directions once.
pub open spec fn is_convex(edges: Seq<Point>) -> bool {
    &&& edges.len() >= 1
    &&& is_closed(edges)
    &&& turns_once(from_lowest(edges))
}

/// The Minkowski sum of two convex outlines is convex. Where no edge of the
/// one points the way of an edge of the other, it has as many edges as both
/// together.
pub proof fn lemma_sum_of_convex_is_convex(a: Seq<Point>, b: Seq<Point>)
    requires
        is_convex(a),
        is_convex(b),
    ensures
        is_convex(minkowski(a, b)),
        minkowski(a, b) == merged(from_lowest(a), from_lowest(b)),
        no_common_direction(a, b) ==> minkowski(a, b).len() == a.len() + b.len(),
{
    let left = from_lowest(a);
    let right = from_lowest(b);
    let sum = merged(left, right);
    let east = Point { x: 1, y: 0 };
    lemma_minkowski_closed(a, b);
    lemma_follows_east(left[0]);
    lemma_follows_east(right[0]);
    lemma_merged_keeps_turning(left, right, east);
    lemma_merged_at_least(left, right);
    lemma_follows_east(sum[0]);
    lemma_starts_at_lowest(sum);
    if no_common_direction(a, b) {
        assert(no_common_direction(left, right)) by {
            let n = a.len() as int;
            let m = b.len() as int;
            let from_a = (first_lowest(walk(a)) + 1) % n;
            let from_b = (first_lowest(walk(b)) + 1) % m;
            assert forall|i: int, j: int|
                0 <= i < left.len() && 0 <= j < right.len() implies !same_direction(
                #[trigger] left[i],
                #[trigger] right[j],
            ) by {
                vstd::arithmetic::div_mod::lemma_mod_bound(from_a + i, n);
                vstd::arithmetic::div_mod::lemma_mod_bound(from_b + j, m);
                assert(!same_direction(a[(from_a + i) % n], b[(from_b + j) % m]));
            }
        }
        lemma_merged_len(left, right);
    }
}

/// An upright rectangle is convex.
pub proof fn lemma_upright_is_convex(size: Point)
    requires
        size.x > 0,
        size.y > 0,
    ensures
        is_convex(upright_edges(size)),
        from_lowest(upright_edges(size)) == upright_edges(size),
{
    let edges = upright_edges(size);
    lemma_upright_edges(size);
    assert(edges[0].cross(edges[1]) > 0 && edges[1].cross(edges[2]) > 0 && edges[2].cross(edges[3])
        > 0) by (nonlinear_arith)
        requires
            size.x > 0,
            size.y > 0,
            edges[0] == (Point { x: size.x, y: 0 }),
            edges[1] == (Point { x: 0, y: size.y }),
            edges[2] == (Point { x: -size.x, y: 0 }),
            edges[3] == (Point { x: 0, y: -size.y }),
            edges[0].cross(edges[1]) == edges[0].x * edges[1].y - edges[0].y * edges[1].x,
            edges[1].cross(edges[2]) == edges[1].x * edges[2].y - edges[1].y * edges[2].x,
            edges[2].cross(edges[3]) == edges[2].x * edges[3].y - edges[2].y * edges[3].x,
    ;
    assert(turns_once(edges)) by {
        assert forall|i: int| 0 <= i < edges.len() - 1 implies follows(
            #[trigger] edges[i],
            edges[i + 1],
        ) by {
            if i == 0 {
            } else if i == 1 {
            } else {
                assert(i == 2);
            }
        }
    }
    lemma_starts_at_lowest(edges);
}

/// A direction follows the one along the x axis to the right just where it
/// points up.
pub proof fn lemma_follows_east(e: Point)
    ensures
        follows(Point { x: 1, y: 0 }, e) == points_up(e),
{
    let east = Point { x: 1, y: 0 };
    assert(east.cross(e) == e.y && east.dot(e) == e.x) by (nonlinear_arith)
        requires
            east.cross(e) == 1 * e.y - 0 * e.x,
            east.dot(e) == 1 * e.x + 0 * e.y,
    ;
}

/// In a walk that keeps turning left the edges that point up come first.
pub proof fn lemma_up_comes_first(edges: Seq<Point>, i: int, j: int)
    requires
        keeps_turning(edges),
        0 <= i <= j < edges.len(),
    ensures
        points_up(edges[j]) ==> points_up(edges[i]),
    decreases j - i,
{
    if i < j {
        assert(follows(edges[j - 1], edges[j]));
        lemma_up_comes_first(edges, i, j - 1);
    }
}

/// Vectors that point up add up to one that points up.
pub proof fn lemma_sum_points_up(edges: Seq<Point>, k: int)
    requires
        1 <= k <= edges.len(),
        forall|i: int| 0 <= i < k ==> points_up(#[trigger] edges[i]),
    ensures
        points_up(prefix_sum(edges, k)),
    decreases k,
{
    assert(points_up(edges[k - 1]));
    if k > 1 {
        lemma_sum_points_up(edges, k - 1);
    } else {
        assert(prefix_sum(edges, 0) == Point::zero());
    }
}

/// Vectors that do not point up, and are not zero, add up to one that
/// points down: its opposite points up.
pub proof fn lemma_sum_points_down(edges: Seq<Point>, k: int)
    requires
        1 <= k <= edges.len(),
        forall|i: int| 0 <= i < k ==> !points_up(#[trigger] edges[i]) && !edges[i].is_zero(),
    ensures
        points_up(prefix_sum(edges, k).negated()),
    decreases k,
{
    assert(!points_up(edges[k - 1]) && !edges[k - 1].is_zero());
    if k > 1 {
        lemma_sum_points_down(edges, k - 1);
    } else {
        assert(prefix_sum(edges, 0) == Point::zero());
    }
}

/// A closed walk that turns through the directions once sets out from its
/// lowest vertex: every other vertex lies above the one where it ends, or
/// beside it to the right.
pub proof fn lemma_starts_at_lowest(edges: Seq<Point>)
    requires
        edges.len() >= 1,
        is_closed(edges),
        turns_once(edges),
    ensures
        first_lowest(walk(edges)) == edges.len() - 1,
        from_lowest(edges) == edges,
        is_convex(edges),
{
    let n = edges.len() as int;
    let vertices = walk(edges);
    assert(vertices[n - 1] == Point::zero());
    assert forall|j: int| 0 <= j < n - 1 implies points_up(#[trigger] vertices[j]) by {
        let k = j + 1;
        if points_up(edges[k - 1]) {
            assert forall|i: int| 0 <= i < k implies points_up(#[trigger] edges[i]) by {
                lemma_up_comes_first(edges, i, k - 1);
            }
            lemma_sum_points_up(edges, k);
        } else {
            let rest = edges.subrange(k, n);
            let head = edges.subrange(0, k);
            assert forall|i: int| 0 <= i < rest.len() implies !points_up(#[trigger] rest[i])
                && !rest[i].is_zero() by {
                assert(rest[i] == edges[k + i]);
                lemma_up_comes_first(edges, k - 1, k + i);
            }
            lemma_sum_points_down(rest, rest.len() as int);
            assert(edges =~= head + rest);
            lemma_path_sum_joined(head, rest);
            lemma_prefix_sum_agrees(edges, head, k);
        }
    }
    assert(is_first_lowest(vertices, n - 1)) by {
        assert forall|j: int| 0 <= j < n implies !(#[trigger] vertices[j]).below(vertices[n - 1]) by {
            if j < n - 1 {
                assert(points_up(vertices[j]));
            }
        }
        assert forall|j: int| 0 <= j < n - 1 implies vertices[n - 1].below(
            #[trigger] vertices[j],
        ) by {
            assert(points_up(vertices[j]));
        }
    }
    lemma_first_lowest_unique(vertices, n - 1);
    vstd::arithmetic::div_mod::lemma_mod_self_0(n);
    assert(from_lowest(edges) =~= edges) by {
        assert forall|i: int| 0 <= i < n implies rotated(edges, 0)[i] == edges[i] by {
            vstd::arithmetic::div_mod::lemma_small_mod(i as nat, n as nat);
        }
    }
}

/// A walk that keeps turning left does so after its first edge.
pub proof fn lemma_rest_keeps_turning(edges: Seq<Point>)
    requires
        keeps_turning(edges),
        edges.len() > 0,
    ensures
        keeps_turning(edges.drop_first()),
        edges.len() > 1 ==> follows(edges[0], edges.drop_first()[0]),
{
    let rest = edges.drop_first();
    assert forall|i: int| 0 <= i < rest.len() implies !(#[trigger] rest[i]).is_zero() by {
        assert(rest[i] == edges[i + 1]);
    }
    assert forall|i: int| 0 <= i < rest.len() - 1 implies follows(#[trigger] rest[i], rest[i + 1]) by {
        assert(rest[i] == edges[i + 1]);
        assert(rest[i + 1] == edges[i + 2]);
        assert(follows(edges[i + 1], edges[i + 2]));
    }
    if edges.len() > 1 {
        assert(follows(edges[0], edges[1]));
    }
}

/// A walk that keeps turning left, with an edge before it that its first
/// edge follows, keeps turning left.
pub proof fn lemma_keeps_turning_from(first: Point, rest: Seq<Point>)
    requires
        !first.is_zero(),
        keeps_turning(rest),
        rest.len() > 0 ==> follows(first, rest[0]),
    ensures
        keeps_turning(seq![first] + rest),
{
    let all = seq![first] + rest;
    assert forall|i: int| 0 <= i < all.len() implies !(#[trigger] all[i]).is_zero() by {
        if i > 0 {
            assert(all[i] == rest[i - 1]);
        }
    }
    assert forall|i: int| 0 <= i < all.len() - 1 implies follows(#[trigger] all[i], all[i + 1]) by {
        assert(all[i + 1] == rest[i]);
        if i > 0 {
            assert(all[i] == rest[i - 1]);
            assert(follows(rest[i - 1], rest[i]));
        }
    }
}

/// The merge of two walks that keep turning left, both from a common
/// direction on, keeps turning left from that direction on. It takes two
/// edges together only where they point the same way.
pub proof fn lemma_merged_keeps_turning(a: Seq<Point>, b: Seq<Point>, from: Point)
    requires
        !from.is_zero(),
        keeps_turning(a),
        keeps_turning(b),
        a.len() > 0 ==> follows(from, a[0]),
        b.len() > 0 ==> follows(from, b[0]),
    ensures
        keeps_turning(merged(a, b)),
        merged(a, b).len() > 0 ==> follows(from, merged(a, b)[0]),
        no_common_direction(a, b) ==> fused(a, b) == 0,
    decreases a.len() + b.len(),
{
    if a.len() == 0 || b.len() == 0 {
    } else {
        let rest_a = a.drop_first();
        let rest_b = b.drop_first();
        lemma_rest_keeps_turning(a);
        lemma_rest_keeps_turning(b);
        lemma_order_by_cross(from, a[0], b[0]);
        if no_common_direction(a, b) {
            assert(!same_direction(a[0], b[0]));
            assert(no_common_direction(rest_a, b)) by {
                assert forall|i: int, j: int|
                    0 <= i < rest_a.len() && 0 <= j < b.len() implies !same_direction(
                    #[trigger] rest_a[i],
                    #[trigger] b[j],
                ) by {
                    assert(rest_a[i] == a[i + 1]);
                    assert(!same_direction(a[i + 1], b[j]));
                }
            }
            assert(no_common_direction(a, rest_b)) by {
                assert forall|i: int, j: int|
                    0 <= i < a.len() && 0 <= j < rest_b.len() implies !same_direction(
                    #[trigger] a[i],
                    #[trigger] rest_b[j],
                ) by {
                    assert(rest_b[j] == b[j + 1]);
                    assert(!same_direction(a[i], b[j + 1]));
                }
            }
        }
        if a[0].cross(b[0]) > 0 {
            lemma_merged_keeps_turning(rest_a, b, a[0]);
            lemma_keeps_turning_from(a[0], merged(rest_a, b));
        } else if a[0].cross(b[0]) < 0 {
            lemma_merged_keeps_turning(a, rest_b, b[0]);
            lemma_keeps_turning_from(b[0], merged(a, rest_b));
        } else {
            let both = a[0].plus(b[0]);
            lemma_sum_same_direction(a[0], b[0]);
            lemma_same_direction_alike(a[0], both, from);
            if rest_a.len() > 0 {
                lemma_same_direction_alike(a[0], both, rest_a[0]);
            }
            if rest_b.len() > 0 {
                lemma_cross_reversed(a[0], b[0]);
                lemma_same_direction_alike(b[0], a[0], rest_b[0]);
                lemma_same_direction_alike(a[0], both, rest_b[0]);
            }
            lemma_merged_keeps_turning(rest_a, rest_b, both);
            lemma_keeps_turning_from(both, merged(rest_a, rest_b));
        }
    }
}

/// Of any three vectors each one, weighed with the cross product of the
/// other two, adds up to nothing with the others.
pub proof fn lemma_three_crosses(p: Point, a: Point, b: Point)
    ensures
        a.cross(b) * p.x + b.cross(p) * a.x + p.cross(a) * b.x == 0,
        a.cross(b) * p.y + b.cross(p) * a.y + p.cross(a) * b.y == 0,
{
    let (px, py, ax, ay, bx, by) = (p.x, p.y, a.x, a.y, b.x, b.y);
    assert((ax * by - ay * bx) * px + (bx * py - by * px) * ax + (px * ay - py * ax) * bx == 0)
        by (nonlinear_arith);
    assert((ax * by - ay * bx) * py + (bx * py - by * px) * ay + (px * ay - py * ax) * by == 0)
        by (nonlinear_arith);
}

/// The products of `w` with `v`, seen from `u`: `u` taken as the axis, the
/// cross and dot products of `w` and `v` follow from those with `u`.
pub proof fn lemma_products_through(u: Point, w: Point, v: Point)
    ensures
        w.cross(v) * u.norm2() == u.dot(w) * u.cross(v) - u.cross(w) * u.dot(v),
        w.dot(v) * u.norm2() == u.dot(w) * u.dot(v) + u.cross(w) * u.cross(v),
        w.x * u.norm2() == u.dot(w) * u.x - u.cross(w) * u.y,
        w.y * u.norm2() == u.dot(w) * u.y + u.cross(w) * u.x,
{
    let (ux, uy, wx, wy, vx, vy) = (u.x, u.y, w.x, w.y, v.x, v.y);
    lemma_degree_four(ux, uy, wx, wy, vx, vy);
    assert(wx * (ux * ux + uy * uy) == (ux * wx + uy * wy) * ux - (ux * wy - uy * wx) * uy)
        by (nonlinear_arith);
    assert(wy * (ux * ux + uy * uy) == (ux * wx + uy * wy) * uy + (ux * wy - uy * wx) * ux)
        by (nonlinear_arith);
}

/// The two identities of [`lemma_products_through`] that hold the products
/// of four coordinates, term by term.
proof fn lemma_degree_four(ux: int, uy: int, wx: int, wy: int, vx: int, vy: int)
    ensures
        (wx * vy - wy * vx) * (ux * ux + uy * uy) == (ux * wx + uy * wy) * (ux * vy - uy * vx) - (ux
            * wy - uy * wx) * (ux * vx + uy * vy),
        (wx * vx + wy * vy) * (ux * ux + uy * uy) == (ux * wx + uy * wy) * (ux * vx + uy * vy) + (ux
            * wy - uy * wx) * (ux * vy - uy * vx),
{
    let xx = ux * ux;
    let yy = uy * uy;
    let xy = ux * uy;
    let a = wx * vy;
    let b = wy * vx;
    let c = wx * vx;
    let d = wy * vy;
    // Every product of four coordinates, as a product of two pairs.
    assert((ux * wx) * (ux * vy) == xx * a) by (nonlinear_arith)
        requires xx == ux * ux, a == wx * vy;
    assert((ux * wx) * (uy * vx) == xy * c) by (nonlinear_arith)
        requires xy == ux * uy, c == wx * vx;
    assert((uy * wy) * (ux * vy) == xy * d) by (nonlinear_arith)
        requires xy == ux * uy, d == wy * vy;
    assert((uy * wy) * (uy * vx) == yy * b) by (nonlinear_arith)
        requires yy == uy * uy, b == wy * vx;
    assert((ux * wy) * (ux * vx) == xx * b) by (nonlinear_arith)
        requires xx == ux * ux, b == wy * vx;
    assert((ux * wy) * (uy * vy) == xy * d) by (nonlinear_arith)
        requires xy == ux * uy, d == wy * vy;
    assert((uy * wx) * (ux * vx) == xy * c) by (nonlinear_arith)
        requires xy == ux * uy, c == wx * vx;
    assert((uy * wx) * (uy * vy) == yy * a) by (nonlinear_arith)
        requires yy == uy * uy, a == wx * vy;
    assert((ux * wx) * (ux * vx) == xx * c) by (nonlinear_arith)
        requires xx == ux * ux, c == wx * vx;
    assert((ux * wx) * (uy * vy) == xy * a) by (nonlinear_arith)
        requires xy == ux * uy, a == wx * vy;
    assert((uy * wy) * (ux * vx) == xy * b) by (nonlinear_arith)
        requires xy == ux * uy, b == wy * vx;
    assert((uy * wy) * (uy * vy) == yy * d) by (nonlinear_arith)
        requires yy == uy * uy, d == wy * vy;
    assert((ux * wy) * (ux * vy) == xx * d) by (nonlinear_arith)
        requires xx == ux * ux, d == wy * vy;
    assert((ux * wy) * (uy * vx) == xy * b) by (nonlinear_arith)
        requires xy == ux * uy, b == wy * vx;
    assert((uy * wx) * (ux * vy) == xy * a) by (nonlinear_arith)
        requires xy == ux * uy, a == wx * vy;
    assert((uy * wx) * (uy * vx) == yy * c) by (nonlinear_arith)
        requires yy == uy * uy, c == wx * vx;
    let p = ux * wx;
    let q = uy * wy;
    let r = ux * wy;
    let t = uy * wx;
    let e = ux * vy;
    let f = uy * vx;
    let g = ux * vx;
    let h = uy * vy;
    assert((p + q) * (e - f) == p * e - p * f + q * e - q * f) by (nonlinear_arith);
    assert((r - t) * (g + h) == r * g + r * h - t * g - t * h) by (nonlinear_arith);
    assert((p + q) * (g + h) == p * g + p * h + q * g + q * h) by (nonlinear_arith);
    assert((r - t) * (e - f) == r * e - r * f - t * e + t * f) by (nonlinear_arith);
    assert((a - b) * (xx + yy) == xx * a + yy * a - xx * b - yy * b) by (nonlinear_arith);
    assert((c + d) * (xx + yy) == xx * c + yy * c + xx * d + yy * d) by (nonlinear_arith);
}

/// A vector that is not zero has a length.
pub proof fn lemma_norm_positive(u: Point)
    requires
        !u.is_zero(),
    ensures
        u.norm2() > 0,
{
    assert(u.x * u.x + u.y * u.y > 0) by (nonlinear_arith)
        requires
            u.x != 0 || u.y != 0,
    ;
}

/// The sign of a product whose one factor is positive is that of the other.
proof fn lemma_sign_through(value: int, scale: int, product: int)
    by (nonlinear_arith)
    requires
        scale > 0,
        value * scale == product,
    ensures
        (value > 0) == (product > 0),
        (value < 0) == (product < 0),
        (value == 0) == (product == 0),
{
}

/// The sign of a product of a positive factor.
proof fn lemma_sign_of_scaled(scale: int, value: int)
    by (nonlinear_arith)
    requires
        scale > 0,
    ensures
        (scale * value > 0) == (value > 0),
        (scale * value < 0) == (value < 0),
        (scale * value == 0) == (value == 0),
{
}

/// Vectors that point the same way stand alike to every other vector: they
/// point up together, and they turn and come before and after it alike.
pub proof fn lemma_same_direction_alike(u: Point, w: Point, v: Point)
    requires
        !u.is_zero(),
        same_direction(u, w),
    ensures
        !w.is_zero(),
        points_up(u) == points_up(w),
        turns_left_to(u, v) == turns_left_to(w, v),
        turns_left_to(v, u) == turns_left_to(v, w),
        comes_by(u, v) == comes_by(w, v),
        comes_by(v, u) == comes_by(v, w),
        same_direction(u, v) == same_direction(w, v),
{
    lemma_products_through(u, w, v);
    lemma_norm_positive(u);
    let n = u.norm2();
    let d = u.dot(w);
    assert(u.cross(w) * u.dot(v) == 0 && u.cross(w) * u.cross(v) == 0 && u.cross(w) * u.y == 0
        && u.cross(w) * u.x == 0) by (nonlinear_arith)
        requires
            u.cross(w) == 0,
    ;
    lemma_sign_of_scaled(d, u.cross(v));
    lemma_sign_of_scaled(d, u.dot(v));
    lemma_sign_of_scaled(d, u.x);
    lemma_sign_of_scaled(d, u.y);
    lemma_sign_through(w.cross(v), n, d * u.cross(v));
    lemma_sign_through(w.dot(v), n, d * u.dot(v));
    lemma_sign_through(w.x, n, d * u.x);
    lemma_sign_through(w.y, n, d * u.y);
    assert(v.cross(u) == -u.cross(v) && v.cross(w) == -w.cross(v) && v.dot(u) == u.dot(v)
        && v.dot(w) == w.dot(v)) by (nonlinear_arith)
        requires
            v.cross(u) == v.x * u.y - v.y * u.x,
            u.cross(v) == u.x * v.y - u.y * v.x,
            v.cross(w) == v.x * w.y - v.y * w.x,
            w.cross(v) == w.x * v.y - w.y * v.x,
            v.dot(u) == v.x * u.x + v.y * u.y,
            u.dot(v) == u.x * v.x + u.y * v.y,
            v.dot(w) == v.x * w.x + v.y * w.y,
            w.dot(v) == w.x * v.x + w.y * v.y,
    ;
}

/// The sum of two vectors that point the same way points that way too.
pub proof fn lemma_sum_same_direction(u: Point, v: Point)
    requires
        !u.is_zero(),
        same_direction(u, v),
    ensures
        same_direction(u, u.plus(v)),
{
    let w = u.plus(v);
    lemma_norm_positive(u);
    assert(u.cross(w) == u.cross(v) && u.dot(w) == u.norm2() + u.dot(v)) by (nonlinear_arith)
        requires
            w.x == u.x + v.x,
            w.y == u.y + v.y,
            u.cross(w) == u.x * w.y - u.y * w.x,
            u.cross(v) == u.x * v.y - u.y * v.x,
            u.dot(w) == u.x * w.x + u.y * w.y,
            u.dot(v) == u.x * v.x + u.y * v.y,
            u.norm2() == u.x * u.x + u.y * u.y,
    ;
}

/// The cross product of the one with the other is the opposite of that of
/// the other with the one.
proof fn lemma_cross_reversed(u: Point, v: Point)
    ensures
        v.cross(u) == -u.cross(v),
        v.dot(u) == u.dot(v),
{
    assert(v.x * u.y - v.y * u.x == -(u.x * v.y - u.y * v.x)) by (nonlinear_arith);
    assert(v.x * u.x + v.y * u.y == u.x * v.x + u.y * v.y) by (nonlinear_arith);
}

/// Two vectors that are not zero and have neither a cross nor a dot product
/// do not exist; parallel vectors point the same way or opposite ways.
pub proof fn lemma_parallel(a: Point, b: Point)
    requires
        !a.is_zero(),
        !b.is_zero(),
        a.cross(b) == 0,
    ensures
        a.dot(b) != 0,
{
    lemma_products_through(a, b, b);
    lemma_norm_positive(a);
    if a.dot(b) == 0 {
        assert(a.dot(b) * a.x == 0 && a.dot(b) * a.y == 0 && a.cross(b) * a.x == 0 && a.cross(b)
            * a.y == 0) by (nonlinear_arith)
            requires
                a.dot(b) == 0,
                a.cross(b) == 0,
        ;
        lemma_sign_through(b.x, a.norm2(), 0);
        lemma_sign_through(b.y, a.norm2(), 0);
    }
}

/// Of two directions that both follow a third, the cross product tells
/// which comes first in the turn; and where it is nothing, they are one
/// direction.
pub proof fn lemma_order_by_cross(p: Point, a: Point, b: Point)
    requires
        !p.is_zero(),
        !a.is_zero(),
        !b.is_zero(),
        follows(p, a),
        follows(p, b),
    ensures
        a.cross(b) > 0 ==> follows(a, b),
        a.cross(b) < 0 ==> follows(b, a),
        a.cross(b) == 0 ==> same_direction(a, b),
{
    lemma_cross_reversed(a, b);
    if a.cross(b) > 0 {
        lemma_no_way_back(p, a, b);
    } else if a.cross(b) < 0 {
        lemma_no_way_back(p, b, a);
    } else {
        lemma_parallel(a, b);
        if a.dot(b) < 0 {
            // The two point opposite ways, yet both lie within half a turn
            // after `p`.
            lemma_products_through(a, b, p);
            lemma_norm_positive(a);
            lemma_cross_reversed(a, p);
            lemma_cross_reversed(b, p);
            let n = a.norm2();
            assert(a.cross(b) * a.dot(p) == 0 && a.cross(b) * a.cross(p) == 0) by (nonlinear_arith)
                requires
                    a.cross(b) == 0,
            ;
            // b x p = (a . b) (a x p) / |a|^2 and b . p = (a . b) (a . p) / |a|^2
            lemma_sign_through(b.cross(p), n, a.dot(b) * a.cross(p));
            lemma_sign_through(b.dot(p), n, a.dot(b) * a.dot(p));
            lemma_sign_of_negative(a.dot(b), a.cross(p));
            lemma_sign_of_negative(a.dot(b), a.dot(p));
        }
    }
}

/// The sign of a product of a negative factor.
proof fn lemma_sign_of_negative(scale: int, value: int)
    by (nonlinear_arith)
    requires
        scale < 0,
    ensures
        (scale * value > 0) == (value < 0),
        (scale * value < 0) == (value > 0),
        (scale * value == 0) == (value == 0),
{
}

/// Of two directions that both follow a third, the one to which the other
/// turns left comes after it in the turn: the turn does not lead from the
/// second half back into the first.
proof fn lemma_no_way_back(p: Point, a: Point, b: Point)
    requires
        !p.is_zero(),
        !a.is_zero(),
        !b.is_zero(),
        follows(p, a),
        follows(p, b),
        a.cross(b) > 0,
    ensures
        follows(a, b),
{
    if !points_up(a) && points_up(b) {
        // `p` points up as `b` does, and does not point as `a` does.
        assert(points_up(p));
        if same_direction(p, a) {
            lemma_same_direction_alike(p, a, a);
        }
        assert(p.cross(a) > 0);
        lemma_three_crosses(p, a, b);
        lemma_cross_reversed(p, b);
        let first = a.cross(b) * p.y;
        let second = b.cross(p) * a.y;
        let third = p.cross(a) * b.y;
        assert(first >= 0 && (first == 0 ==> p.y == 0)) by (nonlinear_arith)
            requires
                first == a.cross(b) * p.y,
                a.cross(b) > 0,
                p.y >= 0,
        ;
        assert(second >= 0) by (nonlinear_arith)
            requires
                second == b.cross(p) * a.y,
                b.cross(p) <= 0,
                a.y <= 0,
        ;
        assert(third >= 0 && (third == 0 ==> b.y == 0)) by (nonlinear_arith)
            requires
                third == p.cross(a) * b.y,
                p.cross(a) > 0,
                b.y >= 0,
        ;
        assert(p.y == 0 && b.y == 0);
        assert(p.cross(a) == p.x * a.y) by (nonlinear_arith)
            requires
                p.cross(a) == p.x * a.y - p.y * a.x,
                p.y == 0,
        ;
        assert(false) by (nonlinear_arith)
            requires
                p.x * a.y > 0,
                p.x > 0,
                a.y <= 0,
        ;
    }
}

} // verus!
