use vstd::prelude::*;
use vstd::arithmetic::div_mod::{lemma_mod_self_0, lemma_small_mod};
use crate::outline::{
    all_within, edges_between, is_closed, lemma_prefix_sum_agrees, lemma_prefix_sum_within,
    path_sum, points_of, prefix_sum, walk, EdgeVectors,
};
use crate::vec2::{Point, Vec2, COORD_LIMIT};

verus! {

/// Largest absolute coordinate of an edge that [`minkowski_sum`] takes.
pub const SUM_EDGE_LIMIT: i64 = 0x100_0000_0000;

/// Largest number of edges of an outline that [`minkowski_sum`] takes.
pub const SUM_MAX_EDGES: usize = 0x10_0000;

/// Whether `i` is the index of the lowest vertex, the leftmost of the lowest
/// ones, and the first of these where that point occurs more than once.
pub open spec fn is_first_lowest(vertices: Seq<Point>, i: int) -> bool {
    &&& 0 <= i < vertices.len()
    &&& forall|j: int| 0 <= j < vertices.len() ==> !(#[trigger] vertices[j]).below(vertices[i])
    &&& forall|j: int| 0 <= j < i ==> vertices[i].below(#[trigger] vertices[j])
}

/// The index of the first lowest, leftmost vertex.
pub open spec fn first_lowest(vertices: Seq<Point>) -> int {
    choose|i: int| is_first_lowest(vertices, i)
}

/// The edges in their cyclic order, beginning with the one at index `start`.
pub open spec fn rotated(edges: Seq<Point>, start: int) -> Seq<Point> {
    Seq::new(edges.len(), |i: int| edges[(start + i) % (edges.len() as int)])
}

/// The edges in their cyclic order, beginning with the one that leaves the
/// first lowest, leftmost vertex.
pub open spec fn from_lowest(edges: Seq<Point>) -> Seq<Point> {
    rotated(edges, (first_lowest(walk(edges)) + 1) % (edges.len() as int))
}

/// The angular merge of two edge sequences: the edge that turns less to the
/// left goes first, two edges of one direction go together as their sum, and
/// when one sequence is used up the rest of the other follows.
pub open spec fn merged(a: Seq<Point>, b: Seq<Point>) -> Seq<Point>
    decreases a.len() + b.len(),
{
    if a.len() == 0 {
        b
    } else if b.len() == 0 {
        a
    } else if a[0].cross(b[0]) > 0 {
        seq![a[0]] + merged(a.drop_first(), b)
    } else if a[0].cross(b[0]) < 0 {
        seq![b[0]] + merged(a, b.drop_first())
    } else {
        seq![a[0].plus(b[0])] + merged(a.drop_first(), b.drop_first())
    }
}

/// The number of steps of the merge that take an edge of each sequence
/// together.
pub open spec fn fused(a: Seq<Point>, b: Seq<Point>) -> nat
    decreases a.len() + b.len(),
{
    if a.len() == 0 || b.len() == 0 {
        0
    } else if a[0].cross(b[0]) > 0 {
        fused(a.drop_first(), b)
    } else if a[0].cross(b[0]) < 0 {
        fused(a, b.drop_first())
    } else {
        1 + fused(a.drop_first(), b.drop_first())
    }
}

/// The positions before each step of a walk along `steps` from the origin.
pub open spec fn positions(steps: Seq<Point>) -> Seq<Point> {
    Seq::new(steps.len(), |i: int| prefix_sum(steps, i))
}

/// The Minkowski sum of two convex counter-clockwise outlines, as the edges
/// between the vertices that the merge of their edges, each taken from its
/// lowest vertex, passes through. For convex outlines it is the merge
/// itself, and convex (`convex::lemma_sum_of_convex_is_convex`).
pub open spec fn minkowski(a: Seq<Point>, b: Seq<Point>) -> Seq<Point> {
    edges_between(positions(merged(from_lowest(a), from_lowest(b))))
}

/// Compute the Minkowski sum of two polygons.
///
/// Both outlines are walked from their lowest, leftmost vertex, and their
/// edges are merged by direction; the result holds the edges between the
/// vertices passed on the way.
pub fn minkowski_sum(a: &EdgeVectors, b: &EdgeVectors) -> (edges: EdgeVectors)
    requires
        1 <= a@.len() <= SUM_MAX_EDGES,
        1 <= b@.len() <= SUM_MAX_EDGES,
        all_within(a@, SUM_EDGE_LIMIT as int),
        all_within(b@, SUM_EDGE_LIMIT as int),
    ensures
        edges@ == minkowski(a@, b@),
        edges@.len() + fused(from_lowest(a@), from_lowest(b@)) == a@.len() + b@.len(),
        is_closed(edges@),
{
    let first: Vec<Vec2> = edges_from_lowest(a);
    let second: Vec<Vec2> = edges_from_lowest(b);
    let n: usize = first.len();
    let m: usize = second.len();
    let ghost left = points_of(first@);
    let ghost right = points_of(second@);
    let ghost full = merged(left, right);
    let mut passed: Vec<Vec2> = Vec::new();
    let mut position: Vec2 = Vec2::zero();
    let mut i: usize = 0;
    let mut j: usize = 0;
    proof {
        assert(left.subrange(0, n as int) =~= left);
        assert(right.subrange(0, m as int) =~= right);
        assert(full.subrange(0, full.len() as int) =~= full);
    }
    while i < n || j < m
        invariant
            0 <= i <= n,
            0 <= j <= m,
            n == left.len(),
            m == right.len(),
            n <= SUM_MAX_EDGES,
            m <= SUM_MAX_EDGES,
            left == points_of(first@),
            right == points_of(second@),
            all_within(left, SUM_EDGE_LIMIT as int),
            all_within(right, SUM_EDGE_LIMIT as int),
            full == merged(left, right),
            passed@.len() <= full.len(),
            full.subrange(passed@.len() as int, full.len() as int) == merged(
                left.subrange(i as int, n as int),
                right.subrange(j as int, m as int),
            ),
            position@ == prefix_sum(full, passed@.len() as int),
            position@ == prefix_sum(left, i as int).plus(prefix_sum(right, j as int)),
            forall|k: int|
                0 <= k < passed@.len() ==> (#[trigger] passed@[k])@ == prefix_sum(full, k),
            all_within(points_of(passed@), COORD_LIMIT as int),
        decreases (n - i) + (m - j),
    {
        let ghost t = passed@.len() as int;
        let ghost rest_left = left.subrange(i as int, n as int);
        let ghost rest_right = right.subrange(j as int, m as int);
        let ghost rest = full.subrange(t, full.len() as int);
        proof {
            lemma_prefix_sum_within(left, i as int, SUM_EDGE_LIMIT as int);
            lemma_prefix_sum_within(right, j as int, SUM_EDGE_LIMIT as int);
            if i < n {
                lemma_prefix_sum_within(left, i as int + 1, SUM_EDGE_LIMIT as int);
            }
            if j < m {
                lemma_prefix_sum_within(right, j as int + 1, SUM_EDGE_LIMIT as int);
            }
            lemma_steps_fit(i as int, j as int);
            lemma_steps_fit(i as int + 1, j as int);
            lemma_steps_fit(i as int, j as int + 1);
            lemma_steps_fit(i as int + 1, j as int + 1);
            if i < n {
                assert(rest_left[0] == left[i as int]);
                assert(rest_left.drop_first() =~= left.subrange(i as int + 1, n as int));
                assert(left[i as int] == first@[i as int]@);
                assert(left[i as int].within(SUM_EDGE_LIMIT as int));
            }
            if j < m {
                assert(rest_right[0] == right[j as int]);
                assert(rest_right.drop_first() =~= right.subrange(j as int + 1, m as int));
                assert(right[j as int] == second@[j as int]@);
                assert(right[j as int].within(SUM_EDGE_LIMIT as int));
            }
            assert(points_of(passed@.push(position)) =~= points_of(passed@).push(position@));
        }
        passed.push(position);
        let step: Vec2;
        if i == n {
            step = second[j];
            j += 1;
        } else if j == m {
            step = first[i];
            i += 1;
        } else {
            let turn: i128 = first[i].cross(&second[j]);
            if turn > 0 {
                step = first[i];
                i += 1;
            } else if turn < 0 {
                step = second[j];
                j += 1;
            } else {
                step = first[i].plus(&second[j]);
                i += 1;
                j += 1;
            }
        }
        proof {
            assert(rest.len() > 0);
            assert(rest[0] == step@);
            assert(full[t] == rest[0]);
            assert(rest.drop_first() =~= full.subrange(t + 1, full.len() as int));
        }
        position = position.plus(&step);
    }
    proof {
        assert(left.subrange(n as int, n as int) =~= Seq::<Point>::empty());
        assert(right.subrange(m as int, m as int) =~= Seq::<Point>::empty());
        assert(passed@.len() == full.len());
        assert(points_of(passed@) =~= positions(full));
        lemma_merged_len(left, right);
    }
    EdgeVectors::from_vertices(passed.as_slice())
}

/// The edges of an outline in their cyclic order, beginning with the one
/// that leaves the first lowest, leftmost vertex.
pub fn edges_from_lowest(edges: &EdgeVectors) -> (turned: Vec<Vec2>)
    requires
        1 <= edges@.len() <= SUM_MAX_EDGES,
        all_within(edges@, SUM_EDGE_LIMIT as int),
    ensures
        points_of(turned@) == from_lowest(edges@),
        all_within(points_of(turned@), SUM_EDGE_LIMIT as int),
{
    let n: usize = edges.0.len();
    proof {
        assert forall|k: int| 0 <= k <= edges@.len() implies (#[trigger] prefix_sum(
            edges@,
            k,
        )).within(i64::MAX as int) by {
            lemma_prefix_sum_within(edges@, k, SUM_EDGE_LIMIT as int);
            assert(k * SUM_EDGE_LIMIT <= SUM_MAX_EDGES * SUM_EDGE_LIMIT) by (nonlinear_arith)
                requires
                    0 <= k <= SUM_MAX_EDGES,
            ;
        }
    }
    let vertices: Vec<Vec2> = edges.local_vertices();
    assert(points_of(vertices@).len() == vertices@.len());
    let lowest: usize = first_lowest_index(&vertices);
    let start: usize = if lowest + 1 == n { 0 } else { lowest + 1 };
    proof {
        if lowest + 1 == n {
            lemma_mod_self_0(n as int);
        } else {
            lemma_small_mod((lowest + 1) as nat, n as nat);
        }
    }
    let turned: Vec<Vec2> = rotated_from(edges, start);
    proof {
        let t = points_of(turned@);
        assert forall|i: int| 0 <= i < t.len() implies (#[trigger] t[i]).within(
            SUM_EDGE_LIMIT as int,
        ) by {
            let at = (start + i) % (n as int);
            vstd::arithmetic::div_mod::lemma_mod_bound(start + i, n as int);
            assert(edges@[at].within(SUM_EDGE_LIMIT as int));
        }
    }
    turned
}

/// The index of the first lowest, leftmost of the vertices.
pub fn first_lowest_index(vertices: &Vec<Vec2>) -> (index: usize)
    requires
        vertices@.len() >= 1,
    ensures
        is_first_lowest(points_of(vertices@), index as int),
        index == first_lowest(points_of(vertices@)),
{
    let ghost points = points_of(vertices@);
    let mut best: usize = 0;
    let mut i: usize = 1;
    while i < vertices.len()
        invariant
            1 <= i <= vertices@.len(),
            points == points_of(vertices@),
            0 <= best < i,
            forall|j: int| 0 <= j < i ==> !(#[trigger] points[j]).below(points[best as int]),
            forall|j: int| 0 <= j < best ==> points[best as int].below(#[trigger] points[j]),
        decreases vertices@.len() - i,
    {
        if vertices[i].is_below(&vertices[best]) {
            best = i;
        }
        i += 1;
    }
    proof {
        lemma_first_lowest_unique(points, best as int);
    }
    best
}

/// The edges in their cyclic order, beginning with the one at index `start`.
pub fn rotated_from(edges: &EdgeVectors, start: usize) -> (turned: Vec<Vec2>)
    requires
        start < edges@.len(),
    ensures
        points_of(turned@) == rotated(edges@, start as int),
{
    let n: usize = edges.0.len();
    let mut turned: Vec<Vec2> = Vec::with_capacity(n);
    let mut i: usize = 0;
    let mut at: usize = start;
    proof {
        lemma_small_mod(start as nat, n as nat);
    }
    while i < n
        invariant
            0 <= i <= n,
            n == edges@.len(),
            start < n,
            at < n,
            at == (start + i) % (n as int),
            turned@.len() == i,
            forall|j: int|
                0 <= j < i ==> (#[trigger] turned@[j])@ == edges@[(start + j) % (n as int)],
        decreases n - i,
    {
        turned.push(edges.0[at]);
        proof {
            lemma_next_cyclic((start + i) as int, n as int);
        }
        at = if at + 1 == n { 0 } else { at + 1 };
        i += 1;
    }
    proof {
        assert(points_of(turned@) =~= rotated(edges@, start as int));
    }
    turned
}

/// The Minkowski sum has as many edges as both outlines together, less one
/// for every pair of edges of one direction that went into it as one.
pub proof fn lemma_sum_edge_count(a: Seq<Point>, b: Seq<Point>)
    requires
        a.len() >= 1,
        b.len() >= 1,
    ensures
        minkowski(a, b).len() + fused(from_lowest(a), from_lowest(b)) == a.len() + b.len(),
{
    lemma_merged_len(from_lowest(a), from_lowest(b));
}

/// The Minkowski sum of two outlines of which no edge is parallel to an edge
/// of the other has as many edges as both together.
pub proof fn lemma_sum_keeps_every_edge(a: Seq<Point>, b: Seq<Point>)
    requires
        a.len() >= 1,
        b.len() >= 1,
        forall|i: int, j: int|
            0 <= i < a.len() && 0 <= j < b.len() ==> (#[trigger] a[i]).cross(#[trigger] b[j]) != 0,
    ensures
        minkowski(a, b).len() == a.len() + b.len(),
{
    let left = from_lowest(a);
    let right = from_lowest(b);
    assert forall|i: int, j: int| 0 <= i < left.len() && 0 <= j < right.len() implies (
    #[trigger] left[i]).cross(#[trigger] right[j]) != 0 by {
        let n = a.len() as int;
        let m = b.len() as int;
        let from_a = (first_lowest(walk(a)) + 1) % n;
        let from_b = (first_lowest(walk(b)) + 1) % m;
        vstd::arithmetic::div_mod::lemma_mod_bound(from_a + i, n);
        vstd::arithmetic::div_mod::lemma_mod_bound(from_b + j, m);
        assert(a[(from_a + i) % n].cross(b[(from_b + j) % m]) != 0);
    }
    lemma_none_fused(left, right);
    lemma_merged_len(left, right);
}

/// The merge does not depend on the order of the two sequences.
pub proof fn lemma_merged_commutes(a: Seq<Point>, b: Seq<Point>)
    ensures
        merged(a, b) == merged(b, a),
    decreases a.len() + b.len(),
{
    if a.len() == 0 || b.len() == 0 {
    } else {
        assert(b[0].cross(a[0]) == -a[0].cross(b[0])) by (nonlinear_arith)
            requires
                b[0].cross(a[0]) == b[0].x * a[0].y - b[0].y * a[0].x,
                a[0].cross(b[0]) == a[0].x * b[0].y - a[0].y * b[0].x,
        ;
        if a[0].cross(b[0]) > 0 {
            lemma_merged_commutes(a.drop_first(), b);
        } else if a[0].cross(b[0]) < 0 {
            lemma_merged_commutes(a, b.drop_first());
        } else {
            lemma_merged_commutes(a.drop_first(), b.drop_first());
            assert(a[0].plus(b[0]) == b[0].plus(a[0]));
        }
    }
}

/// The Minkowski sum does not depend on the order of the two outlines.
pub proof fn lemma_minkowski_commutes(a: Seq<Point>, b: Seq<Point>)
    ensures
        minkowski(a, b) == minkowski(b, a),
{
    lemma_merged_commutes(from_lowest(a), from_lowest(b));
}

/// The Minkowski sum of two closed outlines is the merge of their edges,
/// and closed.
pub proof fn lemma_minkowski_closed(a: Seq<Point>, b: Seq<Point>)
    requires
        a.len() >= 1,
        b.len() >= 1,
        is_closed(a),
        is_closed(b),
    ensures
        minkowski(a, b) == merged(from_lowest(a), from_lowest(b)),
        is_closed(minkowski(a, b)),
{
    let left = from_lowest(a);
    let right = from_lowest(b);
    let full = merged(left, right);
    let count = full.len() as int;
    vstd::arithmetic::div_mod::lemma_mod_bound(first_lowest(walk(a)) + 1, a.len() as int);
    vstd::arithmetic::div_mod::lemma_mod_bound(first_lowest(walk(b)) + 1, b.len() as int);
    lemma_rotated_sum(a, (first_lowest(walk(a)) + 1) % (a.len() as int));
    lemma_rotated_sum(b, (first_lowest(walk(b)) + 1) % (b.len() as int));
    lemma_merged_sum(left, right);
    lemma_merged_at_least(left, right);
    let sum = minkowski(a, b);
    assert forall|k: int| 0 <= k < count implies sum[k] == full[k] by {
        if k + 1 < count {
            lemma_small_mod((k + 1) as nat, count as nat);
        } else {
            lemma_mod_self_0(count);
        }
    }
    assert(sum =~= full);
}

/// Every step of the merge uses up one edge, or one of each sequence.
pub proof fn lemma_merged_len(a: Seq<Point>, b: Seq<Point>)
    ensures
        merged(a, b).len() + fused(a, b) == a.len() + b.len(),
    decreases a.len() + b.len(),
{
    if a.len() == 0 || b.len() == 0 {
    } else if a[0].cross(b[0]) > 0 {
        lemma_merged_len(a.drop_first(), b);
    } else if a[0].cross(b[0]) < 0 {
        lemma_merged_len(a, b.drop_first());
    } else {
        lemma_merged_len(a.drop_first(), b.drop_first());
    }
}

/// Where no edge of one sequence is parallel to an edge of the other, no step
/// of the merge takes two edges together.
pub proof fn lemma_none_fused(a: Seq<Point>, b: Seq<Point>)
    requires
        forall|i: int, j: int|
            0 <= i < a.len() && 0 <= j < b.len() ==> (#[trigger] a[i]).cross(#[trigger] b[j]) != 0,
    ensures
        fused(a, b) == 0,
    decreases a.len() + b.len(),
{
    if a.len() == 0 || b.len() == 0 {
    } else if a[0].cross(b[0]) > 0 {
        let rest = a.drop_first();
        assert forall|i: int, j: int| 0 <= i < rest.len() && 0 <= j < b.len() implies (
        #[trigger] rest[i]).cross(#[trigger] b[j]) != 0 by {
            assert(rest[i] == a[i + 1]);
        }
        lemma_none_fused(rest, b);
    } else if a[0].cross(b[0]) < 0 {
        let rest = b.drop_first();
        assert forall|i: int, j: int| 0 <= i < a.len() && 0 <= j < rest.len() implies (
        #[trigger] a[i]).cross(#[trigger] rest[j]) != 0 by {
            assert(rest[j] == b[j + 1]);
        }
        lemma_none_fused(a, rest);
    } else {
        assert(a[0].cross(b[0]) != 0);
    }
}

/// The merge is at least as long as the longer sequence.
pub proof fn lemma_merged_at_least(a: Seq<Point>, b: Seq<Point>)
    ensures
        merged(a, b).len() >= a.len(),
        merged(a, b).len() >= b.len(),
    decreases a.len() + b.len(),
{
    if a.len() == 0 || b.len() == 0 {
    } else if a[0].cross(b[0]) > 0 {
        lemma_merged_at_least(a.drop_first(), b);
    } else if a[0].cross(b[0]) < 0 {
        lemma_merged_at_least(a, b.drop_first());
    } else {
        lemma_merged_at_least(a.drop_first(), b.drop_first());
    }
}

/// The merge adds up to what the two sequences add up to.
pub proof fn lemma_merged_sum(a: Seq<Point>, b: Seq<Point>)
    ensures
        path_sum(merged(a, b)) == path_sum(a).plus(path_sum(b)),
    decreases a.len() + b.len(),
{
    if a.len() == 0 || b.len() == 0 {
    } else {
        let rest_a = a.drop_first();
        let rest_b = b.drop_first();
        assert(a =~= seq![a[0]] + rest_a);
        assert(b =~= seq![b[0]] + rest_b);
        lemma_path_sum_joined(seq![a[0]], rest_a);
        lemma_path_sum_joined(seq![b[0]], rest_b);
        lemma_path_sum_single(a[0]);
        lemma_path_sum_single(b[0]);
        if a[0].cross(b[0]) > 0 {
            lemma_merged_sum(rest_a, b);
            lemma_path_sum_joined(seq![a[0]], merged(rest_a, b));
        } else if a[0].cross(b[0]) < 0 {
            lemma_merged_sum(a, rest_b);
            lemma_path_sum_joined(seq![b[0]], merged(a, rest_b));
        } else {
            lemma_merged_sum(rest_a, rest_b);
            lemma_path_sum_joined(seq![a[0].plus(b[0])], merged(rest_a, rest_b));
            lemma_path_sum_single(a[0].plus(b[0]));
        }
    }
}

/// An edge of the merge is an edge of one sequence or the sum of one of
/// each, and the merge is as long as the longer sequence at least.
pub proof fn lemma_merged_within(a: Seq<Point>, b: Seq<Point>, limit: int)
    requires
        0 <= limit,
        all_within(a, limit),
        all_within(b, limit),
    ensures
        all_within(merged(a, b), 2 * limit),
        merged(a, b).len() >= a.len(),
        merged(a, b).len() >= b.len(),
        merged(a, b).len() <= a.len() + b.len(),
    decreases a.len() + b.len(),
{
    let m = merged(a, b);
    if a.len() == 0 {
        assert forall|i: int| 0 <= i < m.len() implies (#[trigger] m[i]).within(2 * limit) by {
            assert(b[i].within(limit));
        }
    } else if b.len() == 0 {
        assert forall|i: int| 0 <= i < m.len() implies (#[trigger] m[i]).within(2 * limit) by {
            assert(a[i].within(limit));
        }
    } else {
        let rest_a = a.drop_first();
        let rest_b = b.drop_first();
        assert(a[0].within(limit) && b[0].within(limit));
        assert(all_within(rest_a, limit)) by {
            assert forall|i: int| 0 <= i < rest_a.len() implies (#[trigger] rest_a[i]).within(
                limit,
            ) by {
                assert(a[i + 1].within(limit));
            }
        }
        assert(all_within(rest_b, limit)) by {
            assert forall|i: int| 0 <= i < rest_b.len() implies (#[trigger] rest_b[i]).within(
                limit,
            ) by {
                assert(b[i + 1].within(limit));
            }
        }
        let tail = if a[0].cross(b[0]) > 0 {
            merged(rest_a, b)
        } else if a[0].cross(b[0]) < 0 {
            merged(a, rest_b)
        } else {
            merged(rest_a, rest_b)
        };
        if a[0].cross(b[0]) > 0 {
            lemma_merged_within(rest_a, b, limit);
        } else if a[0].cross(b[0]) < 0 {
            lemma_merged_within(a, rest_b, limit);
        } else {
            lemma_merged_within(rest_a, rest_b, limit);
        }
        assert forall|i: int| 0 <= i < m.len() implies (#[trigger] m[i]).within(2 * limit) by {
            if i > 0 {
                assert(m[i] == tail[i - 1]);
                assert(tail[i - 1].within(2 * limit));
            }
        }
    }
}

/// Only one index is that of the first lowest vertex.
pub proof fn lemma_first_lowest_unique(vertices: Seq<Point>, i: int)
    requires
        is_first_lowest(vertices, i),
    ensures
        first_lowest(vertices) == i,
{
    let c = first_lowest(vertices);
    assert(is_first_lowest(vertices, c));
    if c < i {
        assert(vertices[i].below(vertices[c]));
    } else if i < c {
        assert(vertices[c].below(vertices[i]));
    }
}

/// Among the first `k` vertices one is the first lowest.
pub proof fn lemma_has_first_lowest(vertices: Seq<Point>, k: int)
    requires
        1 <= k <= vertices.len(),
    ensures
        exists|i: int| #[trigger] is_first_lowest(vertices.take(k), i),
    decreases k,
{
    let some = vertices.take(k);
    if k == 1 {
        assert(is_first_lowest(some, 0));
    } else {
        lemma_has_first_lowest(vertices, k - 1);
        let fewer = vertices.take(k - 1);
        let i = choose|i: int| #[trigger] is_first_lowest(fewer, i);
        assert forall|j: int| 0 <= j < k - 1 implies some[j] == fewer[j] by {}
        if some[k - 1].below(some[i]) {
            assert forall|j: int| 0 <= j < k implies !(#[trigger] some[j]).below(some[k - 1]) by {
                if j < k - 1 {
                    assert(!fewer[j].below(fewer[i]));
                }
            }
            assert forall|j: int| 0 <= j < k - 1 implies some[k - 1].below(#[trigger] some[j]) by {
                assert(!fewer[j].below(fewer[i]));
            }
            assert(is_first_lowest(some, k - 1));
        } else {
            assert forall|j: int| 0 <= j < k implies !(#[trigger] some[j]).below(some[i]) by {
                if j < k - 1 {
                    assert(!fewer[j].below(fewer[i]));
                }
            }
            assert forall|j: int| 0 <= j < i implies some[i].below(#[trigger] some[j]) by {
                assert(fewer[i].below(fewer[j]));
            }
            assert(is_first_lowest(some, i));
        }
    }
}

/// Every outline with a vertex has a first lowest one.
pub proof fn lemma_first_lowest_is(vertices: Seq<Point>)
    requires
        vertices.len() >= 1,
    ensures
        is_first_lowest(vertices, first_lowest(vertices)),
{
    lemma_has_first_lowest(vertices, vertices.len() as int);
    assert(vertices.take(vertices.len() as int) =~= vertices);
}

/// Starting the cycle of edges elsewhere does not change their sum.
pub proof fn lemma_rotated_sum(edges: Seq<Point>, start: int)
    requires
        0 <= start < edges.len(),
    ensures
        path_sum(rotated(edges, start)) == path_sum(edges),
{
    let n = edges.len() as int;
    let head = edges.subrange(0, start);
    let tail = edges.subrange(start, n);
    assert(edges =~= head + tail);
    assert(rotated(edges, start) =~= tail + head) by {
        assert forall|i: int| 0 <= i < n implies rotated(edges, start)[i] == (tail + head)[i] by {
            if i < n - start {
                lemma_small_mod((start + i) as nat, n as nat);
            } else {
                vstd::arithmetic::div_mod::lemma_fundamental_div_mod_converse(
                    start + i,
                    n,
                    1,
                    start + i - n,
                );
            }
        }
    }
    lemma_path_sum_joined(head, tail);
    lemma_path_sum_joined(tail, head);
}

/// Starting the cycle of edges elsewhere keeps every edge within the limit.
pub proof fn lemma_rotated_within(edges: Seq<Point>, start: int, limit: int)
    requires
        edges.len() >= 1,
        0 <= start,
        all_within(edges, limit),
    ensures
        all_within(rotated(edges, start), limit),
{
    let n = edges.len() as int;
    let turned = rotated(edges, start);
    assert forall|i: int| 0 <= i < turned.len() implies (#[trigger] turned[i]).within(limit) by {
        vstd::arithmetic::div_mod::lemma_mod_bound(start + i, n);
        assert(edges[(start + i) % n].within(limit));
    }
}

/// The edges from the lowest vertex are the edges of the outline: as many,
/// and within the same limit.
pub proof fn lemma_from_lowest_within(edges: Seq<Point>, limit: int)
    requires
        edges.len() >= 1,
        all_within(edges, limit),
    ensures
        from_lowest(edges).len() == edges.len(),
        all_within(from_lowest(edges), limit),
{
    vstd::arithmetic::div_mod::lemma_mod_bound(first_lowest(walk(edges)) + 1, edges.len() as int);
    lemma_rotated_within(edges, (first_lowest(walk(edges)) + 1) % (edges.len() as int), limit);
}

/// The sum of two sequences joined is the sum of their sums.
pub proof fn lemma_path_sum_joined(x: Seq<Point>, y: Seq<Point>)
    ensures
        path_sum(x + y) == path_sum(x).plus(path_sum(y)),
    decreases y.len(),
{
    let joined = x + y;
    if y.len() == 0 {
        assert(joined =~= x);
    } else {
        let shorter = y.drop_last();
        lemma_path_sum_joined(x, shorter);
        let n = joined.len() as int;
        lemma_prefix_sum_agrees(joined, x + shorter, n - 1);
        lemma_prefix_sum_agrees(y, shorter, y.len() - 1);
        assert(joined[n - 1] == y[y.len() - 1]);
    }
}

/// The sum of one vector is that vector.
pub proof fn lemma_path_sum_single(p: Point)
    ensures
        path_sum(seq![p]) == p,
{
    assert(prefix_sum(seq![p], 1) == prefix_sum(seq![p], 0).plus(seq![p][0]));
}

/// The successor of an index on a cycle of `n`.
pub proof fn lemma_next_cyclic(i: int, n: int)
    requires
        n >= 1,
        0 <= i,
    ensures
        (i + 1) % n == (if i % n + 1 == n { 0 } else { i % n + 1 }),
{
    vstd::arithmetic::div_mod::lemma_fundamental_div_mod(i, n);
    vstd::arithmetic::div_mod::lemma_mod_bound(i, n);
    let q = i / n;
    let r = i % n;
    if r + 1 == n {
        assert(i + 1 == (q + 1) * n + 0) by (nonlinear_arith)
            requires
                i == n * q + r,
                r + 1 == n,
        ;
        vstd::arithmetic::div_mod::lemma_fundamental_div_mod_converse(i + 1, n, q + 1, 0);
    } else {
        assert(i + 1 == q * n + (r + 1)) by (nonlinear_arith)
            requires
                i == n * q + r,
        ;
        vstd::arithmetic::div_mod::lemma_fundamental_div_mod_converse(i + 1, n, q, r + 1);
    }
}

/// The place reached after `i` edges of one outline and `j` of the other
/// lies within the coordinate limit.
proof fn lemma_steps_fit(i: int, j: int)
    by (nonlinear_arith)
    requires
        0 <= i <= SUM_MAX_EDGES + 1,
        0 <= j <= SUM_MAX_EDGES + 1,
    ensures
        i * SUM_EDGE_LIMIT + j * SUM_EDGE_LIMIT <= COORD_LIMIT + 2 * SUM_EDGE_LIMIT,
{
}

} // verus!
