use vstd::prelude::*;
use vstd::arithmetic::div_mod::{lemma_mod_self_0, lemma_small_mod};
use crate::minkowski::{
    first_lowest, from_lowest, is_first_lowest, lemma_first_lowest_is, lemma_first_lowest_unique,
    lemma_minkowski_closed, merged, minkowski, rotated,
};
use crate::outline::{divided, is_closed, lemma_sub_edge_exact, prefix_sum, sub_edge, walk};
use crate::vec2::Point;

verus! {

/// Whether both coordinates of every edge are even.
pub open spec fn all_even(edges: Seq<Point>) -> bool {
    forall|i: int| 0 <= i < edges.len() ==> (#[trigger] edges[i]).x % 2 == 0 && edges[i].y % 2 == 0
}

/// Half of a vector.
pub open spec fn halved(e: Point) -> Point {
    Point { x: e.x / 2, y: e.y / 2 }
}

/// The Minkowski sum of two outlines with their edges split in two is their
/// Minkowski sum with its edges split in two: it has twice as many edges,
/// each half as long, in the same order, every one twice.
pub proof fn lemma_sum_of_halves(a: Seq<Point>, b: Seq<Point>)
    requires
        a.len() >= 1,
        b.len() >= 1,
        is_closed(a),
        is_closed(b),
        all_even(a),
        all_even(b),
        forall|i: int| 0 <= i < a.len() ==> !(#[trigger] a[i]).is_zero(),
        forall|i: int| 0 <= i < b.len() ==> !(#[trigger] b[i]).is_zero(),
    ensures
        minkowski(divided(a, 2), divided(b, 2)) == divided(minkowski(a, b), 2),
        minkowski(divided(a, 2), divided(b, 2)).len() == 2 * minkowski(a, b).len(),
{
    lemma_from_lowest_of_halves(a);
    lemma_from_lowest_of_halves(b);
    lemma_minkowski_closed(a, b);
    lemma_divided_halves(a, 0);
    lemma_divided_halves(b, 0);
    lemma_halves_prefix(a, a.len() as int);
    lemma_halves_prefix(b, b.len() as int);
    lemma_minkowski_closed(divided(a, 2), divided(b, 2));
    lemma_from_lowest_even(a);
    lemma_from_lowest_even(b);
    lemma_merged_halves(from_lowest(a), from_lowest(b));
}

/// Merging the halves of even edges gives the halves of the merged edges:
/// the edges of the two outlines come in the same order, each twice and
/// half as long.
pub proof fn lemma_merged_halves(a: Seq<Point>, b: Seq<Point>)
    requires
        all_even(a),
        all_even(b),
    ensures
        merged(divided(a, 2), divided(b, 2)) == divided(merged(a, b), 2),
        all_even(merged(a, b)),
    decreases a.len() + b.len(),
{
    let halves_a = divided(a, 2);
    let halves_b = divided(b, 2);
    if a.len() == 0 {
        assert(halves_a =~= Seq::<Point>::empty());
    } else if b.len() == 0 {
        assert(halves_b =~= Seq::<Point>::empty());
    } else {
        let rest_a = a.drop_first();
        let rest_b = b.drop_first();
        let half_a = halved(a[0]);
        let half_b = halved(b[0]);
        assert(a[0].x % 2 == 0 && a[0].y % 2 == 0 && b[0].x % 2 == 0 && b[0].y % 2 == 0);
        assert(all_even(rest_a)) by {
            assert forall|i: int| 0 <= i < rest_a.len() implies (#[trigger] rest_a[i]).x % 2 == 0
                && rest_a[i].y % 2 == 0 by {
                assert(rest_a[i] == a[i + 1]);
            }
        }
        assert(all_even(rest_b)) by {
            assert forall|i: int| 0 <= i < rest_b.len() implies (#[trigger] rest_b[i]).x % 2 == 0
                && rest_b[i].y % 2 == 0 by {
                assert(rest_b[i] == b[i + 1]);
            }
        }
        lemma_divided_first(a);
        lemma_divided_first(b);
        lemma_sub_edge_exact(a[0], 2, 0);
        lemma_sub_edge_exact(a[0], 2, 1);
        lemma_sub_edge_exact(b[0], 2, 0);
        lemma_sub_edge_exact(b[0], 2, 1);
        assert(halves_a.drop_first() =~= seq![half_a] + divided(rest_a, 2));
        assert(halves_b.drop_first() =~= seq![half_b] + divided(rest_b, 2));
        assert(halves_a.drop_first().drop_first() =~= divided(rest_a, 2));
        assert(halves_b.drop_first().drop_first() =~= divided(rest_b, 2));
        assert(a[0].cross(b[0]) == 4 * half_a.cross(half_b)) by (nonlinear_arith)
            requires
                a[0].x == 2 * half_a.x,
                a[0].y == 2 * half_a.y,
                b[0].x == 2 * half_b.x,
                b[0].y == 2 * half_b.y,
                a[0].cross(b[0]) == a[0].x * b[0].y - a[0].y * b[0].x,
                half_a.cross(half_b) == half_a.x * half_b.y - half_a.y * half_b.x,
        ;
        let whole = merged(a, b);
        if a[0].cross(b[0]) > 0 {
            let tail = merged(rest_a, b);
            lemma_merged_halves(rest_a, b);
            assert(whole =~= seq![a[0]] + tail);
            lemma_divided_first(whole);
            assert(whole.drop_first() =~= tail);
            assert(merged(halves_a.drop_first(), halves_b) =~= seq![half_a] + merged(
                divided(rest_a, 2),
                halves_b,
            ));
            assert(merged(halves_a, halves_b) =~= divided(whole, 2));
        } else if a[0].cross(b[0]) < 0 {
            let tail = merged(a, rest_b);
            lemma_merged_halves(a, rest_b);
            assert(whole =~= seq![b[0]] + tail);
            lemma_divided_first(whole);
            assert(whole.drop_first() =~= tail);
            assert(merged(halves_a, halves_b.drop_first()) =~= seq![half_b] + merged(
                halves_a,
                divided(rest_b, 2),
            ));
            assert(merged(halves_a, halves_b) =~= divided(whole, 2));
        } else {
            let tail = merged(rest_a, rest_b);
            let both = a[0].plus(b[0]);
            lemma_merged_halves(rest_a, rest_b);
            assert(whole =~= seq![both] + tail);
            lemma_divided_first(whole);
            assert(whole.drop_first() =~= tail);
            assert(both.x % 2 == 0 && both.y % 2 == 0);
            lemma_sub_edge_exact(both, 2, 0);
            lemma_sub_edge_exact(both, 2, 1);
            assert(halved(both) == half_a.plus(half_b));
            assert(merged(halves_a.drop_first(), halves_b.drop_first()) =~= seq![
                half_a.plus(half_b),
            ] + merged(divided(rest_a, 2), divided(rest_b, 2)));
            assert(merged(halves_a, halves_b) =~= divided(whole, 2));
        }
        assert forall|i: int| 0 <= i < whole.len() implies (#[trigger] whole[i]).x % 2 == 0
            && whole[i].y % 2 == 0 by {
            if i > 0 {
                let tail = whole.drop_first();
                assert(whole[i] == tail[i - 1]);
            }
        }
    }
}

/// The halves of the edges, taken from the lowest vertex, are the halves of
/// the edges taken from the lowest vertex.
pub proof fn lemma_from_lowest_of_halves(edges: Seq<Point>)
    requires
        edges.len() >= 1,
        all_even(edges),
        is_closed(edges),
        forall|i: int| 0 <= i < edges.len() ==> !(#[trigger] edges[i]).is_zero(),
    ensures
        from_lowest(divided(edges, 2)) == divided(from_lowest(edges), 2),
{
    let n = edges.len() as int;
    let low = first_lowest(walk(edges));
    lemma_first_lowest_is(walk(edges));
    lemma_first_lowest_of_halves(edges);
    lemma_divided_halves(edges, 0);
    let start = (low + 1) % n;
    vstd::arithmetic::div_mod::lemma_mod_bound(low + 1, n);
    assert((2 * low + 2) % (2 * n) == 2 * start) by {
        if low + 1 < n {
            lemma_small_mod((low + 1) as nat, n as nat);
            lemma_small_mod((2 * low + 2) as nat, (2 * n) as nat);
        } else {
            lemma_mod_self_0(n);
            lemma_mod_self_0(2 * n);
        }
    }
    lemma_rotated_halves(edges, start);
}

/// The lowest vertex of an outline stays the lowest when the edges are
/// split in two: it is then the vertex after both halves of the edge that
/// led to it.
pub proof fn lemma_first_lowest_of_halves(edges: Seq<Point>)
    requires
        edges.len() >= 1,
        all_even(edges),
        is_closed(edges),
        forall|i: int| 0 <= i < edges.len() ==> !(#[trigger] edges[i]).is_zero(),
    ensures
        first_lowest(walk(divided(edges, 2))) == 2 * first_lowest(walk(edges)) + 1,
{
    let n = edges.len() as int;
    let v = walk(edges);
    let w = walk(divided(edges, 2));
    let low = first_lowest(v);
    lemma_first_lowest_is(v);
    lemma_divided_halves(edges, 0);
    assert(w.len() == 2 * n);
    assert(!edges[0].is_zero());
    assert(v[n - 1] == Point::zero());
    assert(!v[n - 1].below(v[low]));
    assert forall|j: int| 0 <= j < 2 * n implies !(#[trigger] w[j]).below(v[low]) && (j < 2 * low
        + 1 ==> v[low].below(w[j])) && (j == 2 * low + 1 ==> w[j] == v[low]) by {
        let k = j / 2;
        if j % 2 == 1 {
            lemma_halves_prefix(edges, k + 1);
            assert(w[j] == v[k]);
            assert(!v[k].below(v[low]));
            if k < low {
                assert(v[low].below(v[k]));
            }
        } else {
            lemma_halves_prefix(edges, k);
            let before = prefix_sum(edges, k);
            assert(edges[k].x % 2 == 0 && edges[k].y % 2 == 0);
            assert(w[j] == before.plus(halved(edges[k])));
            assert(v[k] == before.plus(edges[k]));
            assert(!v[k].below(v[low]));
            if k > 0 {
                assert(before == v[k - 1]);
                assert(!v[k - 1].below(v[low]));
            } else {
                assert(before == v[n - 1]);
            }
            lemma_half_way_above(v[low], before, v[k], w[j]);
            if j < 2 * low + 1 {
                if k > 0 {
                    assert(v[low].below(v[k - 1]));
                } else if low > 0 {
                    assert(v[low].below(v[0]));
                } else {
                    assert(v[0] == edges[0]);
                }
            }
        }
    }
    assert(is_first_lowest(w, 2 * low + 1)) by {
        assert(w[2 * low + 1] == v[low]);
    }
    lemma_first_lowest_unique(w, 2 * low + 1);
}

/// A point half way between two points that are not below `p` is not below
/// `p`, and it is above `p` where one of the two is.
pub proof fn lemma_half_way_above(p: Point, q: Point, r: Point, mid: Point)
    requires
        mid.x + mid.x == q.x + r.x,
        mid.y + mid.y == q.y + r.y,
        !q.below(p),
        !r.below(p),
    ensures
        !mid.below(p),
        p.below(q) || p.below(r) ==> p.below(mid),
{
}

/// The halves of even edges lead as far as the edges: after both halves of
/// the first `k` edges the walk stands where it stands after those edges.
pub proof fn lemma_halves_prefix(edges: Seq<Point>, k: int)
    requires
        all_even(edges),
        0 <= k <= edges.len(),
    ensures
        prefix_sum(divided(edges, 2), 2 * k) == prefix_sum(edges, k),
        k < edges.len() ==> prefix_sum(divided(edges, 2), 2 * k + 1) == prefix_sum(edges, k).plus(
            halved(edges[k]),
        ),
    decreases k,
{
    let halves = divided(edges, 2);
    if k > 0 {
        lemma_halves_prefix(edges, k - 1);
        lemma_divided_halves(edges, 2 * k - 2);
        lemma_divided_halves(edges, 2 * k - 1);
        assert(edges[k - 1].x % 2 == 0 && edges[k - 1].y % 2 == 0);
        assert(prefix_sum(halves, 2 * k) == prefix_sum(halves, 2 * k - 1).plus(halves[2 * k - 1]));
        assert(prefix_sum(halves, 2 * k - 1) == prefix_sum(halves, 2 * k - 2).plus(
            halves[2 * k - 2],
        ));
    }
    if k < edges.len() {
        lemma_divided_halves(edges, 2 * k);
        assert(prefix_sum(halves, 2 * k + 1) == prefix_sum(halves, 2 * k).plus(halves[2 * k]));
    }
}

/// Splitting the edges in two and starting the cycle at an edge is the same
/// as starting at the first half of that edge.
pub proof fn lemma_rotated_halves(edges: Seq<Point>, start: int)
    requires
        0 <= start < edges.len(),
    ensures
        divided(rotated(edges, start), 2) == rotated(divided(edges, 2), 2 * start),
{
    let n = edges.len() as int;
    let left = divided(rotated(edges, start), 2);
    let right = rotated(divided(edges, 2), 2 * start);
    assert(left.len() == right.len());
    assert forall|i: int| 0 <= i < 2 * n implies left[i] == right[i] by {
        let k = i / 2;
        if start + k < n {
            lemma_small_mod((start + k) as nat, n as nat);
            lemma_small_mod((2 * start + i) as nat, (2 * n) as nat);
        } else {
            vstd::arithmetic::div_mod::lemma_fundamental_div_mod_converse(
                start + k,
                n,
                1,
                start + k - n,
            );
            vstd::arithmetic::div_mod::lemma_fundamental_div_mod_converse(
                2 * start + i,
                2 * n,
                1,
                2 * start + i - 2 * n,
            );
        }
    }
    assert(left =~= right);
}

/// The edges from the lowest vertex are even where the edges are.
pub proof fn lemma_from_lowest_even(edges: Seq<Point>)
    requires
        edges.len() >= 1,
        all_even(edges),
    ensures
        all_even(from_lowest(edges)),
{
    let n = edges.len() as int;
    let start = (first_lowest(walk(edges)) + 1) % n;
    let turned = from_lowest(edges);
    assert forall|i: int| 0 <= i < turned.len() implies (#[trigger] turned[i]).x % 2 == 0
        && turned[i].y % 2 == 0 by {
        vstd::arithmetic::div_mod::lemma_mod_bound(start + i, n);
        let at = (start + i) % n;
        assert(edges[at].x % 2 == 0 && edges[at].y % 2 == 0);
    }
}

/// Even edges split in two are their halves, each twice.
pub proof fn lemma_divided_halves(edges: Seq<Point>, i: int)
    requires
        all_even(edges),
        0 <= i < 2 * edges.len(),
    ensures
        divided(edges, 2).len() == 2 * edges.len(),
        divided(edges, 2)[i] == halved(edges[i / 2]),
{
    lemma_sub_edge_exact(edges[i / 2], 2, i % 2);
}

/// Splitting the edges in two splits the first edge and then the others.
pub proof fn lemma_divided_first(edges: Seq<Point>)
    requires
        edges.len() >= 1,
    ensures
        divided(edges, 2) == seq![sub_edge(edges[0], 2, 0), sub_edge(edges[0], 2, 1)] + divided(
            edges.drop_first(),
            2,
        ),
{
    let rest = edges.drop_first();
    let whole = divided(edges, 2);
    let joined = seq![sub_edge(edges[0], 2, 0), sub_edge(edges[0], 2, 1)] + divided(rest, 2);
    assert(whole.len() == joined.len());
    assert forall|i: int| 0 <= i < whole.len() implies whole[i] == joined[i] by {
        if i >= 2 {
            assert(rest[(i - 2) / 2] == edges[i / 2]);
        }
    }
    assert(whole =~= joined);
}

} // verus!
