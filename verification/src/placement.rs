use vstd::prelude::*;
use crate::minkowski::{
    from_lowest, lemma_from_lowest_within, lemma_merged_within, lemma_minkowski_closed, minkowski,
    minkowski_sum,
};
use crate::outline::{
    all_within, divided, is_closed, lemma_divided_within, lemma_prefix_sum_within, points_of,
    prefix_sum, EdgeVectors,
};
use crate::shape::{
    lemma_vertices_reach, Shape, ShapePosition, SHAPE_EDGE_LIMIT, SHAPE_MAX_EDGES,
    SHAPE_TRANSLATION_LIMIT,
};
use crate::vec2::{Point, Vec2, COORD_LIMIT};

verus! {

/// Why a shape could not be placed.
#[derive(Clone, Copy, Debug, PartialEq, Eq, Structural)]
pub enum PackingError {
    /// An outline is empty, open, has an edge of no length, or lies beyond
    /// the limits; or the edges are to be split into no parts.
    Degenerate,
    /// No candidate position clears every placed shape.
    NoValidPlacement,
}

/// Largest absolute coordinate of an edge or a translation of a shape that
/// takes part in a placement, and largest gap.
pub const PLACE_LIMIT: i64 = 0x4000_0000;

/// The views of a sequence of shapes.
pub open spec fn shapes_of(s: Seq<ShapePosition>) -> Seq<Shape> {
    s.map_values(|p: ShapePosition| p@)
}

/// The number of parts into which the edges of a no-fit outline are split.
pub open spec fn parts_of(div: Option<u32>) -> int {
    match div {
        Some(n) => n as int,
        None => 1,
    }
}

/// Whether the shape can take part in a placement: its outline is closed,
/// has an edge and none of no length, and all of it is within the limits.
pub open spec fn placeable(shape: Shape) -> bool {
    &&& 1 <= shape.edges.len() <= SHAPE_MAX_EDGES
    &&& all_within(shape.edges, PLACE_LIMIT as int)
    &&& shape.translation.within(PLACE_LIMIT as int)
    &&& is_closed(shape.edges)
    &&& forall|i: int| 0 <= i < shape.edges.len() ==> !(#[trigger] shape.edges[i]).is_zero()
}

/// Whether a placement of `shape` among `placed` can be looked for.
pub open spec fn can_place(placed: Seq<Shape>, shape: Shape, gap: int, parts: int) -> bool {
    &&& placeable(shape)
    &&& forall|k: int| 0 <= k < placed.len() ==> placeable(#[trigger] placed[k])
    &&& -PLACE_LIMIT <= gap <= PLACE_LIMIT
    &&& parts >= 1
    &&& forall|k: int|
        0 <= k < placed.len() ==> ((#[trigger] placed[k]).edges.len() + shape.edges.len()) * parts
            <= SHAPE_MAX_EDGES
}

/// The boundary of the positions at which `shape` touches `obstacle` at
/// the distance `gap`: the Minkowski sum of the two outlines around the
/// obstacle's place, each edge split into `parts`, widened by `gap`.
pub open spec fn no_fit_outline(obstacle: Shape, shape: Shape, gap: int, parts: int) -> Shape {
    (Shape {
        translation: obstacle.translation,
        edges: divided(minkowski(obstacle.edges, shape.edges), parts),
    }).offset(gap)
}

/// Whether vertex `v` of the no-fit outline around obstacle `k` exists.
pub open spec fn in_pool(
    placed: Seq<Shape>,
    shape: Shape,
    gap: int,
    parts: int,
    k: int,
    v: int,
) -> bool {
    0 <= k < placed.len() && 0 <= v < no_fit_outline(placed[k], shape, gap, parts).edges.len()
}

/// The candidate position that is vertex `v` of the no-fit outline around
/// obstacle `k`.
pub open spec fn candidate(
    placed: Seq<Shape>,
    shape: Shape,
    gap: int,
    parts: int,
    k: int,
    v: int,
) -> Point {
    no_fit_outline(placed[k], shape, gap, parts).vertices()[v]
}

/// Whether `shape`, moved to `at`, keeps clear of the placed shapes widened
/// by `gap`: it may touch a widened shape, which puts it at the distance
/// `gap` from the shape itself, but shares no more than boundary with it.
pub open spec fn clears(at: Point, placed: Seq<Shape>, shape: Shape, gap: int) -> bool {
    forall|k: int|
        0 <= k < placed.len() ==> !(Shape { translation: at, edges: shape.edges }).interiors_meet(
            (#[trigger] placed[k]).offset(gap),
        )
}

/// Whether candidate `(k2, v2)` comes before `(k, v)` in the order in which
/// the pool is walked.
pub open spec fn comes_before(k2: int, v2: int, k: int, v: int) -> bool {
    k2 < k || (k2 == k && v2 < v)
}

/// Whether `at` is candidate `(k, v)` and every clear candidate that comes
/// before it in the pool is further from where the shape was.
pub open spec fn is_first_nearest(
    placed: Seq<Shape>,
    shape: Shape,
    gap: int,
    parts: int,
    k: int,
    v: int,
    at: Point,
) -> bool {
    &&& candidate(placed, shape, gap, parts, k, v) == at
    &&& forall|k2: int, v2: int|
        #[trigger] in_pool(placed, shape, gap, parts, k2, v2) && comes_before(k2, v2, k, v)
            && clears(candidate(placed, shape, gap, parts, k2, v2), placed, shape, gap)
            ==> at.dist2(shape.translation) < candidate(placed, shape, gap, parts, k2, v2).dist2(
            shape.translation,
        )
}

/// What is known of the nearest clear candidate when the pool has been
/// walked up to candidate `(k, v)`.
pub open spec fn nearest_before(
    placed: Seq<Shape>,
    shape: Shape,
    gap: int,
    parts: int,
    k: int,
    v: int,
    found: Option<Point>,
) -> bool {
    match found {
        Some(at) => {
            &&& clears(at, placed, shape, gap)
            &&& exists|k0: int, v0: int|
                #[trigger] in_pool(placed, shape, gap, parts, k0, v0) && comes_before(k0, v0, k, v)
                    && is_first_nearest(placed, shape, gap, parts, k0, v0, at)
            &&& forall|k2: int, v2: int|
                #[trigger] in_pool(placed, shape, gap, parts, k2, v2) && comes_before(k2, v2, k, v)
                    && clears(candidate(placed, shape, gap, parts, k2, v2), placed, shape, gap)
                    ==> at.dist2(shape.translation) <= candidate(
                    placed,
                    shape,
                    gap,
                    parts,
                    k2,
                    v2,
                ).dist2(shape.translation)
        },
        None => forall|k2: int, v2: int|
            #[trigger] in_pool(placed, shape, gap, parts, k2, v2) && comes_before(k2, v2, k, v)
                ==> !clears(candidate(placed, shape, gap, parts, k2, v2), placed, shape, gap),
    }
}

/// What [`fill`] returns for a request: the shape at a candidate position
/// that clears every placed shape and is nearest to where the shape was,
/// the first in the pool of those that are equally near;
/// `NoValidPlacement` where no candidate clears them all; `Degenerate`
/// where the request cannot be worked on.
pub open spec fn is_fill_result(
    placed: Seq<Shape>,
    shape: Shape,
    gap: int,
    div: Option<u32>,
    result: Result<Shape, PackingError>,
) -> bool {
    let parts = parts_of(div);
    match result {
        Ok(at) => {
            &&& can_place(placed, shape, gap, parts)
            &&& at.edges == shape.edges
            &&& clears(at.translation, placed, shape, gap)
            &&& exists|k: int, v: int|
                #[trigger] in_pool(placed, shape, gap, parts, k, v) && is_first_nearest(
                    placed,
                    shape,
                    gap,
                    parts,
                    k,
                    v,
                    at.translation,
                )
            &&& forall|k: int, v: int|
                #[trigger] in_pool(placed, shape, gap, parts, k, v) && clears(
                    candidate(placed, shape, gap, parts, k, v),
                    placed,
                    shape,
                    gap,
                ) ==> at.translation.dist2(shape.translation) <= candidate(
                    placed,
                    shape,
                    gap,
                    parts,
                    k,
                    v,
                ).dist2(shape.translation)
        },
        Err(PackingError::Degenerate) => !can_place(placed, shape, gap, parts),
        Err(PackingError::NoValidPlacement) => {
            &&& can_place(placed, shape, gap, parts)
            &&& forall|k: int, v: int|
                #[trigger] in_pool(placed, shape, gap, parts, k, v) ==> !clears(
                    candidate(placed, shape, gap, parts, k, v),
                    placed,
                    shape,
                    gap,
                )
        },
    }
}

/// The view of what [`fill`] returns.
pub open spec fn outcome_of(result: Result<ShapePosition, PackingError>) -> Result<
    Shape,
    PackingError,
> {
    match result {
        Ok(at) => Ok(at@),
        Err(e) => Err(e),
    }
}

/// Whether the shape can take part in a placement.
pub fn is_placeable(shape: &ShapePosition) -> (r: bool)
    ensures
        r == placeable(shape@),
{
    let n: usize = shape.edges.len();
    if n < 1 || n > SHAPE_MAX_EDGES {
        return false;
    }
    if !shape.edges.is_within(PLACE_LIMIT) || !shape.translation.is_within(PLACE_LIMIT) {
        return false;
    }
    let mut total_x: i128 = 0;
    let mut total_y: i128 = 0;
    let mut i: usize = 0;
    while i < n
        invariant
            0 <= i <= n,
            n == shape.edges@.len(),
            n <= SHAPE_MAX_EDGES,
            all_within(shape.edges@, PLACE_LIMIT as int),
            total_x == prefix_sum(shape.edges@, i as int).x,
            total_y == prefix_sum(shape.edges@, i as int).y,
            forall|j: int| 0 <= j < i ==> !(#[trigger] shape.edges@[j]).is_zero(),
        decreases n - i,
    {
        let edge: Vec2 = shape.edges.0[i];
        proof {
            lemma_prefix_sum_within(shape.edges@, i as int, PLACE_LIMIT as int);
            assert(i * PLACE_LIMIT <= SHAPE_MAX_EDGES * PLACE_LIMIT) by (nonlinear_arith)
                requires
                    0 <= i <= SHAPE_MAX_EDGES,
            ;
            assert(shape.edges@[i as int] == edge@);
            assert(shape.edges@[i as int].within(PLACE_LIMIT as int));
        }
        if edge.x == 0 && edge.y == 0 {
            return false;
        }
        total_x = total_x + edge.x as i128;
        total_y = total_y + edge.y as i128;
        i += 1;
    }
    total_x == 0 && total_y == 0
}

/// Whether a placement of `shape` among `placed` can be looked for.
pub fn is_request_valid(
    placed: &[ShapePosition],
    shape: &ShapePosition,
    gap: i64,
    parts: u32,
) -> (r: bool)
    ensures
        r == can_place(shapes_of(placed@), shape@, gap as int, parts as int),
{
    if !is_placeable(shape) || gap < -PLACE_LIMIT || gap > PLACE_LIMIT || parts < 1 {
        return false;
    }
    let ghost views = shapes_of(placed@);
    let m: u64 = shape.edges.len() as u64;
    let mut k: usize = 0;
    while k < placed.len()
        invariant
            0 <= k <= placed@.len(),
            views == shapes_of(placed@),
            m == shape@.edges.len(),
            1 <= m <= SHAPE_MAX_EDGES,
            forall|l: int| 0 <= l < k ==> placeable(#[trigger] views[l]),
            forall|l: int|
                0 <= l < k ==> ((#[trigger] views[l]).edges.len() + shape@.edges.len()) * parts
                    <= SHAPE_MAX_EDGES,
        decreases placed@.len() - k,
    {
        assert(views[k as int] == placed@[k as int]@);
        if !is_placeable(&placed[k]) {
            return false;
        }
        let n: u64 = placed[k].edges.len() as u64;
        proof {
            assert((n + m) * parts <= 0x2000 * 0x1_0000_0000) by (nonlinear_arith)
                requires
                    0 <= n + m <= 0x2000,
                    0 <= parts <= 0xffff_ffff,
            ;
        }
        if (n + m) * (parts as u64) > SHAPE_MAX_EDGES as u64 {
            return false;
        }
        k += 1;
    }
    true
}

/// The candidate positions around one obstacle: the vertices of its no-fit
/// outline.
pub fn no_fit_candidates(
    obstacle: &ShapePosition,
    shape: &ShapePosition,
    gap: i64,
    parts: u32,
) -> (candidates: Vec<Vec2>)
    requires
        placeable(obstacle@),
        placeable(shape@),
        -PLACE_LIMIT <= gap <= PLACE_LIMIT,
        parts >= 1,
        (obstacle@.edges.len() + shape@.edges.len()) * parts <= SHAPE_MAX_EDGES,
    ensures
        points_of(candidates@) == no_fit_outline(
            obstacle@,
            shape@,
            gap as int,
            parts as int,
        ).vertices(),
        candidates@.len() == no_fit_outline(obstacle@, shape@, gap as int, parts as int).edges.len(),
        all_within(points_of(candidates@), SHAPE_TRANSLATION_LIMIT as int),
{
    let ghost left = from_lowest(obstacle@.edges);
    let ghost right = from_lowest(shape@.edges);
    proof {
        assert(all_within(obstacle@.edges, 0x100_0000_0000)) by {
            assert forall|i: int| 0 <= i < obstacle@.edges.len() implies (
            #[trigger] obstacle@.edges[i]).within(0x100_0000_0000) by {
                assert(obstacle@.edges[i].within(PLACE_LIMIT as int));
            }
        }
        assert(all_within(shape@.edges, 0x100_0000_0000)) by {
            assert forall|i: int| 0 <= i < shape@.edges.len() implies (#[trigger] shape@.edges[i]).within(
                0x100_0000_0000,
            ) by {
                assert(shape@.edges[i].within(PLACE_LIMIT as int));
            }
        }
    }
    let sum: EdgeVectors = minkowski_sum(&obstacle.edges, &shape.edges);
    let split: EdgeVectors = sum.divide(parts);
    proof {
        lemma_minkowski_closed(obstacle@.edges, shape@.edges);
        lemma_from_lowest_within(obstacle@.edges, PLACE_LIMIT as int);
        lemma_from_lowest_within(shape@.edges, PLACE_LIMIT as int);
        lemma_merged_within(left, right, PLACE_LIMIT as int);
        lemma_divided_within(sum@, parts as int, 2 * PLACE_LIMIT);
        let count = sum@.len() as int;
        assert(1 <= count * parts <= SHAPE_MAX_EDGES) by (nonlinear_arith)
            requires
                1 <= count <= obstacle@.edges.len() + shape@.edges.len(),
                parts >= 1,
                (obstacle@.edges.len() + shape@.edges.len()) * parts <= SHAPE_MAX_EDGES,
        ;
    }
    let mut outline = ShapePosition { translation: obstacle.translation, edges: split };
    proof {
        assert(outline@ == (Shape {
            translation: obstacle@.translation,
            edges: divided(minkowski(obstacle@.edges, shape@.edges), parts as int),
        }));
        assert(outline@.can_offset());
    }
    outline.offset(gap);
    proof {
        assert(all_within(outline@.edges, SHAPE_EDGE_LIMIT as int));
        lemma_vertices_reach(outline@, SHAPE_EDGE_LIMIT as int, 0x4000_0000_0000);
        let count = outline@.edges.len() as int;
        assert(count * SHAPE_EDGE_LIMIT <= SHAPE_MAX_EDGES * SHAPE_EDGE_LIMIT) by (nonlinear_arith)
            requires
                0 <= count <= SHAPE_MAX_EDGES,
        ;
        let reached = outline@.vertices();
        assert forall|i: int| 0 <= i < reached.len() implies (#[trigger] reached[i]).within(
            SHAPE_TRANSLATION_LIMIT as int,
        ) by {
            assert(reached[i].within(0x4000_0000_0000 + 2 * (count * SHAPE_EDGE_LIMIT)));
        }
    }
    let candidates: Vec<Vec2> = outline.vertices();
    assert(points_of(candidates@).len() == candidates@.len());
    candidates
}

/// The placed shapes, each widened by `gap`.
pub fn widened_by(placed: &[ShapePosition], gap: i64) -> (widened: Vec<ShapePosition>)
    requires
        forall|k: int| 0 <= k < placed@.len() ==> placeable(#[trigger] shapes_of(placed@)[k]),
        -PLACE_LIMIT <= gap <= PLACE_LIMIT,
    ensures
        widened@.len() == placed@.len(),
        forall|k: int|
            0 <= k < placed@.len() ==> (#[trigger] shapes_of(widened@)[k]) == shapes_of(
                placed@,
            )[k].offset(gap as int) && shapes_of(widened@)[k].fits(),
{
    let ghost views = shapes_of(placed@);
    let mut widened: Vec<ShapePosition> = Vec::with_capacity(placed.len());
    let mut k: usize = 0;
    while k < placed.len()
        invariant
            0 <= k <= placed@.len(),
            views == shapes_of(placed@),
            forall|l: int| 0 <= l < placed@.len() ==> placeable(#[trigger] views[l]),
            -PLACE_LIMIT <= gap <= PLACE_LIMIT,
            widened@.len() == k,
            forall|l: int|
                0 <= l < k ==> (#[trigger] shapes_of(widened@)[l]) == views[l].offset(gap as int)
                    && shapes_of(widened@)[l].fits(),
        decreases placed@.len() - k,
    {
        assert(placeable(views[k as int]));
        assert(views[k as int] == placed@[k as int]@);
        let mut wide: ShapePosition = placed[k].clone();
        wide.offset(gap);
        let ghost before = shapes_of(widened@);
        widened.push(wide);
        proof {
            let after = shapes_of(widened@);
            assert forall|l: int| 0 <= l < k + 1 implies (#[trigger] after[l]) == views[l].offset(
                gap as int,
            ) && after[l].fits() by {
                if l < k {
                    assert(after[l] == before[l]);
                }
            }
        }
        k += 1;
    }
    widened
}

/// Whether the trial shape shares no more than boundary with any of the
/// obstacles.
pub fn clears_all(trial: &ShapePosition, obstacles: &Vec<ShapePosition>) -> (r: bool)
    requires
        trial@.fits(),
        forall|k: int| 0 <= k < obstacles@.len() ==> (#[trigger] shapes_of(obstacles@)[k]).fits(),
    ensures
        r == forall|k: int|
            0 <= k < obstacles@.len() ==> !trial@.interiors_meet(#[trigger] shapes_of(obstacles@)[k]),
{
    let ghost views = shapes_of(obstacles@);
    let mut k: usize = 0;
    while k < obstacles.len()
        invariant
            0 <= k <= obstacles@.len(),
            trial@.fits(),
            views == shapes_of(obstacles@),
            forall|l: int| 0 <= l < obstacles@.len() ==> (#[trigger] views[l]).fits(),
            forall|l: int| 0 <= l < k ==> !trial@.interiors_meet(#[trigger] views[l]),
        decreases obstacles@.len() - k,
    {
        assert(views[k as int].fits());
        assert(views[k as int] == obstacles@[k as int]@);
        if trial.interiors_meet(&obstacles[k]) {
            return false;
        }
        k += 1;
    }
    true
}

/// Whether `shape`, moved to `at`, keeps clear of the placed shapes widened
/// by the gap, which `obstacles` holds.
fn clears_at(
    at: Vec2,
    shape: &ShapePosition,
    obstacles: &Vec<ShapePosition>,
    Ghost(placed): Ghost<Seq<Shape>>,
    Ghost(gap): Ghost<int>,
) -> (clear: bool)
    requires
        at@.within(SHAPE_TRANSLATION_LIMIT as int),
        placeable(shape@),
        obstacles@.len() == placed.len(),
        forall|l: int|
            0 <= l < placed.len() ==> (#[trigger] shapes_of(obstacles@)[l]) == placed[l].offset(gap)
                && shapes_of(obstacles@)[l].fits(),
    ensures
        clear == clears(at@, placed, shape@, gap),
{
    proof {
        assert(all_within(shape@.edges, SHAPE_EDGE_LIMIT as int)) by {
            assert forall|i: int| 0 <= i < shape@.edges.len() implies (#[trigger] shape@.edges[i]).within(
                SHAPE_EDGE_LIMIT as int,
            ) by {
                assert(shape@.edges[i].within(PLACE_LIMIT as int));
            }
        }
    }
    let trial = ShapePosition { translation: at, edges: shape.edges.clone() };
    let clear: bool = clears_all(&trial, obstacles);
    proof {
        assert(trial@ == (Shape { translation: at@, edges: shape@.edges }));
        if clear {
            assert forall|l: int| 0 <= l < placed.len() implies !trial@.interiors_meet(
                (#[trigger] placed[l]).offset(gap),
            ) by {
                assert(shapes_of(obstacles@)[l] == placed[l].offset(gap));
            }
        } else {
            let l = choose|l: int|
                0 <= l < obstacles@.len() && trial@.interiors_meet(#[trigger] shapes_of(obstacles@)[l]);
            assert(shapes_of(obstacles@)[l] == placed[l].offset(gap));
        }
    }
    clear
}

/// What is found after candidate `(k, v)` has been looked at: the candidate
/// itself where it is clear and nearer than what was found before.
pub open spec fn found_after(found: Option<Point>, at: Point, clear: bool, from: Point) -> Option<
    Point,
> {
    match found {
        Some(best) => if clear && at.dist2(from) < best.dist2(from) {
            Some(at)
        } else {
            found
        },
        None => if clear {
            Some(at)
        } else {
            found
        },
    }
}

/// Looking at one more candidate keeps what is known of the nearest one.
pub proof fn lemma_nearest_step(
    placed: Seq<Shape>,
    shape: Shape,
    gap: int,
    parts: int,
    k: int,
    v: int,
    found: Option<Point>,
)
    requires
        in_pool(placed, shape, gap, parts, k, v),
        nearest_before(placed, shape, gap, parts, k, v, found),
    ensures
        nearest_before(
            placed,
            shape,
            gap,
            parts,
            k,
            v + 1,
            found_after(
                found,
                candidate(placed, shape, gap, parts, k, v),
                clears(candidate(placed, shape, gap, parts, k, v), placed, shape, gap),
                shape.translation,
            ),
        ),
{
    let at = candidate(placed, shape, gap, parts, k, v);
    let clear = clears(at, placed, shape, gap);
    let after = found_after(found, at, clear, shape.translation);
    assert forall|k2: int, v2: int| comes_before(k2, v2, k, v + 1) implies comes_before(
        k2,
        v2,
        k,
        v,
    ) || (k2 == k && v2 == v) by {}
    match after {
        Some(best) => {
            if found != after {
                assert(in_pool(placed, shape, gap, parts, k, v) && comes_before(k, v, k, v + 1)
                    && is_first_nearest(placed, shape, gap, parts, k, v, best));
            } else {
                let (k0, v0) = choose|k0: int, v0: int|
                    #[trigger] in_pool(placed, shape, gap, parts, k0, v0) && comes_before(
                        k0,
                        v0,
                        k,
                        v,
                    ) && is_first_nearest(placed, shape, gap, parts, k0, v0, best);
                assert(in_pool(placed, shape, gap, parts, k0, v0) && comes_before(k0, v0, k, v + 1));
            }
        },
        None => {},
    }
}

/// When the outline around one obstacle has been walked, the walk stands at
/// the start of the next.
pub proof fn lemma_nearest_next(
    placed: Seq<Shape>,
    shape: Shape,
    gap: int,
    parts: int,
    k: int,
    found: Option<Point>,
)
    requires
        0 <= k < placed.len(),
        nearest_before(
            placed,
            shape,
            gap,
            parts,
            k,
            no_fit_outline(placed[k], shape, gap, parts).edges.len() as int,
            found,
        ),
    ensures
        nearest_before(placed, shape, gap, parts, k + 1, 0, found),
{
    let count = no_fit_outline(placed[k], shape, gap, parts).edges.len() as int;
    assert forall|k2: int, v2: int| #[trigger]
        in_pool(placed, shape, gap, parts, k2, v2) && comes_before(
            k2,
            v2,
            k + 1,
            0,
        ) implies comes_before(k2, v2, k, count) by {}
    match found {
        Some(best) => {
            let (k0, v0) = choose|k0: int, v0: int|
                #[trigger] in_pool(placed, shape, gap, parts, k0, v0) && comes_before(
                    k0,
                    v0,
                    k,
                    count,
                ) && is_first_nearest(placed, shape, gap, parts, k0, v0, best);
            assert(in_pool(placed, shape, gap, parts, k0, v0) && comes_before(k0, v0, k + 1, 0));
        },
        None => {},
    }
}

/// When the whole pool has been walked, what was found is the result.
pub proof fn lemma_nearest_of_all(
    placed: Seq<Shape>,
    shape: Shape,
    gap: int,
    div: Option<u32>,
    found: Option<Point>,
)
    requires
        can_place(placed, shape, gap, parts_of(div)),
        nearest_before(placed, shape, gap, parts_of(div), placed.len() as int, 0, found),
    ensures
        is_fill_result(
            placed,
            shape,
            gap,
            div,
            match found {
                Some(at) => Ok(Shape { translation: at, edges: shape.edges }),
                None => Err(PackingError::NoValidPlacement),
            },
        ),
{
    let parts = parts_of(div);
    assert forall|k2: int, v2: int| #[trigger]
        in_pool(placed, shape, gap, parts, k2, v2) implies comes_before(
        k2,
        v2,
        placed.len() as int,
        0,
    ) by {}
}

/// Find the place for `shape_to_place` that is nearest to where it is and
/// at which it keeps the distance `offset` from every placed shape.
///
/// The candidates are the vertices of the no-fit outlines around the placed
/// shapes, each edge of an outline split into `div` parts where that is
/// given. Every candidate is held against every placed shape, widened by
/// `offset`: the shape may touch a widened shape, which puts it at that
/// distance from the shape itself, but may share no more than boundary with
/// it. Of the candidates that clear all the nearest is kept while the pool
/// is walked, so the candidates need no sorting.
pub fn fill(
    placed_shapes: &[ShapePosition],
    shape_to_place: &ShapePosition,
    offset: i64,
    div: Option<u32>,
) -> (result: Result<ShapePosition, PackingError>)
    ensures
        is_fill_result(
            shapes_of(placed_shapes@),
            shape_to_place@,
            offset as int,
            div,
            outcome_of(result),
        ),
{
    let parts: u32 = match div {
        Some(n) => n,
        None => 1,
    };
    if !is_request_valid(placed_shapes, shape_to_place, offset, parts) {
        return Err(PackingError::Degenerate);
    }
    let ghost placed = shapes_of(placed_shapes@);
    let ghost shape = shape_to_place@;
    let ghost gap = offset as int;
    let ghost split = parts as int;
    let obstacles: Vec<ShapePosition> = widened_by(placed_shapes, offset);
    let mut found: Option<Vec2> = None;
    let mut nearest: i128 = 0;
    let mut k: usize = 0;
    while k < placed_shapes.len()
        invariant
            0 <= k <= placed_shapes@.len(),
            placed == shapes_of(placed_shapes@),
            shape == shape_to_place@,
            gap == offset,
            split == parts,
            can_place(placed, shape, gap, split),
            obstacles@.len() == placed.len(),
            forall|l: int|
                0 <= l < placed.len() ==> (#[trigger] shapes_of(obstacles@)[l]) == placed[l].offset(
                    gap,
                ) && shapes_of(obstacles@)[l].fits(),
            nearest_before(placed, shape, gap, split, k as int, 0, view_of(found)),
            found is Some ==> nearest == found->0@.dist2(shape.translation),
        decreases placed_shapes@.len() - k,
    {
        assert(placeable(placed[k as int]));
        assert(placed[k as int] == placed_shapes@[k as int]@);
        let candidates: Vec<Vec2> = no_fit_candidates(
            &placed_shapes[k],
            shape_to_place,
            offset,
            parts,
        );
        let ghost count = no_fit_outline(placed[k as int], shape, gap, split).edges.len() as int;
        let mut v: usize = 0;
        while v < candidates.len()
            invariant
                0 <= v <= candidates@.len(),
                0 <= k < placed.len(),
                shape == shape_to_place@,
                placeable(shape),
                obstacles@.len() == placed.len(),
                forall|l: int|
                    0 <= l < placed.len() ==> (#[trigger] shapes_of(obstacles@)[l])
                        == placed[l].offset(gap) && shapes_of(obstacles@)[l].fits(),
                candidates@.len() == count,
                count == no_fit_outline(placed[k as int], shape, gap, split).edges.len(),
                forall|i: int|
                    0 <= i < count ==> (#[trigger] candidates@[i])@ == candidate(
                        placed,
                        shape,
                        gap,
                        split,
                        k as int,
                        i,
                    ) && candidates@[i]@.within(SHAPE_TRANSLATION_LIMIT as int),
                nearest_before(placed, shape, gap, split, k as int, v as int, view_of(found)),
                found is Some ==> nearest == found->0@.dist2(shape.translation),
            decreases candidates@.len() - v,
        {
            let at: Vec2 = candidates[v];
            let clear: bool = clears_at(at, shape_to_place, &obstacles, Ghost(placed), Ghost(gap));
            proof {
                assert(in_pool(placed, shape, gap, split, k as int, v as int));
                lemma_nearest_step(placed, shape, gap, split, k as int, v as int, view_of(found));
            }
            if clear {
                proof {
                    assert(at@.within(COORD_LIMIT as int));
                    assert(shape.translation.within(COORD_LIMIT as int));
                }
                let distance: i128 = at.dist2(&shape_to_place.translation);
                let nearer: bool = match found {
                    Some(_) => distance < nearest,
                    None => true,
                };
                if nearer {
                    found = Some(at);
                    nearest = distance;
                }
            }
            v += 1;
        }
        proof {
            lemma_nearest_next(placed, shape, gap, split, k as int, view_of(found));
        }
        k += 1;
    }
    proof {
        lemma_nearest_of_all(placed, shape, gap, div, view_of(found));
    }
    match found {
        Some(at) => Ok(ShapePosition { translation: at, edges: shape_to_place.edges.clone() }),
        None => Err(PackingError::NoValidPlacement),
    }
}

/// Where a shape is after an arrangement has dealt with it: where it was
/// placed, or where it was if there was no place for it.
pub open spec fn settled(shape: Shape, outcome: Result<Shape, PackingError>) -> Shape {
    match outcome {
        Ok(at) => at,
        Err(_) => shape,
    }
}

/// The views of the outcomes of an arrangement.
pub open spec fn outcomes_of(outcomes: Seq<Result<ShapePosition, PackingError>>) -> Seq<
    Result<Shape, PackingError>,
> {
    outcomes.map_values(|r: Result<ShapePosition, PackingError>| outcome_of(r))
}

/// The shapes that are in place when shape `i` of an arrangement is dealt
/// with: the last shape, which stays, and the shapes before `i` where they
/// have settled.
pub open spec fn placed_before(
    shapes: Seq<Shape>,
    outcomes: Seq<Result<Shape, PackingError>>,
    i: int,
) -> Seq<Shape> {
    seq![shapes.last()] + Seq::new(i as nat, |j: int| settled(shapes[j], outcomes[j]))
}

/// Arrange the shapes so that they keep the distance `gap` from each other.
///
/// The last shape stays where it is. The others are dealt with one after
/// another, in their order: each is placed with [`fill`] among the last
/// shape and those before it, where they have settled. A shape for which
/// there is no place stays where it is, and its outcome says why. The
/// outcomes come in the order of the shapes.
pub fn organize(shapes: &[ShapePosition], gap: i64, div: Option<u32>) -> (outcomes: Vec<
    Result<ShapePosition, PackingError>,
>)
    ensures
        outcomes@.len() == shapes@.len(),
        shapes@.len() >= 1 ==> outcomes_of(outcomes@).last() == Ok::<Shape, PackingError>(
            shapes_of(shapes@).last(),
        ),
        forall|i: int|
            0 <= i < shapes@.len() - 1 ==> is_fill_result(
                placed_before(shapes_of(shapes@), outcomes_of(outcomes@), i),
                shapes_of(shapes@)[i],
                gap as int,
                div,
                #[trigger] outcomes_of(outcomes@)[i],
            ),
{
    let n: usize = shapes.len();
    let mut outcomes: Vec<Result<ShapePosition, PackingError>> = Vec::with_capacity(n);
    if n == 0 {
        return outcomes;
    }
    let ghost given = shapes_of(shapes@);
    let mut placed: Vec<ShapePosition> = Vec::with_capacity(n);
    placed.push(shapes[n - 1].clone());
    proof {
        assert(shapes_of(placed@) =~= placed_before(given, outcomes_of(outcomes@), 0));
    }
    let mut i: usize = 0;
    while i < n - 1
        invariant
            0 <= i <= n - 1,
            n == shapes@.len(),
            given == shapes_of(shapes@),
            outcomes@.len() == i,
            shapes_of(placed@) == placed_before(given, outcomes_of(outcomes@), i as int),
            forall|j: int|
                0 <= j < i ==> is_fill_result(
                    placed_before(given, outcomes_of(outcomes@), j),
                    given[j],
                    gap as int,
                    div,
                    #[trigger] outcomes_of(outcomes@)[j],
                ),
        decreases n - 1 - i,
    {
        let ghost prior = shapes_of(placed@);
        let ghost before = outcomes_of(outcomes@);
        let outcome: Result<ShapePosition, PackingError> = fill(
            placed.as_slice(),
            &shapes[i],
            gap,
            div,
        );
        let stays: ShapePosition = match &outcome {
            Ok(at) => at.clone(),
            Err(_) => shapes[i].clone(),
        };
        assert(stays@ == settled(given[i as int], outcome_of(outcome)));
        placed.push(stays);
        outcomes.push(outcome);
        proof {
            let after = outcomes_of(outcomes@);
            assert(after =~= before.push(outcome_of(outcome)));
            assert(shapes_of(placed@) =~= prior.push(stays@));
            assert(prior.push(stays@) =~= placed_before(given, after, i + 1));
            assert forall|j: int| 0 <= j < i + 1 implies is_fill_result(
                placed_before(given, after, j),
                given[j],
                gap as int,
                div,
                #[trigger] after[j],
            ) by {
                assert(placed_before(given, after, j) =~= placed_before(given, before, j));
                if j < i {
                    assert(after[j] == before[j]);
                }
            }
        }
        i += 1;
    }
    let ghost before = outcomes_of(outcomes@);
    outcomes.push(Ok(shapes[n - 1].clone()));
    proof {
        let after = outcomes_of(outcomes@);
        assert(after =~= before.push(Ok(given[n - 1])));
        assert forall|j: int| 0 <= j < n - 1 implies is_fill_result(
            placed_before(given, after, j),
            given[j],
            gap as int,
            div,
            #[trigger] after[j],
        ) by {
            assert(placed_before(given, after, j) =~= placed_before(given, before, j));
            assert(after[j] == before[j]);
        }
    }
    outcomes
}

/// The view of a position that may have been found.
pub open spec fn view_of(found: Option<Vec2>) -> Option<Point> {
    match found {
        Some(at) => Some(at@),
        None => None,
    }
}

} // verus!
