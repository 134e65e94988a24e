use vstd::prelude::*;
use bevy::picking::Pickable;
use bevy::render::view::RenderLayers;
use crate::vec2::{lemma_product_bound, lemma_square_nonnegative, Point, Vec2};

verus! {

/// `RenderLayers` of bevy: the set of render layers that an entity or a
/// camera belongs to. What it holds is named by [`layer_bits`].
#[verifier::external_type_specification]
#[verifier::external_body]
pub struct ExRenderLayers(RenderLayers);

/// `Pickable` of bevy, with its two public fields: whether a hit on the
/// entity blocks what lies behind it, and whether the entity can be hovered.
#[verifier::external_type_specification]
pub struct ExPickable(Pickable);

/// A circular area that a pointer can hit, as the picking of one frame sees
/// it.
#[derive(Debug)]
pub struct PickingArea {
    /// The bits of the entity that owns the area.
    pub entity: u64,
    /// Where the area stands in the order from front to back: the smaller,
    /// the nearer to the viewer.
    pub order: u32,
    /// The radius of the circle, in grid units of the area's own plane.
    pub radius: i64,
    /// How the entity wants to be picked, where it says so.
    pub pickable: Option<Pickable>,
    /// The render layers of the entity, where it names any.
    pub layers: Option<RenderLayers>,
}

/// The place of a 32-bit floating-point number among all of them, from the
/// least to the greatest, told from its bits: a number whose sign bit is
/// clear stands at its bits, one whose sign bit is set stands the further
/// down the greater the rest of its bits is.
pub open spec fn float_rank(bits: u32) -> int {
    if bits < 0x8000_0000 {
        bits as int
    } else {
        -((bits - 0x8000_0000) as int) - 1
    }
}

/// The place in the order from front to back of an area at the depth with
/// the given bits: the greater the depth, the nearer to the viewer and the
/// smaller the place. It is the key by which a radix sort orders the
/// negated depth.
pub fn front_order(depth_bits: u32) -> (order: u32)
    ensures
        order == 0x7fff_ffff - float_rank(depth_bits),
{
    if depth_bits < 0x8000_0000 {
        0x7fff_ffff - depth_bits
    } else {
        depth_bits
    }
}

/// The blocks of layer bits that a set of render layers holds, as
/// `RenderLayers::bits` of bevy hands them out: bit `b` of block `i` is set
/// where the set holds layer `64 * i + b`.
pub uninterp spec fn layer_bits(layers: RenderLayers) -> Seq<u64>;

/// The blocks of layer bits of an entity: those of the layers it names, or
/// layer 0 alone where it names none.
pub open spec fn bits_or_default(layers: Option<RenderLayers>) -> Seq<u64> {
    match layers {
        Some(named) => layer_bits(named),
        None => seq![1u64],
    }
}

/// Whether block `i` of both sets holds a common layer.
pub open spec fn blocks_meet(a: Seq<u64>, b: Seq<u64>, i: int) -> bool {
    a[i] & b[i] != 0
}

/// Whether the two sets of blocks have a layer in common.
pub open spec fn share_layer(a: Seq<u64>, b: Seq<u64>) -> bool {
    exists|i: int| 0 <= i < a.len() && i < b.len() && #[trigger] blocks_meet(a, b, i)
}

/// What an answer `seen` to the question whether two sets of layers
/// intersect can be: yes where they share a layer, and no where they share
/// none, unless the two sets are alike.
pub open spec fn is_layer_answer(a: Seq<u64>, b: Seq<u64>, seen: bool) -> bool {
    &&& share_layer(a, b) ==> seen
    &&& seen ==> share_layer(a, b) || a == b
}

/// `RenderLayers::intersects` of bevy: whether the two sets share a layer.
/// It says yes where they do. Where it says yes they do, or the two are one
/// and the same set: it does not look into a set that it is handed twice.
#[verifier::external_body]
fn layers_intersect(a: &RenderLayers, b: &RenderLayers) -> (seen: bool)
    ensures
        is_layer_answer(layer_bits(*a), layer_bits(*b), seen),
{
    a.intersects(b)
}

/// `RenderLayers::default` of bevy: the set that holds layer 0 alone, which
/// is bit 0 of its one block.
#[verifier::external_body]
fn default_layers() -> (layers: RenderLayers)
    ensures
        layer_bits(layers) == seq![1u64],
{
    RenderLayers::default()
}

/// Whether an area takes part in picking at all: where markers are
/// required, only an area that is marked as pickable and can be hovered.
pub open spec fn is_considered(area: PickingArea, require_markers: bool) -> bool {
    !require_markers || match area.pickable {
        Some(marker) => marker.is_hoverable,
        None => false,
    }
}

/// Whether a hit on the area keeps the pointer from what lies behind it: an
/// area that does not say otherwise does.
pub open spec fn blocks_lower(area: PickingArea) -> bool {
    match area.pickable {
        Some(marker) => marker.should_block_lower,
        None => true,
    }
}

/// Whether the pointer, at `cursor` in the area's own plane, is inside the
/// circle. A pointer whose ray misses the plane has no cursor there.
pub open spec fn is_inside(area: PickingArea, cursor: Option<Point>) -> bool {
    match cursor {
        Some(at) => area.radius > 0 && at.norm2() < area.radius * area.radius,
        None => false,
    }
}

/// Whether area `i` is hit and no hit in front of it kept the pointer: one
/// of the areas that the pointer picks.
pub open spec fn is_picked(
    areas: Seq<PickingArea>,
    cursors: Seq<Option<Point>>,
    seen: Seq<bool>,
    i: int,
) -> bool {
    &&& 0 <= i < areas.len()
    &&& seen[i] && is_inside(areas[i], cursors[i])
    &&& forall|j: int|
        0 <= j < i ==> !(seen[j] && is_inside(areas[j], #[trigger] cursors[j]) && blocks_lower(
            areas[j],
        ))
}

/// Whether `hits` holds the picked areas, and those only, from front to
/// back.
pub open spec fn is_pick_list(
    areas: Seq<PickingArea>,
    cursors: Seq<Option<Point>>,
    seen: Seq<bool>,
    hits: Seq<usize>,
) -> bool {
    &&& forall|a: int, b: int| 0 <= a < b < hits.len() ==> hits[a] < hits[b]
    &&& forall|a: int| 0 <= a < hits.len() ==> is_picked(areas, cursors, seen, #[trigger] hits[a] as int)
    &&& forall|i: int| #[trigger]
        is_picked(areas, cursors, seen, i) ==> exists|a: int|
            0 <= a < hits.len() && #[trigger] hits[a] == i
}

/// The views of the cursor positions.
pub open spec fn cursors_of(cursors: Seq<Option<Vec2>>) -> Seq<Option<Point>> {
    cursors.map_values(
        |c: Option<Vec2>|
            match c {
                Some(at) => Some(at@),
                None => None,
            },
    )
}

/// Whether the pointer at `cursor` is inside the circle of the area.
pub fn is_cursor_inside(area: &PickingArea, cursor: &Option<Vec2>) -> (r: bool)
    ensures
        r == is_inside(
            *area,
            match *cursor {
                Some(at) => Some(at@),
                None => None,
            },
        ),
{
    match cursor {
        Some(at) => {
            if area.radius <= 0 {
                return false;
            }
            let x: i128 = at.x as i128;
            let y: i128 = at.y as i128;
            let r: i128 = area.radius as i128;
            proof {
                lemma_product_bound(x as int, x as int, 0x8000_0000_0000_0000);
                lemma_product_bound(y as int, y as int, 0x8000_0000_0000_0000);
                lemma_product_bound(r as int, r as int, 0x8000_0000_0000_0000);
                lemma_square_nonnegative(x as int);
                lemma_square_nonnegative(y as int);
            }
            let xx: u128 = (x * x) as u128;
            let yy: u128 = (y * y) as u128;
            let rr: u128 = (r * r) as u128;
            xx + yy < rr
        },
        None => false,
    }
}

/// The areas that the pointer picks, from front to back, where `seen` says
/// for each area whether the camera of the pointer sees its layers.
///
/// The areas are walked in their order. One whose circle holds the cursor
/// is hit; a hit that blocks what lies behind it ends the walk.
pub fn pick_seen(areas: &Vec<PickingArea>, cursors: &Vec<Option<Vec2>>, seen: &Vec<bool>) -> (hits:
    Vec<usize>)
    requires
        cursors@.len() == areas@.len(),
        seen@.len() == areas@.len(),
    ensures
        is_pick_list(areas@, cursors_of(cursors@), seen@, hits@),
{
    let ghost points = cursors_of(cursors@);
    let mut hits: Vec<usize> = Vec::new();
    let mut i: usize = 0;
    while i < areas.len()
        invariant_except_break
            forall|j: int|
                0 <= j < i ==> !(seen@[j] && is_inside(areas@[j], #[trigger] points[j])
                    && blocks_lower(areas@[j])),
            forall|a: int, b: int| 0 <= a < b < hits@.len() ==> hits@[a] < hits@[b],
            forall|a: int| 0 <= a < hits@.len() ==> (#[trigger] hits@[a]) < i,
            forall|a: int|
                0 <= a < hits@.len() ==> is_picked(areas@, points, seen@, #[trigger] hits@[a] as int),
            forall|j: int|
                0 <= j < i && #[trigger] is_picked(areas@, points, seen@, j) ==> exists|a: int|
                    0 <= a < hits@.len() && #[trigger] hits@[a] == j,
        invariant
            0 <= i <= areas@.len(),
            cursors@.len() == areas@.len(),
            seen@.len() == areas@.len(),
            points == cursors_of(cursors@),
        ensures
            is_pick_list(areas@, points, seen@, hits@),
        decreases areas@.len() - i,
    {
        let inside: bool = seen[i] && is_cursor_inside(&areas[i], &cursors[i]);
        proof {
            assert(points[i as int] == match cursors@[i as int] {
                Some(at) => Some(at@),
                None => None,
            });
        }
        if inside {
            let ghost before = hits@;
            hits.push(i);
            proof {
                assert(is_picked(areas@, points, seen@, i as int));
                assert forall|j: int| 0 <= j < i + 1 && #[trigger] is_picked(
                    areas@,
                    points,
                    seen@,
                    j,
                ) implies exists|a: int| 0 <= a < hits@.len() && #[trigger] hits@[a] == j by {
                    if j < i {
                        let a = choose|a: int| 0 <= a < before.len() && #[trigger] before[a] == j;
                        assert(hits@[a] == j);
                    } else {
                        assert(hits@[hits@.len() - 1] == j);
                    }
                }
            }
            let blocking: bool = match &areas[i].pickable {
                Some(marker) => marker.should_block_lower,
                None => true,
            };
            if blocking {
                proof {
                    assert forall|j: int| #[trigger]
                        is_picked(areas@, points, seen@, j) implies exists|a: int|
                        0 <= a < hits@.len() && #[trigger] hits@[a] == j by {
                        if j > i {
                            assert(seen@[i as int] && is_inside(areas@[i as int], points[i as int])
                                && blocks_lower(areas@[i as int]));
                        }
                    }
                }
                break;
            }
        }
        i += 1;
    }
    hits
}

/// For each area, whether the camera sees its layers: what
/// `RenderLayers::intersects` says of the layers of the area and those of
/// the camera, each taken as layer 0 where none are named.
pub fn seen_by(areas: &Vec<PickingArea>, camera_layers: &Option<RenderLayers>) -> (seen: Vec<bool>)
    ensures
        seen@.len() == areas@.len(),
        forall|i: int|
            0 <= i < areas@.len() ==> is_layer_answer(
                bits_or_default(areas@[i].layers),
                bits_or_default(*camera_layers),
                #[trigger] seen@[i],
            ),
{
    let plain: RenderLayers = default_layers();
    let mut seen: Vec<bool> = Vec::with_capacity(areas.len());
    let mut i: usize = 0;
    while i < areas.len()
        invariant
            0 <= i <= areas@.len(),
            layer_bits(plain) == seq![1u64],
            seen@.len() == i,
            forall|j: int|
                0 <= j < i ==> is_layer_answer(
                    bits_or_default(areas@[j].layers),
                    bits_or_default(*camera_layers),
                    #[trigger] seen@[j],
                ),
        decreases areas@.len() - i,
    {
        let of_area: &RenderLayers = match &areas[i].layers {
            Some(named) => named,
            None => &plain,
        };
        let of_camera: &RenderLayers = match camera_layers {
            Some(named) => named,
            None => &plain,
        };
        seen.push(layers_intersect(of_area, of_camera));
        i += 1;
    }
    seen
}

/// The areas that the pointer of one ray picks, from front to back.
///
/// `areas` holds the areas from front to back, `cursors` for each of them
/// where the ray meets its plane, if it does. An area is hit where the
/// camera sees its layers and its circle holds the cursor; a hit that
/// blocks what lies behind it ends the walk.
pub fn pick_shape(
    areas: &Vec<PickingArea>,
    cursors: &Vec<Option<Vec2>>,
    camera_layers: &Option<RenderLayers>,
) -> (hits: Vec<usize>)
    requires
        cursors@.len() == areas@.len(),
    ensures
        exists|seen: Seq<bool>|
            {
                &&& seen.len() == areas@.len()
                &&& forall|i: int|
                    0 <= i < areas@.len() ==> is_layer_answer(
                        bits_or_default(areas@[i].layers),
                        bits_or_default(*camera_layers),
                        #[trigger] seen[i],
                    )
                &&& #[trigger] is_pick_list(areas@, cursors_of(cursors@), seen, hits@)
            },
{
    let seen: Vec<bool> = seen_by(areas, camera_layers);
    let hits: Vec<usize> = pick_seen(areas, cursors, &seen);
    assert(is_pick_list(areas@, cursors_of(cursors@), seen@, hits@));
    hits
}

/// The areas of `areas` whose place in the order is `key`, in their order.
pub open spec fn with_order(areas: Seq<PickingArea>, key: u32) -> Seq<PickingArea> {
    areas.filter(|area: PickingArea| area.order == key)
}

/// The areas of `areas` that take part in picking, in their order.
pub open spec fn considered(areas: Seq<PickingArea>, require_markers: bool) -> Seq<PickingArea> {
    areas.filter(|area: PickingArea| is_considered(area, require_markers))
}

/// `radsort::sort_by_key`, with the place in the order as the key: the
/// areas come out by ascending key, and those of one key keep the order in
/// which they were.
#[verifier::external_body]
fn sort_by_order(areas: &mut Vec<PickingArea>)
    ensures
        final(areas)@.len() == old(areas)@.len(),
        forall|i: int, j: int|
            0 <= i < j < final(areas)@.len() ==> final(areas)@[i].order <= final(areas)@[j].order,
        forall|key: u32| #[trigger] with_order(final(areas)@, key) == with_order(old(areas)@, key),
{
    radsort::sort_by_key(areas.as_mut_slice(), |area| area.order);
}

/// Whether an area takes part in picking at all.
pub fn takes_part(area: &PickingArea, require_markers: bool) -> (r: bool)
    ensures
        r == is_considered(*area, require_markers),
{
    !require_markers || match &area.pickable {
        Some(marker) => marker.is_hoverable,
        None => false,
    }
}

/// One more area joins those that take part in picking if it takes part.
pub proof fn lemma_considered_push(areas: Seq<PickingArea>, area: PickingArea, require_markers: bool)
    ensures
        considered(areas.push(area), require_markers) == if is_considered(area, require_markers) {
            considered(areas, require_markers).push(area)
        } else {
            considered(areas, require_markers)
        },
{
    areas.lemma_filter_push(area, |area: PickingArea| is_considered(area, require_markers));
}

/// The areas that take part in picking, from front to back: by ascending
/// place in the order, those of one place in the order in which they were
/// given.
pub fn front_to_back(areas: Vec<PickingArea>, require_markers: bool) -> (sorted: Vec<PickingArea>)
    ensures
        forall|i: int, j: int|
            0 <= i < j < sorted@.len() ==> sorted@[i].order <= sorted@[j].order,
        forall|key: u32| #[trigger]
            with_order(sorted@, key) == with_order(considered(areas@, require_markers), key),
        sorted@.len() == considered(areas@, require_markers).len(),
{
    let ghost all = areas@;
    let mut kept: Vec<PickingArea> = Vec::new();
    for area in it: areas
        invariant
            it.seq() == all,
            kept@ == considered(all.take(it.index() as int), require_markers),
    {
        proof {
            let i = it.index() as int;
            assert(all.take(i + 1) =~= all.take(i).push(all[i]));
            assert(area == all[i]);
            lemma_considered_push(all.take(i), all[i], require_markers);
        }
        if takes_part(&area, require_markers) {
            kept.push(area);
        }
    }
    proof {
        assert(all.take(all.len() as int) =~= all);
    }
    sort_by_order(&mut kept);
    kept
}

} // verus!
