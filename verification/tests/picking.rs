use bevy::picking::Pickable;
use bevy::render::view::RenderLayers;
use canvas_geometry::picking::{front_order, front_to_back, pick_shape, PickingArea};
use canvas_geometry::vec2::Vec2;

fn area(entity: u64, order: u32, radius: i64) -> PickingArea {
    PickingArea { entity, order, radius, pickable: None, layers: None }
}

fn see_through(entity: u64, order: u32, radius: i64) -> PickingArea {
    PickingArea {
        entity,
        order,
        radius,
        pickable: Some(Pickable { should_block_lower: false, is_hoverable: true }),
        layers: None,
    }
}

fn entities(areas: &[PickingArea]) -> Vec<u64> {
    areas.iter().map(|a| a.entity).collect()
}

#[test]
fn front_to_back_sorts_by_order_and_keeps_ties() {
    let areas = vec![area(1, 30, 5), area(2, 10, 5), area(3, 30, 5), area(4, 20, 5), area(5, 10, 5)];
    let sorted = front_to_back(areas, false);
    assert_eq!(entities(&sorted), vec![2, 5, 4, 1, 3]);
}

#[test]
fn front_to_back_sorts_keys_beyond_one_byte() {
    let areas = vec![area(1, 0x0100_0000, 5), area(2, 0x0000_0100, 5), area(3, 0xffff_ffff, 5), area(4, 0, 5)];
    let sorted = front_to_back(areas, false);
    assert_eq!(entities(&sorted), vec![4, 2, 1, 3]);
}

#[test]
fn front_to_back_drops_unmarked_areas_where_markers_are_required() {
    let mut hidden = see_through(3, 5, 5);
    hidden.pickable = Some(Pickable { should_block_lower: true, is_hoverable: false });
    let areas = vec![area(1, 30, 5), see_through(2, 20, 5), hidden, see_through(4, 10, 5)];
    let sorted = front_to_back(areas, true);
    assert_eq!(entities(&sorted), vec![4, 2]);
}

#[test]
fn pick_stops_at_the_first_blocking_hit() {
    let areas = vec![area(1, 0, 5), area(2, 1, 5)];
    let cursors = vec![Some(Vec2::new(3, 3)), Some(Vec2::new(0, 0))];
    assert_eq!(pick_shape(&areas, &cursors, &None), vec![0]);
}

#[test]
fn pick_goes_on_behind_a_hit_that_does_not_block() {
    let areas = vec![see_through(1, 0, 5), area(2, 1, 5), area(3, 2, 5)];
    let cursors = vec![Some(Vec2::new(0, 4)), Some(Vec2::new(1, 1)), Some(Vec2::new(0, 0))];
    assert_eq!(pick_shape(&areas, &cursors, &None), vec![0, 1]);
}

#[test]
fn pick_misses_outside_the_circle_and_on_its_rim() {
    let areas = vec![area(1, 0, 5), area(2, 1, 5), area(3, 2, 5)];
    let cursors = vec![Some(Vec2::new(3, 4)), Some(Vec2::new(6, 0)), Some(Vec2::new(-4, 2))];
    assert_eq!(pick_shape(&areas, &cursors, &None), vec![2]);
}

#[test]
fn pick_skips_an_area_whose_plane_the_ray_misses() {
    let areas = vec![area(1, 0, 5), area(2, 1, 5)];
    let cursors = vec![None, Some(Vec2::new(0, 0))];
    assert_eq!(pick_shape(&areas, &cursors, &None), vec![1]);
}

#[test]
fn pick_skips_an_area_with_no_radius() {
    let areas = vec![area(1, 0, 0), area(2, 1, -3), area(3, 2, 1)];
    let cursors = vec![Some(Vec2::new(0, 0)), Some(Vec2::new(0, 0)), Some(Vec2::new(0, 0))];
    assert_eq!(pick_shape(&areas, &cursors, &None), vec![2]);
}

#[test]
fn pick_sees_only_the_layers_of_the_camera() {
    let mut on_control = area(1, 0, 5);
    on_control.layers = Some(RenderLayers::layer(1));
    let areas = vec![on_control, area(2, 1, 5)];
    let cursors = vec![Some(Vec2::new(0, 0)), Some(Vec2::new(0, 0))];
    assert_eq!(pick_shape(&areas, &cursors, &None), vec![1]);
    assert_eq!(pick_shape(&areas, &cursors, &Some(RenderLayers::layer(1))), vec![0]);
    assert_eq!(pick_shape(&areas, &cursors, &Some(RenderLayers::layer(2))), Vec::<usize>::new());
    assert_eq!(
        pick_shape(&areas, &cursors, &Some(RenderLayers::from_layers(&[0, 1]))),
        vec![0]
    );
}

#[test]
fn pick_takes_cursors_at_the_ends_of_the_grid() {
    let areas = vec![area(1, 0, i64::MAX), area(2, 1, i64::MAX)];
    let cursors = vec![Some(Vec2::new(i64::MIN, i64::MIN)), Some(Vec2::new(i64::MAX - 1, 0))];
    assert_eq!(pick_shape(&areas, &cursors, &None), vec![1]);
}

#[test]
fn front_order_puts_the_greater_depth_first() {
    let depths = [
        f32::INFINITY,
        3.5,
        1.0,
        f32::MIN_POSITIVE,
        0.0,
        -0.0,
        -1.0e-20,
        -2.0,
        f32::MIN,
        f32::NEG_INFINITY,
    ];
    for pair in depths.windows(2) {
        assert!(front_order(pair[0].to_bits()) < front_order(pair[1].to_bits()), "{:?}", pair);
    }
    assert_eq!(front_order(1.0f32.to_bits()), 0x407f_ffff);
    assert_eq!(front_order((-1.0f32).to_bits()), 0xbf80_0000);
    assert_eq!(front_order(0), 0x7fff_ffff);
    assert_eq!(front_order(0x8000_0000), 0x8000_0000);
    assert_eq!(front_order(0x7fff_ffff), 0);
    assert_eq!(front_order(0xffff_ffff), 0xffff_ffff);
}

#[test]
fn areas_are_sorted_by_depth_from_front_to_back() {
    let depths = [0.5f32, 2.0, -1.0, 0.0, 2.0];
    let areas = depths
        .iter()
        .enumerate()
        .map(|(i, z)| area(i as u64, front_order(z.to_bits()), 5))
        .collect();
    let sorted = front_to_back(areas, false);
    assert_eq!(entities(&sorted), vec![1, 4, 0, 3, 2]);
}
