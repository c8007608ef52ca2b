use raytracer::voxels::OccupiedPositions;

#[test]
fn fresh_grid_is_empty() {
    let o = OccupiedPositions::new();
    assert!(!o.is_position_occupied(0, 0, 0));
    assert!(!o.is_position_occupied(-1, 5, i32::MIN));
}

#[test]
fn marked_cells_are_occupied() {
    let mut o = OccupiedPositions::new();
    assert!(o.mark_position(1, -2, 3));
    assert!(!o.mark_position(1, -2, 3));
    assert!(o.is_position_occupied(1, -2, 3));
    assert!(!o.is_position_occupied(1, 2, 3));
    assert!(!o.is_position_occupied(3, -2, 1));
}

#[test]
fn extreme_coordinates_stay_distinct() {
    let mut o = OccupiedPositions::new();
    o.mark_position(i32::MIN, i32::MAX, 0);
    assert!(o.is_position_occupied(i32::MIN, i32::MAX, 0));
    assert!(!o.is_position_occupied(i32::MAX, i32::MIN, 0));
    assert!(!o.is_position_occupied(0, i32::MIN, i32::MAX));
}

#[test]
fn removed_block_is_free_again() {
    let mut o = OccupiedPositions::new();
    o.mark_position(4, 0, 4);
    o.mark_position(4, 1, 4);
    o.remove_block(4, 0, 4);
    assert!(!o.is_position_occupied(4, 0, 4));
    assert!(o.is_position_occupied(4, 1, 4));
    o.remove_block(9, 9, 9);
    assert!(o.is_position_occupied(4, 1, 4));
}
