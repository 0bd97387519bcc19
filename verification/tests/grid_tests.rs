use asset_manager::grid::{
    cell_size_or_full, grid_dimensions, grid_key_step, is_valid_grid, next_valid_size, next_walk_step, prev_valid_size,
    valid_cell_sizes, walk_frame_column, walk_preview_fits, CellSelection, GridKeys,
};

#[test]
fn sizes_are_divisors_from_eight() {
    assert_eq!(valid_cell_sizes(64), vec![8, 16, 32, 64]);
    assert_eq!(valid_cell_sizes(48), vec![8, 12, 16, 24, 48]);
    assert_eq!(valid_cell_sizes(7), Vec::<u32>::new());
    assert_eq!(valid_cell_sizes(0), Vec::<u32>::new());
}

#[test]
fn stepping_through_listed_sizes() {
    let v = valid_cell_sizes(64);
    assert_eq!(prev_valid_size(&v, 32, 64), 16);
    assert_eq!(next_valid_size(&v, 32, 64), 64);
    assert_eq!(prev_valid_size(&v, 8, 64), 8);
    assert_eq!(next_valid_size(&v, 64, 64), 64);
    assert_eq!(prev_valid_size(&v, 20, 64), 16);
    assert_eq!(next_valid_size(&v, 20, 64), 32);
}

#[test]
fn stepping_without_a_list() {
    assert_eq!(prev_valid_size(&[], 20, 48), 16);
    assert_eq!(next_valid_size(&[], 20, 48), 24);
    assert_eq!(prev_valid_size(&[], 8, 48), 8);
    assert_eq!(next_valid_size(&[], 48, 48), 48);
}

#[test]
fn step_up_then_down_returns() {
    let v = valid_cell_sizes(96);
    for i in 0..v.len() - 1 {
        let up = next_valid_size(&v, v[i], 96);
        assert_eq!(up, v[i + 1]);
        assert_eq!(prev_valid_size(&v, up, 96), v[i]);
    }
}

#[test]
fn walk_grid_shape() {
    assert!(is_valid_grid(3, 4));
    assert!(is_valid_grid(6, 8));
    assert!(!is_valid_grid(4, 4));
    assert!(!is_valid_grid(3, 5));
}

#[test]
fn grid_dimensions_when_cells_tile() {
    assert_eq!(grid_dimensions(64, 48, 16, 16), Some((4, 3)));
    assert_eq!(grid_dimensions(64, 48, 0, 16), None);
    assert_eq!(grid_dimensions(64, 48, 24, 16), None);
}

fn keys(minus: bool, plus: bool, shift: bool, ctrl: bool) -> GridKeys {
    GridKeys { minus, plus, shift, ctrl }
}

#[test]
fn grid_keys_step_both_without_modifiers() {
    assert_eq!(grid_key_step(64, 64, 0, 0, keys(true, false, false, false)), (32, 32));
    assert_eq!(grid_key_step(64, 64, 16, 16, keys(false, true, false, false)), (32, 32));
}

#[test]
fn grid_keys_shift_height_ctrl_width() {
    assert_eq!(grid_key_step(64, 64, 16, 16, keys(false, true, true, false)), (16, 32));
    assert_eq!(grid_key_step(64, 64, 32, 32, keys(true, false, false, true)), (16, 32));
    assert_eq!(grid_key_step(64, 64, 32, 32, keys(true, false, true, true)), (16, 16));
}

#[test]
fn grid_keys_without_image() {
    assert_eq!(grid_key_step(0, 64, 5, 6, keys(true, true, false, false)), (5, 6));
}

#[test]
fn grid_keys_no_key_fills_unset_sizes() {
    assert_eq!(grid_key_step(48, 32, 0, 0, keys(false, false, false, false)), (48, 32));
}

#[test]
fn walk_cycle_columns() {
    let cols: Vec<u32> = (0..4).map(walk_frame_column).collect();
    assert_eq!(cols, vec![1, 0, 1, 2]);
    assert_eq!(next_walk_step(3), 0);
    assert_eq!(next_walk_step(1), 2);
}

#[test]
fn walk_preview_needs_columns_in_threes() {
    assert!(walk_preview_fits(96, 32));
    assert!(walk_preview_fits(192, 32));
    assert!(!walk_preview_fits(64, 32));
    assert!(!walk_preview_fits(96, 0));
}

#[test]
fn cell_selection_follows_file() {
    let mut sel = CellSelection::new();
    sel.selected = Some((1, 2));
    assert!(!sel.follow_file(""));
    assert_eq!(sel.selected, Some((1, 2)));
    assert!(sel.follow_file("a.png"));
    assert_eq!(sel.selected, None);
    assert_eq!(sel.file_key, "a.png");
    sel.selected = Some((0, 0));
    assert!(!sel.follow_file("a.png"));
    assert_eq!(sel.selected, Some((0, 0)));
}

#[test]
fn unset_cell_size_means_whole_dimension() {
    assert_eq!(cell_size_or_full(0, 96), 96);
    assert_eq!(cell_size_or_full(16, 96), 16);
    assert_eq!(grid_dimensions(96, 64, cell_size_or_full(0, 96), cell_size_or_full(0, 64)), Some((1, 1)));
}
