use tas_engine::grid::{flatten_clamped, split_cell};

#[test]
fn flatten_inside_the_grid() {
    assert_eq!(flatten_clamped(0, 0, 0, 8, 8, 1), 0);
    assert_eq!(flatten_clamped(1, 0, 0, 8, 8, 1), 1);
    assert_eq!(flatten_clamped(0, 1, 0, 8, 8, 1), 8);
    assert_eq!(flatten_clamped(2, 3, 1, 4, 5, 2), 34);
}

#[test]
fn flatten_clamps_into_the_grid() {
    assert_eq!(flatten_clamped(100, 100, 0, 4, 4, 1), 15);
    assert_eq!(flatten_clamped(-100, -100, 0, 4, 4, 1), 0);
    assert_eq!(flatten_clamped(-1, 7, 9, 4, 4, 3), 44);
}

#[test]
fn split_gives_back_the_coordinates() {
    assert_eq!(split_cell(9, 4, 4), (1, 2, 0));
    assert_eq!(split_cell(34, 4, 5), (2, 3, 1));
    for cell in 0..60u16 {
        let (x, y, z) = split_cell(cell, 4, 5);
        assert_eq!(flatten_clamped(x as i32, y as i32, z as i32, 4, 5, 3), cell);
    }
}
