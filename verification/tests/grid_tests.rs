use sandfall::grid::{Grid, ALPHA, SAND_B, SAND_G, SAND_R, VOID_B, VOID_G, VOID_R};

fn pixel_at(g: &Grid, x: usize, y: usize) -> [u8; 4] {
    let p = g.pixels();
    let base = 4 * (y * g.cols + x);
    [p[base], p[base + 1], p[base + 2], p[base + 3]]
}

#[test]
fn new_grid_is_empty_with_background_pixels() {
    let g = Grid::new(3, 4);
    assert_eq!(g.cols, 3);
    assert_eq!(g.rows, 4);
    assert_eq!(g.pixels().len(), 4 * 3 * 4);
    for y in 0..4 {
        for x in 0..3 {
            assert!(!g.get(x, y));
            assert_eq!(pixel_at(&g, x, y), [VOID_R, VOID_G, VOID_B, ALPHA]);
        }
    }
}

#[test]
fn out_of_bounds_get_is_false() {
    let mut g = Grid::new(3, 3);
    g.set(1, 1, true);
    assert!(!g.get(3, 0));
    assert!(!g.get(0, 3));
    assert!(!g.get(3, 3));
    assert!(!g.get(usize::MAX, 0));
    assert!(!g.get(0, usize::MAX));
}

#[test]
fn out_of_bounds_set_changes_nothing() {
    let mut g = Grid::new(3, 3);
    g.set(0, 0, true);
    g.set(2, 2, true);
    let cells_before: Vec<bool> = (0..3)
        .flat_map(|y| (0..3).map(move |x| (x, y)))
        .map(|(x, y)| g.get(x, y))
        .collect();
    let pixels_before = g.pixels().clone();
    g.set(3, 0, true);
    g.set(0, 3, true);
    g.set(7, 9, true);
    g.set(3, 0, false);
    let cells_after: Vec<bool> = (0..3)
        .flat_map(|y| (0..3).map(move |x| (x, y)))
        .map(|(x, y)| g.get(x, y))
        .collect();
    assert_eq!(cells_before, cells_after);
    assert_eq!(&pixels_before, g.pixels());
}

#[test]
fn set_updates_cell_and_pixel_bytes() {
    let mut g = Grid::new(4, 4);
    g.set(2, 1, true);
    assert!(g.get(2, 1));
    assert_eq!(pixel_at(&g, 2, 1), [SAND_R, SAND_G, SAND_B, ALPHA]);
    g.set(2, 1, false);
    assert!(!g.get(2, 1));
    assert_eq!(pixel_at(&g, 2, 1), [VOID_R, VOID_G, VOID_B, ALPHA]);
}

#[test]
fn set_leaves_other_cells_and_pixels_alone() {
    let mut g = Grid::new(4, 4);
    g.set(0, 0, true);
    g.set(3, 3, true);
    let pixels_before = g.pixels().clone();
    g.set(1, 2, true);
    for y in 0..4 {
        for x in 0..4 {
            if (x, y) == (1, 2) {
                continue;
            }
            let base = 4 * (y * 4 + x);
            assert_eq!(&g.pixels()[base..base + 4], &pixels_before[base..base + 4]);
        }
    }
    assert!(g.get(0, 0));
    assert!(g.get(3, 3));
    assert!(!g.get(0, 1));
}

#[test]
fn rewriting_same_value_keeps_buffer_identical() {
    let mut g = Grid::new(5, 5);
    g.set(2, 2, true);
    let pixels_before = g.pixels().clone();
    g.set(2, 2, true);
    g.set(0, 0, false);
    assert_eq!(&pixels_before, g.pixels());
}
