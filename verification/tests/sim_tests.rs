use sandfall::grid::Grid;
use sandfall::rng::{RandSource, RAND_UNIT};

fn occupied_count(g: &Grid) -> usize {
    let mut n = 0;
    for y in 0..g.rows {
        for x in 0..g.cols {
            if g.get(x, y) {
                n += 1;
            }
        }
    }
    n
}

fn snapshot(g: &Grid) -> Vec<bool> {
    let mut v = Vec::new();
    for y in 0..g.rows {
        for x in 0..g.cols {
            v.push(g.get(x, y));
        }
    }
    v
}

#[test]
fn fill_leaves_bottom_row_empty() {
    let mut g = Grid::new(6, 5);
    let mut src = RandSource::Seeded(42);
    g.random_fill(900_000, 988_000, &mut src);
    for x in 0..6 {
        assert!(!g.get(x, 4));
    }
}

#[test]
fn fill_with_certain_probability_fills_all_upper_rows() {
    let mut g = Grid::new(4, 4);
    let mut src = RandSource::Seeded(7);
    g.random_fill(RAND_UNIT, RAND_UNIT, &mut src);
    for y in 0..3 {
        for x in 0..4 {
            assert!(g.get(x, y));
        }
    }
    for x in 0..4 {
        assert!(!g.get(x, 3));
    }
}

#[test]
fn fill_with_zero_probability_adds_nothing() {
    let mut g = Grid::new(4, 4);
    g.set(2, 3, true);
    let before = snapshot(&g);
    let mut src = RandSource::Seeded(3);
    g.random_fill(0, RAND_UNIT, &mut src);
    assert_eq!(before, snapshot(&g));
}

#[test]
fn identical_seeds_give_bit_identical_runs() {
    let mut g1 = Grid::new(8, 8);
    let mut g2 = Grid::new(8, 8);
    let mut s1 = RandSource::Seeded(12345);
    let mut s2 = RandSource::Seeded(12345);
    g1.random_fill(800_000, 900_000, &mut s1);
    g2.random_fill(800_000, 900_000, &mut s2);
    assert_eq!(snapshot(&g1), snapshot(&g2));
    assert_eq!(g1.pixels(), g2.pixels());
    for _ in 0..5 {
        g1.step(&mut s1);
        g2.step(&mut s2);
        assert_eq!(snapshot(&g1), snapshot(&g2));
        assert_eq!(g1.pixels(), g2.pixels());
    }
}

#[test]
fn step_on_settled_grid_changes_nothing() {
    let mut g = Grid::new(4, 4);
    // full bottom row and a supported stack: every occupied cell sits on
    // the bottom row or on an occupied cell
    for x in 0..4 {
        g.set(x, 3, true);
    }
    g.set(0, 2, true);
    g.set(0, 1, true);
    g.set(2, 2, true);
    let before = snapshot(&g);
    let pixels_before = g.pixels().clone();
    let mut straight = RandSource::Fixed(500_000);
    g.step(&mut straight);
    assert_eq!(before, snapshot(&g));
    let mut skips = RandSource::Fixed(10_000);
    g.step(&mut skips);
    assert_eq!(before, snapshot(&g));
    assert_eq!(&pixels_before, g.pixels());
}

#[test]
fn step_conserves_count_over_full_bottom_row() {
    let mut g = Grid::new(5, 5);
    for x in 0..5 {
        g.set(x, 4, true);
    }
    g.set(1, 0, true);
    g.set(2, 1, true);
    g.set(3, 2, true);
    g.set(4, 1, true);
    let total = occupied_count(&g);
    let mut src = RandSource::Seeded(99);
    for _ in 0..10 {
        g.step(&mut src);
        assert_eq!(occupied_count(&g), total);
    }
    let mut skips = RandSource::Fixed(10_000);
    for _ in 0..10 {
        g.step(&mut skips);
        assert_eq!(occupied_count(&g), total);
    }
}

#[test]
fn step_never_creates_grains() {
    let mut g = Grid::new(6, 6);
    let mut src = RandSource::Seeded(2024);
    g.random_fill(700_000, 900_000, &mut src);
    let mut last = occupied_count(&g);
    for _ in 0..20 {
        g.step(&mut src);
        let now = occupied_count(&g);
        assert!(now <= last);
        last = now;
    }
}

#[test]
fn skip_past_bottom_edge_clears_cell() {
    // the one way a grain leaves the grid: an eligible cell of the
    // second-to-last row draws a skip whose target lies below the grid
    let mut g = Grid::new(1, 2);
    g.set(0, 0, true);
    let mut src = RandSource::Fixed(10_000);
    g.step(&mut src);
    assert!(!g.get(0, 0));
    assert!(!g.get(0, 1));
    assert_eq!(occupied_count(&g), 0);
}

#[test]
fn scenario_straight_fall() {
    let mut g = Grid::new(4, 4);
    g.set(1, 0, true);
    let mut src = RandSource::Fixed(500_000);
    g.step(&mut src);
    for y in 0..4 {
        for x in 0..4 {
            assert_eq!(g.get(x, y), (x, y) == (1, 1));
        }
    }
}

#[test]
fn scenario_two_row_skip() {
    let mut g = Grid::new(4, 4);
    g.set(1, 0, true);
    let mut src = RandSource::Fixed(10_000);
    g.step(&mut src);
    for y in 0..4 {
        for x in 0..4 {
            assert_eq!(g.get(x, y), (x, y) == (1, 2));
        }
    }
    assert!(!g.get(1, 1));
}

#[test]
fn scenario_skip_blocked() {
    // (1, 0) is eligible and draws a skip, but the skip target (1, 2) is
    // occupied, so nothing moves; the supporting grains cannot move either
    let mut g = Grid::new(4, 4);
    g.set(1, 0, true);
    g.set(1, 2, true);
    g.set(1, 3, true);
    let before = snapshot(&g);
    let mut src = RandSource::Fixed(10_000);
    g.step(&mut src);
    assert_eq!(before, snapshot(&g));
    assert!(g.get(1, 0));
    assert!(!g.get(1, 1));
}

#[test]
fn blocked_straight_cell_is_not_eligible() {
    // the straight-down cell is occupied, so the cell above it is not
    // eligible at all, even on a skip draw
    let mut g = Grid::new(4, 4);
    g.set(1, 0, true);
    g.set(1, 1, true);
    g.set(1, 2, true);
    g.set(1, 3, true);
    let before = snapshot(&g);
    let mut src = RandSource::Fixed(10_000);
    g.step(&mut src);
    assert_eq!(before, snapshot(&g));
}

#[test]
fn entropy_source_respects_grid_laws() {
    macroquad::rand::srand(7);
    let mut g = Grid::new(6, 6);
    let mut src = RandSource::Entropy;
    g.random_fill(900_000, 950_000, &mut src);
    for x in 0..6 {
        assert!(!g.get(x, 5));
    }
    let mut last = occupied_count(&g);
    assert!(last <= 30);
    for _ in 0..10 {
        g.step(&mut src);
        let now = occupied_count(&g);
        assert!(now <= last);
        last = now;
    }
}

#[test]
fn fixed_source_repeats_its_value() {
    let mut src = RandSource::Fixed(123);
    assert_eq!(src.next_unit(), 123);
    assert_eq!(src.next_unit(), 123);
    assert_eq!(src, RandSource::Fixed(123));
}

#[test]
fn seeded_source_is_reproducible_and_in_range() {
    let mut a = RandSource::Seeded(55);
    let mut b = RandSource::Seeded(55);
    for _ in 0..100 {
        let da = a.next_unit();
        let db = b.next_unit();
        assert_eq!(da, db);
        assert!(da < RAND_UNIT);
    }
    let mut c = RandSource::Seeded(56);
    let first: Vec<u32> = (0..4).map(|_| c.next_unit()).collect();
    let mut d = RandSource::Seeded(55);
    let other: Vec<u32> = (0..4).map(|_| d.next_unit()).collect();
    assert_ne!(first, other);
}
