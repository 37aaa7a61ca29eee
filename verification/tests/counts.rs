//! Neighbor counts per cell class, deterministic rebuilds, and the
//! geometric node-count bound.

use grid_index::{Coordinates, GridIndex};

fn neighbor_count(g: &GridIndex, x: u16, y: u16) -> usize {
    g.find_neighbors(g.leaf_index(Coordinates { x, y })).len()
}

#[test]
fn neighbor_counts_by_cell_class() {
    for &(w, h) in &[(2u16, 2u16), (5, 4), (9, 9), (20, 3)] {
        let g = GridIndex::build(w, h).unwrap();
        for y in 0..h {
            for x in 0..w {
                let x_edge = x == 0 || x == w - 1;
                let y_edge = y == 0 || y == h - 1;
                let expected = match (x_edge, y_edge) {
                    (true, true) => 3,
                    (true, false) | (false, true) => 5,
                    (false, false) => 8,
                };
                assert_eq!(
                    neighbor_count(&g, x, y),
                    expected,
                    "cell ({}, {}) on {}x{}",
                    x,
                    y,
                    w,
                    h
                );
            }
        }
    }
}

#[test]
fn rebuild_is_deterministic() {
    for &(w, h) in &[(7u16, 5u16), (31, 17), (81, 81)] {
        let g1 = GridIndex::build(w, h).unwrap();
        let g2 = GridIndex::build(w, h).unwrap();
        assert_eq!(g1.node_count(), g2.node_count());
        for l in 0..8u32 {
            assert_eq!(g1.nodes_at_level(l), g2.nodes_at_level(l), "level {}", l);
        }
    }
}

#[test]
fn level_counts_sum_to_node_count() {
    let g = GridIndex::build(30, 11).unwrap();
    let mut sum = 0;
    for l in 1..8u32 {
        sum += g.nodes_at_level(l);
    }
    assert_eq!(g.nodes_at_level(0), 0);
    assert_eq!(sum, g.node_count());
}

#[test]
fn geometric_bound_exact_on_power_of_three_squares() {
    // on an s x s board with s a power of three the node count is exactly
    // (cells - 1) / 8, which keeps it strictly below an eighth of the cells
    for &s in &[3u16, 9, 27, 81] {
        let g = GridIndex::build(s, s).unwrap();
        let cells = s as usize * s as usize;
        assert_eq!(8 * g.node_count() + 1, cells);
        assert!(8 * g.node_count() < cells);
    }
}

#[test]
fn partial_blocks_can_exceed_the_geometric_bound() {
    // rounding up partial blocks makes small or ragged boards exceed the
    // one-eighth bound: a 2 x 2 board already needs one node for 4 cells
    let g = GridIndex::build(2, 2).unwrap();
    assert_eq!(g.node_count(), 1);
    assert!(8 * g.node_count() > 4);
}
