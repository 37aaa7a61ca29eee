//! The tree query against the flat dictionary, cell by cell.

use grid_index::{Coordinates, FlatIndex, GridIndex};

fn tree_neighbors_sorted(g: &GridIndex, x: u16, y: u16) -> Vec<usize> {
    let l = g.find_neighbors(g.leaf_index(Coordinates { x, y }));
    let mut v: Vec<usize> = Vec::new();
    let mut i = 0;
    while i < l.len() {
        v.push(l.get(i));
        i += 1;
    }
    v.sort();
    v
}

fn assert_board_consistent(width: u16, height: u16) {
    let g = GridIndex::build(width, height).unwrap();
    let f = FlatIndex::build(width, height).unwrap();
    for y in 0..height {
        for x in 0..width {
            let mut flat = f.find_neighbors(x, y);
            flat.sort();
            let tree = tree_neighbors_sorted(&g, x, y);
            assert_eq!(tree, flat, "divergence at ({}, {}) on {}x{}", x, y, width, height);
        }
    }
    assert!(g.check_neighbors(&f));
}

#[test]
fn all_small_boards_agree() {
    for w in 1..=12u16 {
        for h in 1..=12u16 {
            assert_board_consistent(w, h);
        }
    }
}

#[test]
fn boards_around_power_of_three_edges_agree() {
    for &(w, h) in &[(26u16, 28u16), (27, 27), (27, 4), (28, 1), (81, 2), (80, 82)] {
        assert_board_consistent(w, h);
    }
}

#[test]
fn odd_shaped_boards_agree() {
    for &(w, h) in &[(37u16, 50u16), (199, 7), (1, 100), (64, 3)] {
        assert_board_consistent(w, h);
    }
}

#[test]
fn largest_spec_board_agrees() {
    assert_board_consistent(200, 200);
}
