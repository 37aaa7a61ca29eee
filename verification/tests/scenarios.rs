//! Concrete boards with hand-computed expectations.

use grid_index::{BuildError, Coordinates, FlatIndex, GridIndex, NeighborList};

fn sorted_handles(l: &NeighborList) -> Vec<usize> {
    let mut v: Vec<usize> = Vec::new();
    let mut i = 0;
    while i < l.len() {
        v.push(l.get(i));
        i += 1;
    }
    v.sort();
    v
}

fn neighbors_of(g: &GridIndex, x: u16, y: u16) -> Vec<usize> {
    let leaf = g.leaf_index(Coordinates { x, y });
    sorted_handles(&g.find_neighbors(leaf))
}

#[test]
fn three_by_three_single_node() {
    let g = GridIndex::build(3, 3).unwrap();
    assert_eq!(g.node_count(), 1);
    assert_eq!(g.nodes_at_level(1), 1);
}

#[test]
fn three_by_three_center_has_all_eight() {
    let g = GridIndex::build(3, 3).unwrap();
    // the block center (1, 1) is leaf 4; its neighbors are every other cell
    assert_eq!(neighbors_of(&g, 1, 1), vec![0, 1, 2, 3, 5, 6, 7, 8]);
}

#[test]
fn three_by_three_corner_has_three() {
    let g = GridIndex::build(3, 3).unwrap();
    // (0,0) touches (1,0) = 1, (0,1) = 3 and (1,1) = 4
    assert_eq!(neighbors_of(&g, 0, 0), vec![1, 3, 4]);
}

#[test]
fn nine_by_nine_level_structure() {
    let g = GridIndex::build(9, 9).unwrap();
    assert_eq!(g.nodes_at_level(1), 9);
    assert_eq!(g.nodes_at_level(2), 1);
    assert_eq!(g.node_count(), 10);
}

#[test]
fn nine_by_nine_corner_omits_off_board() {
    let g = GridIndex::build(9, 9).unwrap();
    // (0,0) has no (-1,*) or (*,-1) neighbors; the rest are
    // (1,0) = 1, (0,1) = 9, (1,1) = 10
    assert_eq!(neighbors_of(&g, 0, 0), vec![1, 9, 10]);
}

#[test]
fn nine_by_nine_crosses_block_boundary() {
    let g = GridIndex::build(9, 9).unwrap();
    // (2,2) sits at the corner of the first 3x3 block; its neighbors in the
    // column x = 3 and the row y = 3 lie in other level-1 blocks and are
    // reached through the level-2 root
    let expected = vec![
        1 * 9 + 1,
        1 * 9 + 2,
        1 * 9 + 3,
        2 * 9 + 1,
        2 * 9 + 3,
        3 * 9 + 1,
        3 * 9 + 2,
        3 * 9 + 3,
    ];
    assert_eq!(neighbors_of(&g, 2, 2), expected);
}

#[test]
fn single_cell_board_has_no_nodes_and_no_neighbors() {
    let g = GridIndex::build(1, 1).unwrap();
    assert_eq!(g.node_count(), 0);
    assert_eq!(neighbors_of(&g, 0, 0), Vec::<usize>::new());
}

#[test]
fn rejects_zero_width() {
    assert!(matches!(GridIndex::build(0, 5), Err(BuildError::ZeroDimension)));
}

#[test]
fn rejects_zero_height() {
    assert!(matches!(GridIndex::build(5, 0), Err(BuildError::ZeroDimension)));
}

#[test]
fn flat_rejects_empty_boards() {
    assert!(matches!(FlatIndex::build(0, 0), Err(BuildError::ZeroDimension)));
    assert!(matches!(FlatIndex::build(7, 0), Err(BuildError::ZeroDimension)));
}

#[test]
fn leaf_handles_round_trip() {
    let g = GridIndex::build(13, 7).unwrap();
    for y in 0..7u16 {
        for x in 0..13u16 {
            let leaf = g.leaf_index(Coordinates { x, y });
            assert_eq!(leaf, y as usize * 13 + x as usize);
            let c = g.leaf_coordinates(leaf);
            assert_eq!((c.x, c.y), (x, y));
        }
    }
}

#[test]
fn virtual_anchors_at_board_edges() {
    // a 1-wide board has no cell on any level-1 block center (1, *), so all
    // its nodes are virtual anchors; a 3x3 board has a real center
    let narrow = GridIndex::build(1, 5).unwrap();
    assert!(narrow.nodes[0].is_virtual());
    let full = GridIndex::build(3, 3).unwrap();
    assert!(!full.nodes[0].is_virtual());
}

#[test]
fn arena_layout_links_leaves_to_level_one() {
    let g = GridIndex::build(9, 9).unwrap();
    // leaf (0,0) belongs to the first level-1 node, which belongs to the root
    assert_eq!(g.leaves[0].parent, Some(0));
    assert_eq!(g.nodes[0].parent, Some(9));
    assert_eq!(g.nodes[9].parent, None);
    assert_eq!(g.nodes[9].level, 2);
}

#[test]
fn two_column_board() {
    // width 1: every level-1 anchor is virtual, all slots vertical
    let g = GridIndex::build(1, 5).unwrap();
    assert_eq!(neighbors_of(&g, 0, 0), vec![1]);
    assert_eq!(neighbors_of(&g, 0, 2), vec![1, 3]);
    assert_eq!(neighbors_of(&g, 0, 4), vec![3]);
}
