use aoc_grid::grid::{Coord, Grid};

fn grid_lines(v: &[&str]) -> Vec<String> {
    v.iter().map(|s| s.to_string()).collect()
}

#[test]
fn size_and_get_on_rectangular_rows() {
    let g = Grid::new(vec![vec![1, 2, 3], vec![4, 5, 6]]);
    assert_eq!(g.size(), (3, 2));
    assert_eq!(g.get(0, 0), Some(&1));
    assert_eq!(g.get(2, 1), Some(&6));
    assert_eq!(*g.index(1, 1), 5);
    assert_eq!(g.get(3, 0), None);
    assert_eq!(g.get(0, 2), None);
    assert_eq!(g.get(usize::MAX, usize::MAX), None);
}

#[test]
fn empty_grid_has_no_size() {
    let g: Grid<u8> = Grid::new(vec![]);
    assert_eq!(g.size(), (0, 0));
    assert_eq!(g.get(0, 0), None);
}

#[test]
fn get_mut_and_index_mut_write_one_cell() {
    let mut g = Grid::new(vec![vec![0u8; 3]; 2]);
    *g.get_mut(1, 0).unwrap() = 7;
    *g.index_mut(2, 1) = 9;
    assert!(g.get_mut(3, 1).is_none());
    assert_eq!(g.get(1, 0), Some(&7));
    assert_eq!(g.get(2, 1), Some(&9));
    assert_eq!(g.get(0, 0), Some(&0));
}

#[test]
fn neighbors_of_interior_cell_in_block_order() {
    let g = Grid::new(vec![vec![0u8; 3]; 3]);
    assert_eq!(
        g.iter_neighbors(1, 1),
        vec![(0, 0), (1, 0), (2, 0), (0, 1), (2, 1), (0, 2), (1, 2), (2, 2)]
    );
}

#[test]
fn neighbor_counts_for_corner_edge_and_interior() {
    let g = Grid::new(vec![vec![0u8; 5]; 4]);
    assert_eq!(g.iter_neighbors(0, 0).len(), 3);
    assert_eq!(g.iter_neighbors(4, 3).len(), 3);
    assert_eq!(g.iter_neighbors(2, 0).len(), 5);
    assert_eq!(g.iter_neighbors(0, 2).len(), 5);
    assert_eq!(g.iter_neighbors(2, 2).len(), 8);
    assert_eq!(g.iter_neighbors(0, 0), vec![(1, 0), (0, 1), (1, 1)]);
    for y in 0..4 {
        for x in 0..5 {
            let n = g.iter_neighbors(x, y);
            assert!(!n.contains(&(x, y)));
            let mut d = n.clone();
            d.sort();
            d.dedup();
            assert_eq!(d.len(), n.len());
        }
    }
}

#[test]
fn iter_coords_pairs_cells_with_coordinates() {
    let g = Grid::new(vec![vec!['a', 'b'], vec!['c', 'd']]);
    let rows = g.iter_coords();
    assert_eq!(rows.len(), 2);
    assert_eq!(rows[0], vec![(&'a', (0, 0)), (&'b', (1, 0))]);
    assert_eq!(rows[1], vec![(&'c', (0, 1)), (&'d', (1, 1))]);
}

#[test]
fn parse_grid_per_character() {
    let g: Grid<u8> = Grid::parse_grid(&grid_lines(&["123", "456"]), "").unwrap();
    assert_eq!(g.size(), (3, 2));
    assert_eq!(g.get(2, 1), Some(&6));
    assert_eq!(g.get(0, 0), Some(&1));
}

#[test]
fn parse_grid_with_separator() {
    let g: Grid<u32> = Grid::parse_grid(&grid_lines(&["10,200,3", "4,5,+6"]), ",").unwrap();
    assert_eq!(g.size(), (3, 2));
    assert_eq!(g.get(1, 0), Some(&200));
    assert_eq!(g.get(2, 1), Some(&6));
    let multi: Grid<u32> = Grid::parse_grid(&grid_lines(&["1->22->3"]), "->").unwrap();
    assert_eq!(multi.size(), (3, 1));
    assert_eq!(multi.get(1, 0), Some(&22));
}

#[test]
fn parse_grid_rejects_bad_cells() {
    let bad: Result<Grid<u8>, _> = Grid::parse_grid(&grid_lines(&["12", "3x"]), "");
    assert_eq!(bad.unwrap_err(), "parse error");
    let too_big: Result<Grid<u8>, _> = Grid::parse_grid(&grid_lines(&["256"]), ",");
    assert!(too_big.is_err());
    let empty_piece: Result<Grid<u32>, _> = Grid::parse_grid(&grid_lines(&["1,,2"]), ",");
    assert!(empty_piece.is_err());
    let spaced: Result<Grid<u32>, _> = Grid::parse_grid(&grid_lines(&["10, 200"]), ",");
    assert!(spaced.is_err());
}

#[test]
fn coord_from_str() {
    assert_eq!(Coord::from_str("6,10"), Ok(Coord { x: 6, y: 10 }));
    assert_eq!(Coord::from_str("0,14"), Ok(Coord { x: 0, y: 14 }));
    assert!(Coord::from_str("1,2,3").is_err());
    assert!(Coord::from_str("1").is_err());
    assert!(Coord::from_str("a,2").is_err());
    assert!(Coord::from_str("-1,2").is_err());
}

#[test]
fn iter_mut_coords_rewrites_every_cell() {
    let mut g = Grid::new(vec![vec![1u32, 2, 3], vec![4, 5, 6]]);
    g.iter_mut_coords(|v, (x, y)| *v * 10 + (x as u32) + 100 * (y as u32));
    assert_eq!(g.get(0, 0), Some(&10));
    assert_eq!(g.get(2, 0), Some(&32));
    assert_eq!(g.get(1, 1), Some(&151));
    assert_eq!(g.size(), (3, 2));
}
