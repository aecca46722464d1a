use wave::grid::{every_tile, is_ascending_below};
use wave::{Grid, SnappedCoordinate, Tile, TileCatalog, WrapPolicy};

fn strings(edges: [&str; 4]) -> Vec<String> {
    edges.iter().map(|e| e.to_string()).collect()
}

fn three_tiles() -> TileCatalog {
    TileCatalog::new(vec![
        Tile::new(0, strings(["AB", "X", "BA", "X"])),
        Tile::new(1, strings(["BA", "X", "AB", "Y"])),
        Tile::new(2, strings(["AA", "Y", "AA", "X"])),
    ])
    .unwrap()
}

#[test]
fn a_new_grid_has_one_open_cell_for_every_position() {
    let catalog = three_tiles();
    let grid = Grid::new(4, 3, WrapPolicy::NoWrap, &catalog);
    assert_eq!(grid.width, 4);
    assert_eq!(grid.height, 3);
    assert_eq!(grid.wrap, WrapPolicy::NoWrap);
    assert_eq!(grid.len(), 12);
    for x in 0..4 {
        for y in 0..3 {
            let cell = grid.cell(x * 3 + y);
            assert_eq!(cell.coord, SnappedCoordinate { x, y });
            assert_eq!(cell.options, vec![0, 1, 2]);
            assert!(!cell.collapsed);
        }
    }
}

#[test]
fn a_new_grid_is_not_complete() {
    let catalog = three_tiles();
    let grid = Grid::new(1, 1, WrapPolicy::WrapXY, &catalog);
    assert!(!grid.is_complete());
}

#[test]
fn a_grid_is_complete_when_every_cell_is_collapsed() {
    let catalog = three_tiles();
    let mut grid = Grid::new(2, 2, WrapPolicy::NoWrap, &catalog);
    for i in 0..4 {
        grid.cells[i].options = vec![0];
        grid.cells[i].collapsed = true;
    }
    assert!(grid.is_complete());
    grid.cells[3].collapsed = false;
    assert!(!grid.is_complete());
}

#[test]
fn neighbors_of_a_cell_follow_the_wrap_policy() {
    let catalog = three_tiles();
    let at = |x, y| Some(SnappedCoordinate { x, y });
    let grid = Grid::new(3, 2, WrapPolicy::NoWrap, &catalog);
    let n = grid.neighbors_of(0);
    assert_eq!((n.up, n.right, n.down, n.left), (at(0, 1), at(1, 0), None, None));
    let n = grid.neighbors_of(5);
    assert_eq!((n.up, n.right, n.down, n.left), (None, None, at(2, 0), at(1, 1)));
    let grid = Grid::new(3, 2, WrapPolicy::WrapXY, &catalog);
    let n = grid.neighbors_of(5);
    assert_eq!((n.up, n.right, n.down, n.left), (at(2, 0), at(0, 1), at(2, 0), at(1, 1)));
    let grid = Grid::new(3, 2, WrapPolicy::WrapX, &catalog);
    let n = grid.neighbors_of(5);
    assert_eq!((n.up, n.right, n.down, n.left), (None, at(0, 1), at(2, 0), at(1, 1)));
    let grid = Grid::new(3, 2, WrapPolicy::WrapY, &catalog);
    let n = grid.neighbors_of(5);
    assert_eq!((n.up, n.right, n.down, n.left), (at(2, 0), None, at(2, 0), at(1, 1)));
}

#[test]
fn a_new_grid_keeps_its_invariant() {
    let catalog = three_tiles();
    let grid = Grid::new(4, 3, WrapPolicy::WrapX, &catalog);
    assert!(grid.is_well_formed(3));
    assert!(grid.is_well_formed(4));
    assert!(!grid.is_well_formed(2));
}

#[test]
fn a_grid_with_a_misplaced_cell_is_not_well_formed() {
    let catalog = three_tiles();
    let mut grid = Grid::new(2, 2, WrapPolicy::NoWrap, &catalog);
    grid.cells[1].coord = SnappedCoordinate { x: 1, y: 0 };
    assert!(!grid.is_well_formed(3));
    let mut grid = Grid::new(2, 2, WrapPolicy::NoWrap, &catalog);
    grid.cells.pop();
    assert!(!grid.is_well_formed(3));
    let mut grid = Grid::new(2, 2, WrapPolicy::NoWrap, &catalog);
    grid.width = 0;
    assert!(!grid.is_well_formed(3));
    let mut grid = Grid::new(2, 2, WrapPolicy::NoWrap, &catalog);
    grid.width = usize::MAX;
    assert!(!grid.is_well_formed(3));
    let mut grid = Grid::new(2, 2, WrapPolicy::NoWrap, &catalog);
    grid.height = 4;
    grid.width = 1;
    assert!(!grid.is_well_formed(3));
}

#[test]
fn a_grid_with_a_bad_list_of_options_is_not_well_formed() {
    let catalog = three_tiles();
    let mut grid = Grid::new(2, 2, WrapPolicy::NoWrap, &catalog);
    grid.cells[2].options = vec![0, 0];
    assert!(!grid.is_well_formed(3));
    grid.cells[2].options = vec![2, 1];
    assert!(!grid.is_well_formed(3));
    grid.cells[2].options = vec![1, 3];
    assert!(!grid.is_well_formed(3));
    grid.cells[2].options = vec![];
    assert!(grid.is_well_formed(3));
    grid.cells[2].collapsed = true;
    assert!(!grid.is_well_formed(3));
    grid.cells[2].options = vec![0, 1];
    assert!(!grid.is_well_formed(3));
    grid.cells[2].options = vec![1];
    assert!(grid.is_well_formed(3));
}

#[test]
fn every_tile_counts_up_from_zero() {
    assert_eq!(every_tile(0), Vec::<usize>::new());
    assert_eq!(every_tile(4), vec![0, 1, 2, 3]);
}

#[test]
fn is_ascending_below_wants_order_and_bound() {
    assert!(is_ascending_below(&vec![], 0));
    assert!(is_ascending_below(&vec![0, 2, 5], 6));
    assert!(!is_ascending_below(&vec![0, 2, 5], 5));
    assert!(!is_ascending_below(&vec![0, 2, 2], 6));
    assert!(!is_ascending_below(&vec![3, 1], 6));
    assert!(!is_ascending_below(&vec![0], 0));
}

#[test]
fn cells_are_found_by_their_position() {
    let catalog = three_tiles();
    let mut grid = Grid::new(4, 3, WrapPolicy::NoWrap, &catalog);
    assert_eq!(grid.index_of(SnappedCoordinate { x: 0, y: 0 }), 0);
    assert_eq!(grid.index_of(SnappedCoordinate { x: 0, y: 2 }), 2);
    assert_eq!(grid.index_of(SnappedCoordinate { x: 1, y: 0 }), 3);
    assert_eq!(grid.index_of(SnappedCoordinate { x: 3, y: 2 }), 11);
    grid.cells[7].options = vec![1];
    let cell = grid.cell_at(SnappedCoordinate { x: 2, y: 1 });
    assert_eq!(cell.coord, SnappedCoordinate { x: 2, y: 1 });
    assert_eq!(cell.options, vec![1]);
}

#[test]
fn a_cloned_grid_equals_the_grid() {
    let catalog = three_tiles();
    let mut grid = Grid::new(2, 3, WrapPolicy::WrapY, &catalog);
    grid.cells[4].options = vec![2];
    grid.cells[4].collapsed = true;
    let copy = grid.clone();
    assert_eq!(copy, grid);
    assert_eq!(copy.cells[4].clone(), grid.cells[4]);
    assert_eq!(catalog.clone(), catalog);
}
