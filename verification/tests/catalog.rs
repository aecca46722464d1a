use wave::{CatalogError, Tile, TileCatalog};

fn strings(edges: [&str; 4]) -> Vec<String> {
    edges.iter().map(|e| e.to_string()).collect()
}

fn three_tiles() -> Vec<Tile> {
    vec![
        Tile::new(0, strings(["AB", "X", "BA", "X"])),
        Tile::new(1, strings(["BA", "X", "AB", "Y"])),
        Tile::new(2, strings(["AA", "Y", "AA", "X"])),
    ]
}

fn with_rotations(tiles: &mut Vec<Tile>, tile: Tile, turns: usize) {
    for i in 1..=turns {
        tiles.push(tile.rotate(i));
    }
    tiles.push(tile);
}

fn circuit_tiles() -> Vec<Tile> {
    let mut tiles = Vec::new();
    with_rotations(&mut tiles, Tile::new(0, strings(["AAA", "AAA", "AAA", "AAA"])), 0);
    with_rotations(&mut tiles, Tile::new(1, strings(["BBB", "BBB", "BBB", "BBB"])), 0);
    with_rotations(&mut tiles, Tile::new(2, strings(["BBB", "BCB", "BBB", "BBB"])), 3);
    with_rotations(&mut tiles, Tile::new(3, strings(["BBB", "BDB", "BBB", "BDB"])), 1);
    with_rotations(&mut tiles, Tile::new(4, strings(["ABB", "BCB", "BBA", "AAA"])), 3);
    with_rotations(&mut tiles, Tile::new(5, strings(["ABB", "BBB", "BBB", "BBA"])), 3);
    with_rotations(&mut tiles, Tile::new(6, strings(["BBB", "BCB", "BBB", "BCB"])), 1);
    with_rotations(&mut tiles, Tile::new(7, strings(["BDB", "BCB", "BDB", "BCB"])), 1);
    with_rotations(&mut tiles, Tile::new(8, strings(["BDB", "BBB", "BCB", "BBB"])), 3);
    with_rotations(&mut tiles, Tile::new(9, strings(["BCB", "BCB", "BBB", "BCB"])), 3);
    with_rotations(&mut tiles, Tile::new(10, strings(["BCB", "BCB", "BCB", "BCB"])), 1);
    with_rotations(&mut tiles, Tile::new(11, strings(["BCB", "BCB", "BBB", "BBB"])), 3);
    with_rotations(&mut tiles, Tile::new(12, strings(["BBB", "BCB", "BBB", "BCB"])), 1);
    tiles
}

fn reversed(s: &str) -> String {
    s.chars().rev().collect()
}

#[test]
fn an_empty_list_is_refused() {
    assert_eq!(TileCatalog::new(Vec::new()).err(), Some(CatalogError::Empty));
}

#[test]
fn a_tile_with_three_edges_is_refused() {
    let mut tiles = three_tiles();
    tiles[1].edges.pop();
    assert_eq!(TileCatalog::new(tiles).err(), Some(CatalogError::EdgeCount { tile: 1 }));
}

#[test]
fn a_tile_with_five_edges_is_refused() {
    let mut tiles = three_tiles();
    tiles[2].edges.push("X".to_string());
    assert_eq!(TileCatalog::new(tiles).err(), Some(CatalogError::EdgeCount { tile: 2 }));
}

#[test]
fn a_rotation_of_four_is_refused() {
    let mut tiles = three_tiles();
    tiles[0].rotation = 4;
    assert_eq!(TileCatalog::new(tiles).err(), Some(CatalogError::Rotation { tile: 0 }));
}

#[test]
fn a_neighbour_outside_the_list_is_refused() {
    let mut tiles = three_tiles();
    tiles[2].left.push(3);
    assert_eq!(TileCatalog::new(tiles).err(), Some(CatalogError::Neighbor { tile: 2 }));
    let mut tiles = three_tiles();
    tiles[0].up.push(2);
    tiles[0].down.push(usize::MAX);
    assert_eq!(TileCatalog::new(tiles).err(), Some(CatalogError::Neighbor { tile: 0 }));
}

#[test]
fn the_first_malformed_tile_is_named() {
    let mut tiles = three_tiles();
    tiles[2].edges.clear();
    tiles[1].rotation = 9;
    tiles[1].right.push(17);
    assert_eq!(TileCatalog::new(tiles).err(), Some(CatalogError::Rotation { tile: 1 }));
}

#[test]
fn edges_are_looked_at_before_rotation_and_neighbours() {
    let mut tiles = three_tiles();
    tiles[0].edges.pop();
    tiles[0].rotation = 4;
    tiles[0].up.push(3);
    assert_eq!(TileCatalog::new(tiles).err(), Some(CatalogError::EdgeCount { tile: 0 }));
    let mut tiles = three_tiles();
    tiles[0].rotation = 4;
    tiles[0].up.push(3);
    assert_eq!(TileCatalog::new(tiles).err(), Some(CatalogError::Rotation { tile: 0 }));
}

#[test]
fn the_catalog_keeps_the_tiles_in_order() {
    let catalog = TileCatalog::new(three_tiles()).unwrap();
    assert_eq!(catalog.len(), 3);
    for i in 0..3 {
        assert_eq!(catalog.tile(i).image, i);
        assert_eq!(catalog.tile(i).rotation, 0);
        assert_eq!(catalog.tile(i).edges, three_tiles()[i].edges);
    }
}

#[test]
fn the_catalog_works_out_every_neighbour() {
    let catalog = TileCatalog::new(three_tiles()).unwrap();
    assert_eq!(catalog.tile(0).up, vec![0]);
    assert_eq!(catalog.tile(0).right, vec![0, 2]);
    assert_eq!(catalog.tile(0).down, vec![0]);
    assert_eq!(catalog.tile(0).left, vec![0, 1]);
    assert_eq!(catalog.tile(1).up, vec![1]);
    assert_eq!(catalog.tile(1).right, vec![0, 2]);
    assert_eq!(catalog.tile(1).down, vec![1]);
    assert_eq!(catalog.tile(1).left, vec![2]);
    assert_eq!(catalog.tile(2).up, vec![2]);
    assert_eq!(catalog.tile(2).right, vec![1]);
    assert_eq!(catalog.tile(2).down, vec![2]);
    assert_eq!(catalog.tile(2).left, vec![0, 1]);
}

#[test]
fn neighbours_given_with_the_tiles_are_replaced() {
    let mut tiles = three_tiles();
    tiles[0].up = vec![2, 2, 1];
    tiles[1].left = vec![0];
    let catalog = TileCatalog::new(tiles).unwrap();
    assert_eq!(catalog.tile(0).up, vec![0]);
    assert_eq!(catalog.tile(1).left, vec![2]);
}

#[test]
fn tiles_that_fit_nothing_have_no_neighbours() {
    let tiles = vec![
        Tile::new(0, strings(["A", "B", "A", "C"])),
        Tile::new(1, strings(["A", "D", "A", "E"])),
    ];
    let catalog = TileCatalog::new(tiles).unwrap();
    for i in 0..2 {
        assert_eq!(catalog.tile(i).up, vec![0, 1]);
        assert_eq!(catalog.tile(i).down, vec![0, 1]);
        assert!(catalog.tile(i).right.is_empty());
        assert!(catalog.tile(i).left.is_empty());
    }
}

#[test]
fn the_circuit_set_has_thirty_six_tiles() {
    let catalog = TileCatalog::new(circuit_tiles()).unwrap();
    assert_eq!(catalog.len(), 36);
    assert_eq!(catalog.tile(0).up, vec![0, 10]);
    assert_eq!(catalog.tile(2).rotation, 1);
    assert_eq!(catalog.tile(2).edges, strings(["BBB", "BBB", "BCB", "BBB"]));
    assert_eq!(catalog.tile(5).rotation, 0);
    assert_eq!(catalog.tile(5).image, 2);
}

#[test]
fn adjacency_is_symmetric_over_the_circuit_set() {
    let catalog = TileCatalog::new(circuit_tiles()).unwrap();
    let n = catalog.len();
    for a in 0..n {
        for b in 0..n {
            let ta = catalog.tile(a);
            let tb = catalog.tile(b);
            assert_eq!(ta.up.contains(&b), tb.down.contains(&a));
            assert_eq!(ta.right.contains(&b), tb.left.contains(&a));
            assert_eq!(ta.down.contains(&b), tb.up.contains(&a));
            assert_eq!(ta.left.contains(&b), tb.right.contains(&a));
        }
    }
}

#[test]
fn adjacency_is_what_the_edges_say_over_the_circuit_set() {
    let catalog = TileCatalog::new(circuit_tiles()).unwrap();
    let n = catalog.len();
    for a in 0..n {
        let ta = catalog.tile(a);
        let mut up = Vec::new();
        let mut right = Vec::new();
        let mut down = Vec::new();
        let mut left = Vec::new();
        for b in 0..n {
            let tb = catalog.tile(b);
            if reversed(&tb.edges[2]) == ta.edges[0] {
                up.push(b);
            }
            if reversed(&tb.edges[3]) == ta.edges[1] {
                right.push(b);
            }
            if reversed(&tb.edges[0]) == ta.edges[2] {
                down.push(b);
            }
            if reversed(&tb.edges[1]) == ta.edges[3] {
                left.push(b);
            }
        }
        assert_eq!(ta.up, up);
        assert_eq!(ta.right, right);
        assert_eq!(ta.down, down);
        assert_eq!(ta.left, left);
    }
}

#[test]
fn a_built_catalog_is_well_formed() {
    assert!(TileCatalog::new(three_tiles()).unwrap().is_well_formed());
    assert!(TileCatalog::new(circuit_tiles()).unwrap().is_well_formed());
}

#[test]
fn a_catalog_put_together_by_hand_is_checked() {
    assert!(!TileCatalog { tiles: Vec::new() }.is_well_formed());
    assert!(!TileCatalog { tiles: three_tiles() }.is_well_formed());
    let mut catalog = TileCatalog::new(three_tiles()).unwrap();
    catalog.tiles[1].left.push(0);
    assert!(!catalog.is_well_formed());
    let mut catalog = TileCatalog::new(three_tiles()).unwrap();
    catalog.tiles[0].right = vec![2, 0];
    assert!(!catalog.is_well_formed());
    let mut catalog = TileCatalog::new(three_tiles()).unwrap();
    catalog.tiles[2].rotation = 4;
    assert!(!catalog.is_well_formed());
    let mut catalog = TileCatalog::new(three_tiles()).unwrap();
    catalog.tiles[2].edges.push("X".to_string());
    assert!(!catalog.is_well_formed());
    let mut catalog = TileCatalog::new(three_tiles()).unwrap();
    catalog.tiles[2].edges[0] = "AB".to_string();
    assert!(!catalog.is_well_formed());
    let mut tiles = three_tiles();
    let all = tiles.clone();
    for tile in tiles.iter_mut() {
        tile.generate_relationships(&all);
    }
    assert!(TileCatalog { tiles }.is_well_formed());
}

#[test]
fn building_twice_gives_the_same_catalog() {
    let once = TileCatalog::new(circuit_tiles()).unwrap();
    let twice = TileCatalog::new(once.tiles.clone()).unwrap();
    assert_eq!(once, twice);
}
