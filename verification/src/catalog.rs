//! The catalog: the complete, fixed list of tiles that a grid is filled from.

use crate::direction::{lemma_opposite_involutive, Direction};
use crate::signature::{fits, lemma_fits_symmetric};
use crate::tile::{
    fitting_among, lemma_fitting_among, lemma_fitting_among_step, matched, tile_views, Tile,
    TileView,
};
use vstd::prelude::*;

verus! {

/// Why a list of tiles cannot serve as a catalog.
#[derive(PartialEq, Eq, Copy, Clone, Debug)]
pub enum CatalogError {
    /// The list holds no tile.
    Empty,
    /// The tile at this index does not have exactly four edges.
    EdgeCount { tile: usize },
    /// The rotation of the tile at this index is not one of 0, 1, 2, 3.
    Rotation { tile: usize },
    /// The tile at this index names a neighbour that the list does not hold.
    Neighbor { tile: usize },
}

/// The tiles of a catalog, each with the neighbours it admits on every side.
#[derive(Debug, PartialEq, Eq)]
pub struct TileCatalog {
    pub tiles: Vec<Tile>,
}

impl View for TileCatalog {
    type V = Seq<TileView>;

    open spec fn view(&self) -> Seq<TileView> {
        tile_views(self.tiles@)
    }
}

impl Clone for TileCatalog {
    fn clone(&self) -> (catalog: TileCatalog)
        ensures
            catalog@ == self@,
    {
        let catalog = TileCatalog { tiles: self.tiles.clone() };
        assert(catalog@ =~= self@);
        catalog
    }
}

/// Every neighbour that `t` names is an index below `count`.
pub open spec fn names_within(t: TileView, count: nat) -> bool {
    forall|d: Direction, k: int|
        0 <= k < t.adjacency(d).len() ==> (#[trigger] t.adjacency(d)[k]) < count
}

/// What is wrong with the tile `t` at position `index` of a list of `count`
/// tiles, if anything: the edges are looked at first, then the rotation, then
/// the neighbours it names.
pub open spec fn tile_defect(t: TileView, index: usize, count: nat) -> Option<CatalogError> {
    if t.edges.len() != 4 {
        Some(CatalogError::EdgeCount { tile: index })
    } else if t.rotation >= 4 {
        Some(CatalogError::Rotation { tile: index })
    } else if !names_within(t, count) {
        Some(CatalogError::Neighbor { tile: index })
    } else {
        None
    }
}

/// The defect of the first tile at or after position `from` that has one.
pub open spec fn first_defect(tiles: Seq<TileView>, from: nat) -> Option<CatalogError>
    decreases tiles.len() - from,
{
    if from >= tiles.len() {
        None
    } else {
        match tile_defect(tiles[from as int], from as usize, tiles.len()) {
            Some(e) => Some(e),
            None => first_defect(tiles, from + 1),
        }
    }
}

/// Why `tiles` is refused as a catalog, or `None` where it is accepted.
pub open spec fn catalog_defect(tiles: Seq<TileView>) -> Option<CatalogError> {
    if tiles.len() == 0 {
        Some(CatalogError::Empty)
    } else {
        first_defect(tiles, 0)
    }
}

/// `tiles` with the neighbours of every tile worked out against the whole list.
pub open spec fn with_matches(tiles: Seq<TileView>) -> Seq<TileView> {
    Seq::new(
        tiles.len(),
        |i: int|
            TileView {
                image: tiles[i].image,
                rotation: tiles[i].rotation,
                edges: tiles[i].edges,
                up: matched(tiles[i], tiles, Direction::Up),
                right: matched(tiles[i], tiles, Direction::Right),
                down: matched(tiles[i], tiles, Direction::Down),
                left: matched(tiles[i], tiles, Direction::Left),
            },
    )
}

/// What the solver relies on: there is a tile, every tile has four edges and a
/// rotation of at most three quarter turns, and the neighbours of every tile
/// are those that fit it among all the tiles of the list.
pub open spec fn is_catalog(tiles: Seq<TileView>) -> bool {
    &&& 0 < tiles.len() <= usize::MAX
    &&& forall|i: int|
        0 <= i < tiles.len() ==> (#[trigger] tiles[i]).edges.len() == 4 && tiles[i].rotation < 4
    &&& forall|i: int, d: Direction|
        0 <= i < tiles.len() ==> #[trigger] tiles[i].adjacency(d) == matched(tiles[i], tiles, d)
}

/// Fitting is mutual: among tiles matched against one list, `b` may lie in
/// direction `d` of `a` exactly if `a` may lie in the opposite direction of `b`.
pub proof fn lemma_matched_symmetric(tiles: Seq<TileView>, a: usize, b: usize, d: Direction)
    requires
        tiles.len() <= usize::MAX,
        a < tiles.len(),
        b < tiles.len(),
    ensures
        matched(tiles[a as int], tiles, d).contains(b) <==> matched(
            tiles[b as int],
            tiles,
            d.opposite(),
        ).contains(a),
        is_catalog(tiles) ==> (tiles[a as int].adjacency(d).contains(b)
            <==> tiles[b as int].adjacency(d.opposite()).contains(a)),
{
    lemma_opposite_involutive(d);
    let ta = tiles[a as int];
    let tb = tiles[b as int];
    lemma_matched_contains(tiles, ta, d, b);
    lemma_matched_contains(tiles, tb, d.opposite(), a);
    lemma_fits_symmetric(ta.edge(d), tb.edge(d.opposite()));
}

/// A tile is among the neighbours matched for `me` on side `d` exactly if it
/// is in the list and its opposite edge fits.
pub proof fn lemma_matched_contains(tiles: Seq<TileView>, me: TileView, d: Direction, b: usize)
    requires
        tiles.len() <= usize::MAX,
    ensures
        matched(me, tiles, d).contains(b) <==> b < tiles.len() && fits(
            me.edge(d),
            tiles[b as int].edge(d.opposite()),
        ),
{
    lemma_fitting_among(me.edge(d), tiles, d.opposite(), tiles.len());
}

/// In a catalog every list of neighbours is strictly ascending and names only
/// tiles of the catalog.
pub proof fn lemma_catalog_adjacency(tiles: Seq<TileView>, t: int, d: Direction)
    requires
        is_catalog(tiles),
        0 <= t < tiles.len(),
    ensures
        forall|k: int|
            0 <= k < tiles[t].adjacency(d).len() ==> (#[trigger] tiles[t].adjacency(d)[k])
                < tiles.len(),
        forall|j: int, k: int|
            0 <= j < k < tiles[t].adjacency(d).len() ==> (#[trigger] tiles[t].adjacency(d)[j]) < (
            #[trigger] tiles[t].adjacency(d)[k]),
{
    lemma_fitting_among(tiles[t].edge(d), tiles, d.opposite(), tiles.len());
}

/// Whether every entry of `list` is below `bound`.
fn all_below(list: &Vec<usize>, bound: usize) -> (r: bool)
    ensures
        r == forall|k: int| 0 <= k < list@.len() ==> (#[trigger] list@[k]) < bound,
{
    let mut k: usize = 0;
    while k < list.len()
        invariant
            k <= list@.len(),
            forall|j: int| 0 <= j < k ==> (#[trigger] list@[j]) < bound,
        decreases list@.len() - k,
    {
        if list[k] >= bound {
            return false;
        }
        k += 1;
    }
    true
}

/// Whether two lists hold the same entries in the same order.
fn same_list(a: &Vec<usize>, b: &Vec<usize>) -> (r: bool)
    ensures
        r == (a@ == b@),
{
    if a.len() != b.len() {
        return false;
    }
    let mut k: usize = 0;
    while k < a.len()
        invariant
            k <= a@.len(),
            a@.len() == b@.len(),
            forall|j: int| 0 <= j < k ==> a@[j] == b@[j],
        decreases a@.len() - k,
    {
        if a[k] != b[k] {
            return false;
        }
        k += 1;
    }
    assert(a@ =~= b@);
    true
}

/// Decides `tile_defect`.
fn inspect(tile: &Tile, index: usize, count: usize) -> (r: Option<CatalogError>)
    ensures
        r == tile_defect(tile@, index, count as nat),
{
    if tile.edges.len() != 4 {
        return Some(CatalogError::EdgeCount { tile: index });
    }
    if tile.rotation >= 4 {
        return Some(CatalogError::Rotation { tile: index });
    }
    let up_ok = all_below(&tile.up, count);
    let right_ok = all_below(&tile.right, count);
    let down_ok = all_below(&tile.down, count);
    let left_ok = all_below(&tile.left, count);
    let within = up_ok && right_ok && down_ok && left_ok;
    proof {
        let t = tile@;
        if within {
            assert forall|d: Direction, k: int| 0 <= k < t.adjacency(d).len() implies (
            #[trigger] t.adjacency(d)[k]) < count by {
                match d {
                    Direction::Up => {},
                    Direction::Right => {},
                    Direction::Down => {},
                    Direction::Left => {},
                }
            }
        } else {
            let d = if !up_ok {
                Direction::Up
            } else if !right_ok {
                Direction::Right
            } else if !down_ok {
                Direction::Down
            } else {
                Direction::Left
            };
            let list = t.adjacency(d);
            let k = choose|k: int| 0 <= k < list.len() && !((#[trigger] list[k]) < count);
            assert(!(t.adjacency(d)[k] < count));
        }
    }
    if within {
        None
    } else {
        Some(CatalogError::Neighbor { tile: index })
    }
}

impl TileCatalog {
    /// Whether this catalog is one the solver can work from.
    pub open spec fn well_formed(&self) -> bool {
        is_catalog(self@)
    }

    /// Builds the catalog from the complete list of tiles, rotated variants
    /// included, and works out the neighbours of every tile against that list.
    ///
    /// The list is refused if it is empty or if one of its tiles is malformed;
    /// the error names the first such tile.  Neighbours that the given tiles
    /// already carry are checked and then replaced.
    pub fn new(tiles: Vec<Tile>) -> (r: Result<TileCatalog, CatalogError>)
        ensures
            match r {
                Ok(catalog) => {
                    &&& catalog_defect(tile_views(tiles@)) is None
                    &&& catalog@ == with_matches(tile_views(tiles@))
                    &&& catalog.well_formed()
                },
                Err(e) => catalog_defect(tile_views(tiles@)) == Some(e),
            },
    {
        let count: usize = tiles.len();
        let ghost given = tile_views(tiles@);
        if count == 0 {
            return Err(CatalogError::Empty);
        }
        let mut i: usize = 0;
        while i < count
            invariant
                i <= count,
                count == tiles@.len(),
                given == tile_views(tiles@),
                forall|j: int|
                    0 <= j < i ==> tile_defect(given[j], j as usize, count as nat) is None,
                first_defect(given, 0) == first_defect(given, i as nat),
            decreases count - i,
        {
            assert(given[i as int] == tiles@[i as int]@);
            match inspect(&tiles[i], i, count) {
                Some(e) => {
                    return Err(e);
                },
                None => {},
            }
            i += 1;
        }
        let mut matched_tiles: Vec<Tile> = Vec::new();
        let mut i: usize = 0;
        while i < count
            invariant
                i <= count,
                count == tiles@.len(),
                given == tile_views(tiles@),
                forall|j: int|
                    0 <= j < count ==> tile_defect(given[j], j as usize, count as nat) is None,
                matched_tiles@.len() == i,
                forall|j: int|
                    0 <= j < i ==> (#[trigger] matched_tiles@[j])@ == with_matches(given)[j],
            decreases count - i,
        {
            let mut tile = tiles[i].clone();
            assert(given[i as int] == tiles@[i as int]@);
            assert forall|j: int| 0 <= j < tiles@.len() implies (#[trigger] tiles@[j]).edges@.len()
                >= 4 by {
                assert(given[j] == tiles@[j]@);
                assert(tile_defect(given[j], j as usize, count as nat) is None);
            }
            tile.generate_relationships(tiles.as_slice());
            proof {
                assert(tile@.adjacency(Direction::Up) == matched(
                    given[i as int],
                    given,
                    Direction::Up,
                ));
                assert(tile@.adjacency(Direction::Right) == matched(
                    given[i as int],
                    given,
                    Direction::Right,
                ));
                assert(tile@.adjacency(Direction::Down) == matched(
                    given[i as int],
                    given,
                    Direction::Down,
                ));
                assert(tile@.adjacency(Direction::Left) == matched(
                    given[i as int],
                    given,
                    Direction::Left,
                ));
                assert(tile@ =~= with_matches(given)[i as int]);
            }
            matched_tiles.push(tile);
            i += 1;
        }
        let catalog = TileCatalog { tiles: matched_tiles };
        proof {
            assert(catalog@ =~= with_matches(given));
            lemma_with_matches_is_catalog(given);
        }
        Ok(catalog)
    }

    /// Decides whether this catalog is one the solver can work from, by
    /// working out the neighbours of every tile once more.
    pub fn is_well_formed(&self) -> (ok: bool)
        ensures
            ok == self.well_formed(),
    {
        let count: usize = self.tiles.len();
        let ghost tiles = self@;
        if count == 0 {
            return false;
        }
        let mut i: usize = 0;
        while i < count
            invariant
                i <= count,
                count == self.tiles@.len(),
                tiles == self@,
                forall|j: int|
                    0 <= j < i ==> (#[trigger] tiles[j]).edges.len() == 4 && tiles[j].rotation < 4,
            decreases count - i,
        {
            assert(tiles[i as int] == self.tiles@[i as int]@);
            if self.tiles[i].edges.len() != 4 || self.tiles[i].rotation >= 4 {
                return false;
            }
            i += 1;
        }
        let mut i: usize = 0;
        while i < count
            invariant
                i <= count,
                count == self.tiles@.len(),
                tiles == self@,
                forall|j: int|
                    0 <= j < count ==> (#[trigger] tiles[j]).edges.len() == 4 && tiles[j].rotation
                        < 4,
                forall|j: int, d: Direction|
                    0 <= j < i ==> #[trigger] tiles[j].adjacency(d) == matched(tiles[j], tiles, d),
            decreases count - i,
        {
            let tile = &self.tiles[i];
            assert(tiles[i as int] == tile@);
            assert forall|j: int| 0 <= j < self.tiles@.len() implies (
            #[trigger] self.tiles@[j]).edges@.len() >= 4 by {
                assert(tiles[j] == self.tiles@[j]@);
            }
            let mut probe = tile.clone();
            probe.generate_relationships(self.tiles.as_slice());
            let up_ok = same_list(&probe.up, &tile.up);
            let right_ok = same_list(&probe.right, &tile.right);
            let down_ok = same_list(&probe.down, &tile.down);
            let left_ok = same_list(&probe.left, &tile.left);
            proof {
                assert(probe@.adjacency(Direction::Up) == matched(tile@, tiles, Direction::Up));
                assert(probe@.adjacency(Direction::Right) == matched(
                    tile@,
                    tiles,
                    Direction::Right,
                ));
                assert(probe@.adjacency(Direction::Down) == matched(tile@, tiles, Direction::Down));
                assert(probe@.adjacency(Direction::Left) == matched(tile@, tiles, Direction::Left));
            }
            if !(up_ok && right_ok && down_ok && left_ok) {
                proof {
                    let d = if !up_ok {
                        Direction::Up
                    } else if !right_ok {
                        Direction::Right
                    } else if !down_ok {
                        Direction::Down
                    } else {
                        Direction::Left
                    };
                    assert(tiles[i as int].adjacency(d) != matched(tiles[i as int], tiles, d));
                }
                return false;
            }
            assert forall|d: Direction| #[trigger]
                tiles[i as int].adjacency(d) == matched(tiles[i as int], tiles, d) by {
                match d {
                    Direction::Up => {},
                    Direction::Right => {},
                    Direction::Down => {},
                    Direction::Left => {},
                }
            }
            i += 1;
        }
        true
    }

    /// The number of tiles.
    pub fn len(&self) -> (n: usize)
        ensures
            n == self@.len(),
    {
        self.tiles.len()
    }

    /// The tile at `index`.
    pub fn tile(&self, index: usize) -> (tile: &Tile)
        requires
            index < self@.len(),
        ensures
            tile@ == self@[index as int],
    {
        &self.tiles[index]
    }
}

/// A list whose tiles have four edges and a rotation below four becomes a
/// catalog once the neighbours are worked out.
pub proof fn lemma_with_matches_is_catalog(tiles: Seq<TileView>)
    requires
        0 < tiles.len() <= usize::MAX,
        forall|i: int|
            0 <= i < tiles.len() ==> (#[trigger] tiles[i]).edges.len() == 4 && tiles[i].rotation
                < 4,
    ensures
        is_catalog(with_matches(tiles)),
{
    let done = with_matches(tiles);
    assert forall|i: int, d: Direction| 0 <= i < done.len() implies #[trigger] done[i].adjacency(d)
        == matched(done[i], done, d) by {
        lemma_matched_reads_edges(tiles, done, tiles[i].edge(d), d.opposite(), tiles.len());
        assert(done[i].edge(d) == tiles[i].edge(d));
        match d {
            Direction::Up => {},
            Direction::Right => {},
            Direction::Down => {},
            Direction::Left => {},
        }
    }
}

/// Which tiles fit an edge depends on the edges of the tiles alone.
proof fn lemma_matched_reads_edges(
    a: Seq<TileView>,
    b: Seq<TileView>,
    edge: Seq<char>,
    side: Direction,
    n: nat,
)
    requires
        n <= a.len() == b.len(),
        n <= usize::MAX,
        forall|i: int| 0 <= i < a.len() ==> (#[trigger] a[i]).edges == b[i].edges,
    ensures
        fitting_among(edge, a, side, n) == fitting_among(edge, b, side, n),
    decreases n,
{
    if n == 0 {
        lemma_fitting_among_step(edge, a, side, 0);
        lemma_fitting_among_step(edge, b, side, 0);
    } else {
        let m = (n - 1) as nat;
        lemma_matched_reads_edges(a, b, edge, side, m);
        lemma_fitting_among_step(edge, a, side, m);
        lemma_fitting_among_step(edge, b, side, m);
        assert(a[m as int].edges == b[m as int].edges);
    }
}

} // verus!
