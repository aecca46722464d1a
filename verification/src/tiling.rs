//! What the solver achieves: wherever two cells touch, the tile of a
//! collapsed cell admits everything that is still possible next to it, so a
//! grid that is collapsed throughout is a tiling whose edges fit.

use crate::catalog::{is_catalog, lemma_matched_contains, lemma_matched_symmetric};
use crate::direction::{lemma_opposite_involutive, Direction};
use crate::grid::{cell_ok, lemma_position, GridView};
use crate::signature::fits;
use crate::solver::{after_collapse, after_reset, lemma_narrowed, resolved, side_toward};
use crate::tile::TileView;
use vstd::prelude::*;

verus! {

/// Whether an axis that wraps is at least three cells long.  On a shorter
/// one a cell would be its own neighbour, or meet the same neighbour on both
/// sides.
pub open spec fn roomy(g: GridView) -> bool {
    &&& g.wrap.wraps_x() ==> g.width >= 3
    &&& g.wrap.wraps_y() ==> g.height >= 3
}

/// The tile that the collapsed cell `c` was committed to.
pub open spec fn tile_at(g: GridView, c: int) -> usize {
    g.cells[c].options[0]
}

/// Whether every option of cell `i` is a tile that the tile of cell `c`
/// admits on the side where `i` lies; true where `i` does not lie next to `c`.
pub open spec fn admits(g: GridView, tiles: Seq<TileView>, c: int, i: int) -> bool {
    match side_toward(g.neighbors_of(c), g.cells[i].coord) {
        Some(d) => forall|k: int|
            0 <= k < g.cells[i].options.len() ==> tiles[tile_at(g, c) as int].adjacency(d).contains(
                #[trigger] g.cells[i].options[k],
            ),
        None => true,
    }
}

/// Whether every collapsed cell admits what is possible in the cells around it.
pub open spec fn settled(g: GridView, tiles: Seq<TileView>) -> bool {
    forall|c: int, i: int|
        0 <= c < g.cells.len() && 0 <= i < g.cells.len() && i != c && g.cells[c].collapsed
            ==> #[trigger] admits(g, tiles, c, i)
}

/// A grid in which no cell is collapsed is settled: a new grid, and a grid
/// after a reset.
pub proof fn lemma_open_grid_is_settled(g: GridView, tiles: Seq<TileView>)
    requires
        forall|i: int| 0 <= i < g.cells.len() ==> !(#[trigger] g.cells[i]).collapsed,
    ensures
        settled(g, tiles),
{
}

/// On a roomy grid two cells that touch see each other on opposite sides.
pub proof fn lemma_sides_face_each_other(g: GridView, c: int, i: int, d: Direction)
    requires
        g.laid_out(),
        roomy(g),
        0 <= c < g.cells.len(),
        0 <= i < g.cells.len(),
        side_toward(g.neighbors_of(c), g.cells[i].coord) == Some(d),
    ensures
        i != c,
        side_toward(g.neighbors_of(i), g.cells[c].coord) == Some(d.opposite()),
{
    lemma_position(g, c);
    lemma_position(g, i);
}

/// A collapse keeps a roomy grid settled.
pub proof fn lemma_collapse_keeps_settled(g: GridView, tiles: Seq<TileView>, c: int, t: usize)
    requires
        is_catalog(tiles),
        g.well_formed(tiles.len()),
        roomy(g),
        settled(g, tiles),
        0 <= c < g.cells.len(),
        !g.cells[c].collapsed,
        g.cells[c].options.contains(t),
    ensures
        settled(after_collapse(g, tiles, c, t), tiles),
{
    let next = after_collapse(g, tiles, c, t);
    assert forall|a: int, i: int|
        0 <= a < next.cells.len() && 0 <= i < next.cells.len() && i != a
            && next.cells[a].collapsed implies #[trigger] admits(next, tiles, a, i) by {
        assert(next.neighbors_of(a) == g.neighbors_of(a));
        assert(next.cells[i].coord == g.cells[i].coord);
        match side_toward(g.neighbors_of(a), g.cells[i].coord) {
            Some(d) => {
                let held = next.cells[i].options;
                let allowed = tiles[tile_at(next, a) as int].adjacency(d);
                assert forall|k: int| 0 <= k < held.len() implies allowed.contains(
                    #[trigger] held[k],
                ) by {
                    lemma_still_admitted(g, tiles, c, t, a, i, d, k);
                }
            },
            None => {},
        }
    }
}

/// The step of `lemma_collapse_keeps_settled` for one option of one cell.
proof fn lemma_still_admitted(
    g: GridView,
    tiles: Seq<TileView>,
    c: int,
    t: usize,
    a: int,
    i: int,
    d: Direction,
    k: int,
)
    requires
        is_catalog(tiles),
        g.well_formed(tiles.len()),
        roomy(g),
        settled(g, tiles),
        0 <= c < g.cells.len(),
        !g.cells[c].collapsed,
        g.cells[c].options.contains(t),
        0 <= a < g.cells.len(),
        0 <= i < g.cells.len(),
        i != a,
        after_collapse(g, tiles, c, t).cells[a].collapsed,
        side_toward(g.neighbors_of(a), g.cells[i].coord) == Some(d),
        0 <= k < after_collapse(g, tiles, c, t).cells[i].options.len(),
    ensures
        tiles[tile_at(after_collapse(g, tiles, c, t), a) as int].adjacency(d).contains(
            after_collapse(g, tiles, c, t).cells[i].options[k],
        ),
{
    let next = after_collapse(g, tiles, c, t);
    let held = next.cells[i].options;
    let option = held[k];
    assert(cell_ok(g.cells[c], tiles.len()));
    assert(cell_ok(g.cells[i], tiles.len()));
    let at = choose|at: int| 0 <= at < g.cells[c].options.len() && g.cells[c].options[at] == t;
    assert(t < tiles.len());
    if a == c {
        // The cell just collapsed: its tile is `t`.
        assert(tile_at(next, a) == t);
        let allowed = tiles[t as int].adjacency(d);
        if g.cells[i].collapsed {
            // The neighbour was collapsed before, so it admitted `t`.
            let other = tile_at(g, i);
            assert(held =~= g.cells[i].options);
            assert(option == other);
            assert(other < tiles.len());
            lemma_sides_face_each_other(g, c, i, d);
            assert(admits(g, tiles, i, c));
            assert(tiles[other as int].adjacency(d.opposite()).contains(g.cells[c].options[at]));
            lemma_opposite_involutive(d);
            lemma_matched_symmetric(tiles, other, t, d.opposite());
        } else {
            lemma_narrowed(g.cells[i].options, allowed);
            assert(held.contains(option));
        }
    } else {
        // A cell collapsed before: its tile is what it was.
        assert(g.cells[a].collapsed);
        assert(tile_at(next, a) == tile_at(g, a));
        let allowed = tiles[tile_at(g, a) as int].adjacency(d);
        assert(admits(g, tiles, a, i));
        if i == c {
            assert(option == t);
            assert(allowed.contains(g.cells[c].options[at]));
        } else if g.cells[i].collapsed {
            assert(held =~= g.cells[i].options);
        } else {
            match side_toward(g.neighbors_of(c), g.cells[i].coord) {
                Some(e) => {
                    lemma_narrowed(g.cells[i].options, tiles[t as int].adjacency(e));
                    assert(held.contains(option));
                    assert(g.cells[i].options.contains(option));
                    let j = choose|j: int|
                        0 <= j < g.cells[i].options.len() && g.cells[i].options[j] == option;
                    assert(allowed.contains(g.cells[i].options[j]));
                },
                None => {
                    assert(held =~= g.cells[i].options);
                },
            }
        }
    }
}

/// Whatever cell the solver acts on and whatever option it picks, a roomy
/// grid that was settled is settled afterwards.
pub proof fn lemma_resolved_keeps_settled(g: GridView, tiles: Seq<TileView>, c: int, pick: int)
    requires
        is_catalog(tiles),
        g.well_formed(tiles.len()),
        roomy(g),
        settled(g, tiles),
        0 <= c < g.cells.len(),
        !g.cells[c].collapsed,
        g.cells[c].options.len() > 0 ==> 0 <= pick < g.cells[c].options.len(),
    ensures
        settled(resolved(g, tiles, c, pick), tiles),
{
    if g.cells[c].options.len() == 0 {
        lemma_open_grid_is_settled(after_reset(g, tiles.len()), tiles);
    } else {
        let t = g.cells[c].options[pick];
        assert(g.cells[c].options.contains(t));
        lemma_collapse_keeps_settled(g, tiles, c, t);
    }
}

/// In a settled grid two collapsed cells that touch hold tiles whose edges
/// fit along the boundary they share.
pub proof fn lemma_touching_tiles_fit(
    g: GridView,
    tiles: Seq<TileView>,
    c: int,
    i: int,
    d: Direction,
)
    requires
        is_catalog(tiles),
        g.well_formed(tiles.len()),
        settled(g, tiles),
        0 <= c < g.cells.len(),
        0 <= i < g.cells.len(),
        i != c,
        g.cells[c].collapsed,
        g.cells[i].collapsed,
        side_toward(g.neighbors_of(c), g.cells[i].coord) == Some(d),
    ensures
        fits(
            tiles[tile_at(g, c) as int].edge(d),
            tiles[tile_at(g, i) as int].edge(d.opposite()),
        ),
{
    assert(cell_ok(g.cells[c], tiles.len()));
    assert(cell_ok(g.cells[i], tiles.len()));
    assert(admits(g, tiles, c, i));
    let a = tile_at(g, c);
    let b = tile_at(g, i);
    assert(tiles[a as int].adjacency(d).contains(g.cells[i].options[0]));
    lemma_matched_contains(tiles, tiles[a as int], d, b);
}

} // verus!
