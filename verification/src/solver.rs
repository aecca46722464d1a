//! One tick of the solver: choose a cell, collapse it or start over, and
//! narrow the neighbours of a collapsed cell.

use crate::catalog::{is_catalog, lemma_catalog_adjacency, TileCatalog};
use crate::chance::draw_below;
use crate::direction::Direction;
use crate::grid::{
    all_collapsed, all_tiles, ascending, cell_ok, every_tile, fresh_cells, lemma_open_cell_ok,
    on_frontier, open_cell, Cell, CellView, Grid, GridView,
};
use crate::lattice::{CardinalDirections, SnappedCoordinate};
use crate::tile::TileView;
use crate::tiling::{lemma_collapse_keeps_settled, lemma_resolved_keeps_settled, roomy, settled};
use vstd::prelude::*;

verus! {

/// What a tick did.
#[derive(PartialEq, Eq, Copy, Clone, Debug)]
pub enum TickEvent {
    /// Every cell was collapsed already: nothing changed.
    Idle,
    /// The chosen cell had no option left: every cell is open again, and
    /// whatever was shown for the grid is to be cleared.
    Reset,
    /// The cell at `coord` was committed to the tile `tile` of the catalog,
    /// which is shown turned by `rotation` quarter turns.
    Collapsed { coord: SnappedCoordinate, tile: usize, rotation: usize },
}

/// The options that stay when a cell with `options` has a neighbour that
/// admits only `allowed` on the cell's side: those in both lists, in the order
/// of `allowed`.
pub open spec fn narrowed(options: Seq<usize>, allowed: Seq<usize>) -> Seq<usize> {
    allowed.filter(|t: usize| options.contains(t))
}

/// The side of a cell with neighbours `around` on which the position `at`
/// lies.  Where it lies on several, as on a lattice that wraps after one or
/// two cells, the first of up, right, down, left counts.
pub open spec fn side_toward(around: CardinalDirections, at: SnappedCoordinate) -> Option<
    Direction,
> {
    if around.up == Some(at) {
        Some(Direction::Up)
    } else if around.right == Some(at) {
        Some(Direction::Right)
    } else if around.down == Some(at) {
        Some(Direction::Down)
    } else if around.left == Some(at) {
        Some(Direction::Left)
    } else {
        None
    }
}

/// Cell `i` of `g` after cell `c` was collapsed to tile `t`.
///
/// The collapsed cell keeps `t` alone.  A cell that is not collapsed and lies
/// next to `c` keeps those of its options that `t` admits on that side.  Every
/// other cell stays as it is.
pub open spec fn cell_after_collapse(
    g: GridView,
    tiles: Seq<TileView>,
    c: int,
    t: usize,
    i: int,
) -> CellView {
    let prior = g.cells[i];
    if i == c {
        CellView { options: seq![t], coord: prior.coord, collapsed: true }
    } else if prior.collapsed {
        prior
    } else {
        match side_toward(g.neighbors_of(c), prior.coord) {
            Some(d) => CellView {
                options: narrowed(prior.options, tiles[t as int].adjacency(d)),
                coord: prior.coord,
                collapsed: false,
            },
            None => prior,
        }
    }
}

/// The grid `g` after its cell `c` was collapsed to tile `t`.
pub open spec fn after_collapse(g: GridView, tiles: Seq<TileView>, c: int, t: usize) -> GridView {
    GridView {
        width: g.width,
        height: g.height,
        wrap: g.wrap,
        cells: Seq::new(g.cells.len(), |i: int| cell_after_collapse(g, tiles, c, t, i)),
    }
}

/// The grid `g` with every cell open again.
pub open spec fn after_reset(g: GridView, tile_count: nat) -> GridView {
    GridView {
        width: g.width,
        height: g.height,
        wrap: g.wrap,
        cells: fresh_cells(g.cells, tile_count),
    }
}

/// The grid `g` after the solver acted on its cell `c`: a reset where the
/// cell has no option left, else the collapse to the option at position
/// `pick`.
pub open spec fn resolved(g: GridView, tiles: Seq<TileView>, c: int, pick: int) -> GridView {
    if g.cells[c].options.len() == 0 {
        after_reset(g, tiles.len())
    } else {
        after_collapse(g, tiles, c, g.cells[c].options[pick])
    }
}

/// What the solver reports when it acts on cell `c` of `g`.
pub open spec fn outcome(g: GridView, tiles: Seq<TileView>, c: int, pick: int) -> TickEvent {
    if g.cells[c].options.len() == 0 {
        TickEvent::Reset
    } else {
        let t = g.cells[c].options[pick];
        TickEvent::Collapsed {
            coord: g.cells[c].coord,
            tile: t,
            rotation: tiles[t as int].rotation,
        }
    }
}

/// Narrowing by one more admitted tile keeps it if it is an option, and
/// changes nothing else.
pub proof fn lemma_narrowed_push(options: Seq<usize>, allowed: Seq<usize>, t: usize)
    ensures
        narrowed(options, allowed.push(t)) == if options.contains(t) {
            narrowed(options, allowed).push(t)
        } else {
            narrowed(options, allowed)
        },
        narrowed(options, Seq::<usize>::empty()) == Seq::<usize>::empty(),
{
    reveal(Seq::filter);
    assert(allowed.push(t).drop_last() =~= allowed);
}

/// Narrowing is intersection: a tile stays exactly if it was an option and is
/// admitted.  What stays is in ascending order if the admitted tiles are.
pub proof fn lemma_narrowed(options: Seq<usize>, allowed: Seq<usize>)
    ensures
        forall|t: usize|
            #[trigger] narrowed(options, allowed).contains(t) <==> (allowed.contains(t)
                && options.contains(t)),
        narrowed(options, allowed).to_set() == options.to_set().intersect(allowed.to_set()),
        ascending(allowed) ==> ascending(narrowed(options, allowed)),
    decreases allowed.len(),
{
    let now = narrowed(options, allowed);
    if allowed.len() == 0 {
        lemma_narrowed_push(options, allowed, 0);
        assert(allowed =~= Seq::<usize>::empty());
    } else {
        let front = allowed.drop_last();
        let last = allowed.last();
        let before = narrowed(options, front);
        lemma_narrowed(options, front);
        lemma_narrowed_push(options, front, last);
        assert(front.push(last) =~= allowed);
        assert forall|t: usize| #[trigger] now.contains(t) <==> (allowed.contains(t)
            && options.contains(t)) by {
            if now.contains(t) {
                let k = choose|k: int| 0 <= k < now.len() && now[k] == t;
                if k < before.len() {
                    assert(before.contains(t));
                    let j = choose|j: int| 0 <= j < front.len() && front[j] == t;
                    assert(allowed[j] == t);
                } else {
                    assert(allowed[allowed.len() - 1] == t);
                }
            }
            if allowed.contains(t) && options.contains(t) {
                let j = choose|j: int| 0 <= j < allowed.len() && allowed[j] == t;
                if j < front.len() {
                    assert(front[j] == t);
                    assert(before.contains(t));
                    let k = choose|k: int| 0 <= k < before.len() && before[k] == t;
                    assert(now[k] == t);
                } else {
                    assert(now[now.len() - 1] == t);
                }
            }
        }
        if ascending(allowed) {
            assert(ascending(front));
            assert forall|j: int, k: int| 0 <= j < k < now.len() implies now[j] < now[k] by {
                if k >= before.len() {
                    assert(before.contains(before[j]));
                    let m = choose|m: int| 0 <= m < front.len() && front[m] == before[j];
                    assert(allowed[m] < allowed[allowed.len() - 1]);
                }
            }
        }
    }
    assert(now.to_set() =~= options.to_set().intersect(allowed.to_set()));
}

/// Whether `list` holds `t`.
fn holds(list: &Vec<usize>, t: usize) -> (r: bool)
    ensures
        r == list@.contains(t),
{
    let mut k: usize = 0;
    while k < list.len()
        invariant
            k <= list@.len(),
            forall|j: int| 0 <= j < k ==> list@[j] != t,
        decreases list@.len() - k,
    {
        if list[k] == t {
            return true;
        }
        k += 1;
    }
    false
}

/// Computes `narrowed`.
fn narrow(options: &Vec<usize>, allowed: &Vec<usize>) -> (kept: Vec<usize>)
    ensures
        kept@ == narrowed(options@, allowed@),
{
    let mut kept: Vec<usize> = Vec::new();
    let mut k: usize = 0;
    proof {
        lemma_narrowed_push(options@, allowed@.take(0), 0);
        assert(allowed@.take(0) =~= Seq::<usize>::empty());
    }
    while k < allowed.len()
        invariant
            k <= allowed@.len(),
            kept@ == narrowed(options@, allowed@.take(k as int)),
        decreases allowed@.len() - k,
    {
        let t: usize = allowed[k];
        proof {
            lemma_narrowed_push(options@, allowed@.take(k as int), t);
            assert(allowed@.take(k as int).push(t) =~= allowed@.take(k + 1));
        }
        if holds(options, t) {
            kept.push(t);
        }
        k += 1;
    }
    assert(allowed@.take(k as int) =~= allowed@);
    kept
}

/// Whether `slot` holds the position `at`.
fn is_at(slot: Option<SnappedCoordinate>, at: SnappedCoordinate) -> (r: bool)
    ensures
        r == (slot == Some(at)),
{
    match slot {
        Some(p) => p.x == at.x && p.y == at.y,
        None => false,
    }
}

/// Computes `side_toward`.
fn facing(around: &CardinalDirections, at: SnappedCoordinate) -> (side: Option<Direction>)
    ensures
        side == side_toward(*around, at),
{
    if is_at(around.up, at) {
        Some(Direction::Up)
    } else if is_at(around.right, at) {
        Some(Direction::Right)
    } else if is_at(around.down, at) {
        Some(Direction::Down)
    } else if is_at(around.left, at) {
        Some(Direction::Left)
    } else {
        None
    }
}

/// `side_toward` names a side on which the position lies, and names none only
/// where the position is none of the four neighbours.
pub proof fn lemma_side_toward(around: CardinalDirections, at: SnappedCoordinate)
    ensures
        match side_toward(around, at) {
            Some(d) => around.toward(d) == Some(at),
            None => forall|d: Direction| #[trigger] around.toward(d) != Some(at),
        },
{
    assert forall|d: Direction| side_toward(around, at) is None implies #[trigger] around.toward(d)
        != Some(at) by {
        match d {
            Direction::Up => {},
            Direction::Right => {},
            Direction::Down => {},
            Direction::Left => {},
        }
    }
}

/// A collapse reaches one hop and no further.  After cell `c` is collapsed
/// to tile `t`, a cell next to `c` that is not collapsed holds exactly the
/// tiles that it held before and that `t` admits on its side; every other
/// cell but `c` itself is as it was.
pub proof fn lemma_collapse_narrows_neighbors(
    g: GridView,
    tiles: Seq<TileView>,
    c: int,
    t: usize,
    i: int,
)
    requires
        0 <= c < g.cells.len(),
        0 <= i < g.cells.len(),
        i != c,
    ensures
        ({
            let before = g.cells[i];
            let after = after_collapse(g, tiles, c, t).cells[i];
            match side_toward(g.neighbors_of(c), before.coord) {
                Some(d) => if before.collapsed {
                    after == before
                } else {
                    &&& after.options.to_set() == before.options.to_set().intersect(
                        tiles[t as int].adjacency(d).to_set(),
                    )
                    &&& after.coord == before.coord
                    &&& !after.collapsed
                },
                None => after == before,
            }
        }),
{
    let before = g.cells[i];
    match side_toward(g.neighbors_of(c), before.coord) {
        Some(d) => {
            lemma_narrowed(before.options, tiles[t as int].adjacency(d));
        },
        None => {},
    }
}

/// Collapsing a cell to one of its options keeps the invariant of the grid.
pub proof fn lemma_collapse_keeps_invariant(g: GridView, tiles: Seq<TileView>, c: int, t: usize)
    requires
        is_catalog(tiles),
        g.well_formed(tiles.len()),
        0 <= c < g.cells.len(),
        g.cells[c].options.contains(t),
    ensures
        after_collapse(g, tiles, c, t).well_formed(tiles.len()),
{
    let next = after_collapse(g, tiles, c, t);
    assert(g.cells[c].options.contains(t));
    let k = choose|k: int| 0 <= k < g.cells[c].options.len() && g.cells[c].options[k] == t;
    assert(cell_ok(g.cells[c], tiles.len()));
    assert(t < tiles.len());
    assert forall|i: int| 0 <= i < next.cells.len() implies (#[trigger] next.cells[i]).coord
        == next.position(i) by {
        assert(g.cells[i].coord == g.position(i));
    }
    assert forall|i: int| 0 <= i < next.cells.len() implies cell_ok(
        #[trigger] next.cells[i],
        tiles.len(),
    ) by {
        let prior = g.cells[i];
        assert(cell_ok(prior, tiles.len()));
        if i != c && !prior.collapsed {
            match side_toward(g.neighbors_of(c), prior.coord) {
                Some(d) => {
                    let allowed = tiles[t as int].adjacency(d);
                    lemma_catalog_adjacency(tiles, t as int, d);
                    lemma_narrowed(prior.options, allowed);
                    let kept = narrowed(prior.options, allowed);
                    assert forall|k: int| 0 <= k < kept.len() implies (#[trigger] kept[k])
                        < tiles.len() by {
                        assert(kept.contains(kept[k]));
                        assert(allowed.contains(kept[k]));
                        let m = choose|m: int| 0 <= m < allowed.len() && allowed[m] == kept[k];
                        assert(allowed[m] < tiles.len());
                    }
                },
                None => {},
            }
        }
    }
}

/// A reset leaves a grid that keeps its invariant.
pub proof fn lemma_reset_keeps_invariant(g: GridView, tile_count: nat)
    requires
        g.laid_out(),
        tile_count <= usize::MAX,
    ensures
        after_reset(g, tile_count).well_formed(tile_count),
{
    let next = after_reset(g, tile_count);
    assert forall|i: int| 0 <= i < next.cells.len() implies (#[trigger] next.cells[i]).coord
        == next.position(i) by {
        assert(g.cells[i].coord == g.position(i));
    }
    assert forall|i: int| 0 <= i < next.cells.len() implies cell_ok(
        #[trigger] next.cells[i],
        tile_count,
    ) by {
        lemma_open_cell_ok(g.cells[i].coord, tile_count);
    }
}

impl Grid {
    /// The cells to choose from: the indices, in ascending order, of the
    /// cells that are not collapsed and have the fewest options among those.
    /// The list is empty exactly if every cell is collapsed.
    pub fn frontier(&self) -> (chosen: Vec<usize>)
        ensures
            ascending(chosen@),
            forall|k: int|
                0 <= k < chosen@.len() ==> on_frontier(self@.cells, (#[trigger] chosen@[k]) as int),
            forall|i: int| #[trigger] on_frontier(self@.cells, i) ==> chosen@.contains(i as usize),
            (chosen@.len() == 0) == all_collapsed(self@.cells),
    {
        let ghost cells = self@.cells;
        let count: usize = self.cells.len();
        let mut least: Option<usize> = None;
        let mut i: usize = 0;
        while i < count
            invariant
                i <= count,
                count == self.cells@.len(),
                cells == self@.cells,
                match least {
                    None => forall|j: int| 0 <= j < i ==> (#[trigger] cells[j]).collapsed,
                    Some(m) => {
                        &&& exists|j: int|
                            0 <= j < i && !(#[trigger] cells[j]).collapsed && cells[j].options.len()
                                == m
                        &&& forall|j: int|
                            0 <= j < i && !(#[trigger] cells[j]).collapsed ==> m
                                <= cells[j].options.len()
                    },
                },
            decreases count - i,
        {
            let cell = &self.cells[i];
            assert(cells[i as int] == cell@);
            if !cell.collapsed {
                let n: usize = cell.options.len();
                match least {
                    None => {
                        least = Some(n);
                    },
                    Some(m) => {
                        if n < m {
                            least = Some(n);
                        }
                    },
                }
            }
            i += 1;
        }
        let mut chosen: Vec<usize> = Vec::new();
        match least {
            None => {
                assert(all_collapsed(cells));
            },
            Some(m) => {
                let ghost least_at = choose|j: int|
                    0 <= j < count && !(#[trigger] cells[j]).collapsed && cells[j].options.len()
                        == m;
                let mut i: usize = 0;
                while i < count
                    invariant
                        i <= count,
                        count == self.cells@.len(),
                        cells == self@.cells,
                        0 <= least_at < count,
                        !cells[least_at].collapsed,
                        cells[least_at].options.len() == m,
                        forall|j: int|
                            0 <= j < count && !(#[trigger] cells[j]).collapsed ==> m
                                <= cells[j].options.len(),
                        ascending(chosen@),
                        forall|k: int|
                            0 <= k < chosen@.len() ==> (#[trigger] chosen@[k]) < i && on_frontier(
                                cells,
                                chosen@[k] as int,
                            ),
                        forall|j: int|
                            0 <= j < i && #[trigger] on_frontier(cells, j) ==> chosen@.contains(
                                j as usize,
                            ),
                    decreases count - i,
                {
                    let cell = &self.cells[i];
                    assert(cells[i as int] == cell@);
                    if !cell.collapsed && cell.options.len() == m {
                        let ghost before = chosen@;
                        chosen.push(i);
                        assert(on_frontier(cells, i as int));
                        assert forall|j: int|
                            0 <= j < i + 1 && #[trigger] on_frontier(cells, j) implies chosen@.contains(
                            j as usize,
                        ) by {
                            if j < i {
                                assert(before.contains(j as usize));
                                let k = choose|k: int|
                                    0 <= k < before.len() && before[k] == j as usize;
                                assert(chosen@[k] == j as usize);
                            } else {
                                assert(chosen@[chosen@.len() - 1] == j as usize);
                            }
                        }
                    } else {
                        assert(!on_frontier(cells, i as int)) by {
                            if !cell.collapsed {
                                assert(m < cells[i as int].options.len());
                            }
                        }
                    }
                    i += 1;
                }
                proof {
                    assert(on_frontier(cells, least_at));
                    assert(chosen@.contains(least_at as usize));
                }
            },
        }
        chosen
    }

    /// Opens every cell again: all tiles of `catalog` are possible everywhere
    /// and no cell is collapsed.
    pub fn reset(&mut self, catalog: &TileCatalog)
        ensures
            final(self)@ == after_reset(old(self)@, catalog@.len()),
            forall|i: int|
                0 <= i < final(self)@.cells.len() ==> (#[trigger] final(self)@.cells[i]).options
                    == all_tiles(catalog@.len()) && !final(self)@.cells[i].collapsed,
            old(self)@.laid_out() ==> final(self).well_formed(catalog@.len()),
    {
        let ghost before = self@;
        let full = every_tile(catalog.len());
        proof {
            if before.laid_out() {
                lemma_reset_keeps_invariant(before, catalog@.len());
            }
        }
        let count: usize = self.cells.len();
        let mut i: usize = 0;
        while i < count
            invariant
                i <= count,
                count == self.cells@.len(),
                count == before.cells.len(),
                self.width == before.width,
                self.height == before.height,
                self.wrap == before.wrap,
                full@ == all_tiles(catalog@.len()),
                forall|j: int|
                    0 <= j < i ==> (#[trigger] self.cells@[j])@ == open_cell(
                        before.cells[j].coord,
                        catalog@.len(),
                    ),
                forall|j: int| i <= j < count ==> (#[trigger] self.cells@[j])@ == before.cells[j],
            decreases count - i,
        {
            let coord = self.cells[i].coord;
            let options = full.clone();
            assert(options@ =~= full@);
            self.cells.set(i, Cell { options, coord, collapsed: false });
            i += 1;
        }
        assert(self@ =~~= after_reset(before, catalog@.len()));
    }

    /// Commits the cell at index `cell` to `tile` and narrows its neighbours.
    ///
    /// Each cell that is not collapsed and lies at one of the four positions
    /// next to `cell` keeps those of its options that `tile` admits on that
    /// side: no cell further away is touched.  A neighbour may be left with no
    /// option at all; that shows only when it is chosen in a later tick.
    pub fn collapse(&mut self, catalog: &TileCatalog, cell: usize, tile: usize) -> (event:
        TickEvent)
        requires
            catalog.well_formed(),
            old(self).well_formed(catalog@.len()),
            cell < old(self)@.cells.len(),
            old(self)@.cells[cell as int].options.contains(tile),
        ensures
            final(self)@ == after_collapse(old(self)@, catalog@, cell as int, tile),
            final(self).well_formed(catalog@.len()),
            !old(self)@.cells[cell as int].collapsed && roomy(old(self)@) && settled(
                old(self)@,
                catalog@,
            ) ==> settled(final(self)@, catalog@),
            event == (TickEvent::Collapsed {
                coord: old(self)@.cells[cell as int].coord,
                tile,
                rotation: catalog@[tile as int].rotation,
            }),
    {
        let ghost before = self@;
        let ghost tiles = catalog@;
        proof {
            if !before.cells[cell as int].collapsed && roomy(before) && settled(before, tiles) {
                lemma_collapse_keeps_settled(before, tiles, cell as int, tile);
            }
            lemma_collapse_keeps_invariant(before, tiles, cell as int, tile);
            let k = choose|k: int|
                0 <= k < before.cells[cell as int].options.len()
                    && before.cells[cell as int].options[k] == tile;
            assert(cell_ok(before.cells[cell as int], tiles.len()));
        }
        let around = self.neighbors_of(cell);
        let center = self.cells[cell].coord;
        let chosen = catalog.tile(tile);
        let count: usize = self.cells.len();
        let mut i: usize = 0;
        while i < count
            invariant
                i <= count,
                count == self.cells@.len(),
                count == before.cells.len(),
                cell < count,
                tile < tiles.len(),
                tiles == catalog@,
                chosen@ == tiles[tile as int],
                self.width == before.width,
                self.height == before.height,
                self.wrap == before.wrap,
                around == before.neighbors_of(cell as int),
                forall|j: int|
                    0 <= j < i ==> (#[trigger] self.cells@[j])@ == cell_after_collapse(
                        before,
                        tiles,
                        cell as int,
                        tile,
                        j,
                    ),
                forall|j: int| i <= j < count ==> (#[trigger] self.cells@[j])@ == before.cells[j],
            decreases count - i,
        {
            let coord = self.cells[i].coord;
            if i == cell {
                let mut options: Vec<usize> = Vec::new();
                options.push(tile);
                assert(options@ =~= seq![tile]);
                self.cells.set(i, Cell { options, coord, collapsed: true });
            } else if !self.cells[i].collapsed {
                match facing(&around, coord) {
                    Some(d) => {
                        let options = narrow(&self.cells[i].options, chosen.adjacency(d));
                        self.cells.set(i, Cell { options, coord, collapsed: false });
                    },
                    None => {},
                }
            }
            i += 1;
        }
        assert(self@ =~~= after_collapse(before, tiles, cell as int, tile));
        TickEvent::Collapsed { coord: center, tile, rotation: chosen.rotation }
    }

    /// Acts on the cell at index `cell`.
    ///
    /// A cell with no option left is a contradiction: the whole grid is reset
    /// and nothing else happens.  Otherwise the cell is collapsed to the
    /// option at position `pick` of its list and its neighbours are narrowed.
    pub fn resolve(&mut self, catalog: &TileCatalog, cell: usize, pick: usize) -> (event: TickEvent)
        requires
            catalog.well_formed(),
            old(self).well_formed(catalog@.len()),
            cell < old(self)@.cells.len(),
            !old(self)@.cells[cell as int].collapsed,
            old(self)@.cells[cell as int].options.len() > 0 ==> pick < old(
                self,
            )@.cells[cell as int].options.len(),
        ensures
            final(self)@ == resolved(old(self)@, catalog@, cell as int, pick as int),
            event == outcome(old(self)@, catalog@, cell as int, pick as int),
            final(self).well_formed(catalog@.len()),
            roomy(old(self)@) && settled(old(self)@, catalog@) ==> settled(final(self)@, catalog@),
    {
        proof {
            if roomy(self@) && settled(self@, catalog@) {
                lemma_resolved_keeps_settled(self@, catalog@, cell as int, pick as int);
            }
        }
        assert(self@.cells[cell as int] == self.cells@[cell as int]@);
        if self.cells[cell].options.len() == 0 {
            self.reset(catalog);
            TickEvent::Reset
        } else {
            let tile: usize = self.cells[cell].options[pick];
            assert(self@.cells[cell as int].options[pick as int] == tile);
            self.collapse(catalog, cell, tile)
        }
    }

    /// One tick of the solver.
    ///
    /// Where every cell is collapsed nothing happens.  Otherwise one cell of
    /// the frontier is drawn, each with the same chance, and acted on: a reset
    /// if it has no option left, else a collapse to one of its options, each
    /// with the same chance again.
    ///
    /// The contract holds whatever is drawn.  It cannot say that the draws are
    /// fair; that rests on the generator.
    pub fn tick(&mut self, catalog: &TileCatalog) -> (event: TickEvent)
        requires
            catalog.well_formed(),
            old(self).well_formed(catalog@.len()),
        ensures
            final(self).well_formed(catalog@.len()),
            roomy(old(self)@) && settled(old(self)@, catalog@) ==> settled(final(self)@, catalog@),
            all_collapsed(old(self)@.cells) ==> final(self)@ == old(self)@ && event
                == TickEvent::Idle,
            !all_collapsed(old(self)@.cells) ==> exists|cell: int, pick: int|
                {
                    &&& on_frontier(old(self)@.cells, cell)
                    &&& old(self)@.cells[cell].options.len() > 0 ==> 0 <= pick < old(
                        self,
                    )@.cells[cell].options.len()
                    &&& final(self)@ == #[trigger] resolved(old(self)@, catalog@, cell, pick)
                    &&& event == outcome(old(self)@, catalog@, cell, pick)
                },
    {
        let ghost before = self@;
        let frontier = self.frontier();
        if frontier.len() == 0 {
            return TickEvent::Idle;
        }
        let mut rng = rand::thread_rng();
        let cell: usize = frontier[draw_below(&mut rng, frontier.len())];
        assert(on_frontier(before.cells, cell as int));
        assert(before.cells[cell as int] == self.cells@[cell as int]@);
        let open: usize = self.cells[cell].options.len();
        let pick: usize = if open == 0 {
            0
        } else {
            draw_below(&mut rng, open)
        };
        let event = self.resolve(catalog, cell, pick);
        assert(self@ == resolved(before, catalog@, cell as int, pick as int));
        event
    }
}

} // verus!
