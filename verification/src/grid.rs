//! The grid: one cell for every position of the lattice, each holding the
//! tiles that may still be placed there.

use crate::catalog::TileCatalog;
use crate::lattice::{neighbors, neighbors_on, CardinalDirections, SnappedCoordinate, WrapPolicy};
use crate::tiling::{lemma_open_grid_is_settled, settled};
use vstd::prelude::*;

verus! {

/// The state of one position of the grid.
#[derive(Debug, PartialEq, Eq)]
pub struct Cell {
    /// The tiles still possible here, as catalog indices in ascending order.
    pub options: Vec<usize>,
    pub coord: SnappedCoordinate,
    /// Set once the cell has been committed to the one tile left in `options`.
    pub collapsed: bool,
}

/// What a cell is, as plain mathematical values.
#[verifier::ext_equal]
pub struct CellView {
    pub options: Seq<usize>,
    pub coord: SnappedCoordinate,
    pub collapsed: bool,
}

impl View for Cell {
    type V = CellView;

    open spec fn view(&self) -> CellView {
        CellView { options: self.options@, coord: self.coord, collapsed: self.collapsed }
    }
}

impl Clone for Cell {
    fn clone(&self) -> (cell: Cell)
        ensures
            cell@ == self@,
    {
        let cell = Cell {
            options: self.options.clone(),
            coord: self.coord,
            collapsed: self.collapsed,
        };
        assert(cell@.options =~= self@.options);
        cell
    }
}

/// The views of a list of cells.
pub open spec fn cell_views(cells: Seq<Cell>) -> Seq<CellView> {
    cells.map_values(|c: Cell| c@)
}

/// A lattice of `width` by `height` cells and the edges along which it wraps.
///
/// The cell at `(x, y)` stands at index `x * height + y` of `cells`.
#[derive(Debug, PartialEq, Eq)]
pub struct Grid {
    pub width: usize,
    pub height: usize,
    pub wrap: WrapPolicy,
    pub cells: Vec<Cell>,
}

/// What a grid is, as plain mathematical values.
#[verifier::ext_equal]
pub struct GridView {
    pub width: usize,
    pub height: usize,
    pub wrap: WrapPolicy,
    pub cells: Seq<CellView>,
}

impl View for Grid {
    type V = GridView;

    open spec fn view(&self) -> GridView {
        GridView {
            width: self.width,
            height: self.height,
            wrap: self.wrap,
            cells: cell_views(self.cells@),
        }
    }
}

impl Clone for Grid {
    fn clone(&self) -> (grid: Grid)
        ensures
            grid@ == self@,
    {
        let grid = Grid {
            width: self.width,
            height: self.height,
            wrap: self.wrap,
            cells: self.cells.clone(),
        };
        assert(grid@.cells =~= self@.cells);
        grid
    }
}

/// Every tile of a catalog of `count` tiles, in ascending order.
pub open spec fn all_tiles(count: nat) -> Seq<usize> {
    Seq::new(count, |i: int| i as usize)
}

/// Whether `s` is strictly ascending, which rules out that a value occurs twice.
pub open spec fn ascending(s: Seq<usize>) -> bool {
    forall|j: int, k: int| 0 <= j < k < s.len() ==> s[j] < s[k]
}

/// The invariant of a cell over a catalog of `tile_count` tiles: its options
/// are tiles of the catalog, none of them twice, and a collapsed cell has
/// exactly one.
pub open spec fn cell_ok(c: CellView, tile_count: nat) -> bool {
    &&& ascending(c.options)
    &&& forall|k: int| 0 <= k < c.options.len() ==> (#[trigger] c.options[k]) < tile_count
    &&& c.collapsed ==> c.options.len() == 1
}

/// A cell at `coord` with every tile still possible.
pub open spec fn open_cell(coord: SnappedCoordinate, tile_count: nat) -> CellView {
    CellView { options: all_tiles(tile_count), coord, collapsed: false }
}

/// The cells given, each back to the state in which every tile is possible.
pub open spec fn fresh_cells(cells: Seq<CellView>, tile_count: nat) -> Seq<CellView> {
    Seq::new(cells.len(), |i: int| open_cell(cells[i].coord, tile_count))
}

/// Whether no cell is left to collapse.
pub open spec fn all_collapsed(cells: Seq<CellView>) -> bool {
    forall|i: int| 0 <= i < cells.len() ==> (#[trigger] cells[i]).collapsed
}

/// Whether cell `i` is one of the cells to choose from: it is not collapsed,
/// and no cell that is not collapsed has fewer options.
pub open spec fn on_frontier(cells: Seq<CellView>, i: int) -> bool {
    &&& 0 <= i < cells.len()
    &&& !cells[i].collapsed
    &&& forall|j: int|
        0 <= j < cells.len() && !(#[trigger] cells[j]).collapsed ==> cells[i].options.len()
            <= cells[j].options.len()
}

impl GridView {
    /// The position of the cell at index `i`.
    pub open spec fn position(self, i: int) -> SnappedCoordinate {
        SnappedCoordinate {
            x: (i / self.height as int) as usize,
            y: (i % self.height as int) as usize,
        }
    }

    /// Whether the grid holds exactly one cell for every position of its
    /// lattice, each at its own index.
    pub open spec fn laid_out(self) -> bool {
        &&& self.width > 0
        &&& self.height > 0
        &&& self.cells.len() == self.width * self.height
        &&& forall|i: int|
            0 <= i < self.cells.len() ==> (#[trigger] self.cells[i]).coord == self.position(i)
    }

    /// The invariant of a grid over a catalog of `tile_count` tiles: it holds
    /// exactly one cell for every position, and every cell keeps its own
    /// invariant.
    pub open spec fn well_formed(self, tile_count: nat) -> bool {
        &&& self.laid_out()
        &&& forall|i: int|
            0 <= i < self.cells.len() ==> cell_ok(#[trigger] self.cells[i], tile_count)
    }

    /// The neighbours of the cell at index `i`.
    pub open spec fn neighbors_of(self, i: int) -> CardinalDirections {
        neighbors_on(
            self.wrap,
            self.cells[i].coord.x,
            self.cells[i].coord.y,
            (self.width - 1) as usize,
            (self.height - 1) as usize,
        )
    }
}

/// In a grid that is laid out every cell lies on the lattice, at the index
/// that its position gives.
pub proof fn lemma_position(g: GridView, i: int)
    requires
        g.laid_out(),
        0 <= i < g.cells.len(),
    ensures
        g.cells[i].coord.x < g.width,
        g.cells[i].coord.y < g.height,
        i == g.cells[i].coord.x * g.height + g.cells[i].coord.y,
{
    let h = g.height as int;
    let w = g.width as int;
    vstd::arithmetic::div_mod::lemma_fundamental_div_mod(i, h);
    vstd::arithmetic::div_mod::lemma_mod_bound(i, h);
    vstd::arithmetic::div_mod::lemma_div_pos_is_pos(i, h);
    assert(i / h < w) by {
        if i / h >= w {
            assert(h * (i / h) >= h * w) by (nonlinear_arith)
                requires
                    i / h >= w,
                    h > 0,
            ;
            assert(h * w == w * h) by (nonlinear_arith);
        }
    }
    assert(h * (i / h) == (i / h) * h) by (nonlinear_arith);
    assert(g.cells[i].coord == g.position(i));
}

/// In a grid that is laid out every position of the lattice has its cell, at
/// the index `x * height + y`.
pub proof fn lemma_index(g: GridView, coord: SnappedCoordinate)
    requires
        g.laid_out(),
        coord.x < g.width,
        coord.y < g.height,
    ensures
        0 <= coord.x * g.height <= coord.x * g.height + coord.y < g.cells.len(),
        g.cells[coord.x * g.height + coord.y].coord == coord,
{
    let h = g.height as int;
    let x = coord.x as int;
    let y = coord.y as int;
    let i = x * h + y;
    assert(x * h >= 0 && (x + 1) * h <= g.width * h) by (nonlinear_arith)
        requires
            0 <= x < g.width,
            h > 0,
    ;
    assert((x + 1) * h == x * h + h) by (nonlinear_arith);
    vstd::arithmetic::div_mod::lemma_fundamental_div_mod_converse(i, h, x, y);
    assert(g.cells[i].coord == g.position(i));
}

/// In a grid that is laid out no two cells share a position.
pub proof fn lemma_positions_distinct(g: GridView, i: int, j: int)
    requires
        g.laid_out(),
        0 <= i < g.cells.len(),
        0 <= j < g.cells.len(),
        g.cells[i].coord == g.cells[j].coord,
    ensures
        i == j,
{
    lemma_position(g, i);
    lemma_position(g, j);
}

/// A vector that holds `all_tiles(count)`.
pub fn every_tile(count: usize) -> (tiles: Vec<usize>)
    ensures
        tiles@ == all_tiles(count as nat),
{
    let mut tiles: Vec<usize> = Vec::new();
    let mut i: usize = 0;
    while i < count
        invariant
            i <= count,
            tiles@ == all_tiles(i as nat),
        decreases count - i,
    {
        tiles.push(i);
        assert(tiles@ =~= all_tiles((i + 1) as nat));
        i += 1;
    }
    tiles
}

/// Decides whether `list` is strictly ascending with every entry below `bound`.
pub fn is_ascending_below(list: &Vec<usize>, bound: usize) -> (ok: bool)
    ensures
        ok == (ascending(list@) && forall|k: int|
            0 <= k < list@.len() ==> (#[trigger] list@[k]) < bound),
{
    let mut k: usize = 0;
    while k < list.len()
        invariant
            k <= list@.len(),
            forall|j: int| 0 <= j < k ==> (#[trigger] list@[j]) < bound,
            forall|j: int| 0 < j < k ==> list@[j - 1] < #[trigger] list@[j],
        decreases list@.len() - k,
    {
        if list[k] >= bound || (k > 0 && list[k - 1] >= list[k]) {
            assert(!(ascending(list@) && forall|j: int|
                0 <= j < list@.len() ==> (#[trigger] list@[j]) < bound)) by {
                if list@[k as int] < bound {
                    assert(!(list@[k - 1] < list@[k as int]));
                }
            }
            return false;
        }
        k += 1;
    }
    proof {
        lemma_ascending_by_steps(list@);
    }
    true
}

/// A list whose every entry is above the one before it is strictly ascending.
pub proof fn lemma_ascending_by_steps(s: Seq<usize>)
    requires
        forall|j: int| 0 < j < s.len() ==> s[j - 1] < #[trigger] s[j],
    ensures
        ascending(s),
{
    assert forall|j: int, k: int| 0 <= j < k < s.len() implies s[j] < s[k] by {
        lemma_ascending_between(s, j, k);
    }
}

proof fn lemma_ascending_between(s: Seq<usize>, j: int, k: int)
    requires
        forall|i: int| 0 < i < s.len() ==> s[i - 1] < #[trigger] s[i],
        0 <= j < k < s.len(),
    ensures
        s[j] < s[k],
    decreases k - j,
{
    if j + 1 < k {
        lemma_ascending_between(s, j, k - 1);
    }
    assert(s[k - 1] < s[k]);
}

/// What the invariant says of each cell: its options are tiles of the
/// catalog, no tile is among them twice, and a collapsed cell has exactly one.
pub proof fn lemma_cells_of_well_formed(g: GridView, tile_count: nat, i: int)
    requires
        g.well_formed(tile_count),
        0 <= i < g.cells.len(),
    ensures
        g.cells[i].options.to_set().subset_of(all_tiles(tile_count).to_set()),
        g.cells[i].options.no_duplicates(),
        g.cells[i].collapsed ==> g.cells[i].options.len() == 1,
{
    let options = g.cells[i].options;
    assert(cell_ok(g.cells[i], tile_count));
    let every = all_tiles(tile_count);
    assert forall|t: usize| options.to_set().contains(t) implies every.to_set().contains(t) by {
        let k = choose|k: int| 0 <= k < options.len() && options[k] == t;
        assert(options[k] < tile_count);
        assert(every[t as int] == t);
    }
    assert forall|j: int, k: int| 0 <= j < options.len() && 0 <= k < options.len() && j
        != k implies options[j] != options[k] by {
        if j < k {
            assert(options[j] < options[k]);
        } else {
            assert(options[k] < options[j]);
        }
    }
}

/// A fresh list of options is a valid one.
pub proof fn lemma_open_cell_ok(coord: SnappedCoordinate, tile_count: nat)
    requires
        tile_count <= usize::MAX,
    ensures
        cell_ok(open_cell(coord, tile_count), tile_count),
{
}

impl Grid {
    /// Whether this grid keeps its invariant over a catalog of `tile_count` tiles.
    pub open spec fn well_formed(&self, tile_count: nat) -> bool {
        self@.well_formed(tile_count)
    }

    /// A grid of `width` by `height` cells in which every tile of `catalog`
    /// is possible everywhere.
    pub fn new(width: usize, height: usize, wrap: WrapPolicy, catalog: &TileCatalog) -> (grid: Grid)
        requires
            width > 0,
            height > 0,
            width * height <= usize::MAX,
        ensures
            grid@.width == width,
            grid@.height == height,
            grid@.wrap == wrap,
            grid@.cells.len() == width * height,
            forall|i: int|
                0 <= i < width * height ==> (#[trigger] grid@.cells[i]) == open_cell(
                    grid@.position(i),
                    catalog@.len(),
                ),
            grid.well_formed(catalog@.len()),
            settled(grid@, catalog@),
    {
        let count: usize = catalog.len();
        let full = every_tile(count);
        let mut cells: Vec<Cell> = Vec::new();
        let mut x: usize = 0;
        while x < width
            invariant
                x <= width,
                height > 0,
                width * height <= usize::MAX,
                full@ == all_tiles(count as nat),
                cells@.len() == x * height,
                forall|i: int|
                    0 <= i < cells@.len() ==> (#[trigger] cells@[i])@ == open_cell(
                        SnappedCoordinate {
                            x: (i / height as int) as usize,
                            y: (i % height as int) as usize,
                        },
                        count as nat,
                    ),
            decreases width - x,
        {
            let mut y: usize = 0;
            while y < height
                invariant
                    x < width,
                    y <= height,
                    height > 0,
                    width * height <= usize::MAX,
                    full@ == all_tiles(count as nat),
                    cells@.len() == x * height + y,
                    forall|i: int|
                        0 <= i < cells@.len() ==> (#[trigger] cells@[i])@ == open_cell(
                            SnappedCoordinate {
                                x: (i / height as int) as usize,
                                y: (i % height as int) as usize,
                            },
                            count as nat,
                        ),
                decreases height - y,
            {
                proof {
                    let i = (x * height + y) as int;
                    vstd::arithmetic::div_mod::lemma_fundamental_div_mod_converse(
                        i,
                        height as int,
                        x as int,
                        y as int,
                    );
                    assert((x + 1) * height <= width * height) by (nonlinear_arith)
                        requires
                            x < width,
                    ;
                    assert((x + 1) * height == x * height + height) by (nonlinear_arith);
                }
                let options = full.clone();
                assert(options@ =~= full@);
                cells.push(Cell { options, coord: SnappedCoordinate { x, y }, collapsed: false });
                y += 1;
            }
            assert((x + 1) * height == x * height + height) by (nonlinear_arith);
            x += 1;
        }
        assert(cells@.len() == width * height);
        let grid = Grid { width, height, wrap, cells };
        proof {
            assert forall|i: int| 0 <= i < width * height implies (#[trigger] grid@.cells[i])
                == open_cell(grid@.position(i), catalog@.len()) by {
                assert(grid@.cells[i] == grid.cells@[i]@);
            }
            assert forall|i: int| 0 <= i < grid@.cells.len() implies cell_ok(
                #[trigger] grid@.cells[i],
                catalog@.len(),
            ) by {
                lemma_open_cell_ok(grid@.position(i), catalog@.len());
            }
            lemma_open_grid_is_settled(grid@, catalog@);
        }
        grid
    }

    /// The number of cells.
    pub fn len(&self) -> (n: usize)
        ensures
            n == self@.cells.len(),
    {
        self.cells.len()
    }

    /// The cell at index `i`.
    pub fn cell(&self, i: usize) -> (cell: &Cell)
        requires
            i < self@.cells.len(),
        ensures
            cell@ == self@.cells[i as int],
    {
        &self.cells[i]
    }

    /// The index of the cell at `coord`.
    pub fn index_of(&self, coord: SnappedCoordinate) -> (i: usize)
        requires
            self@.laid_out(),
            coord.x < self@.width,
            coord.y < self@.height,
        ensures
            i == coord.x * self@.height + coord.y,
            i < self@.cells.len(),
            self@.cells[i as int].coord == coord,
    {
        let count: usize = self.cells.len();
        proof {
            lemma_index(self@, coord);
            assert(coord.x * self.height + coord.y < count);
        }
        coord.x * self.height + coord.y
    }

    /// The cell at `coord`.
    pub fn cell_at(&self, coord: SnappedCoordinate) -> (cell: &Cell)
        requires
            self@.laid_out(),
            coord.x < self@.width,
            coord.y < self@.height,
        ensures
            cell@ == self@.cells[coord.x * self@.height + coord.y],
            cell@.coord == coord,
    {
        let i: usize = self.index_of(coord);
        assert(self@.cells[i as int] == self.cells@[i as int]@);
        &self.cells[i]
    }

    /// The neighbours of the cell at index `i` under the grid's wrap policy.
    pub fn neighbors_of(&self, i: usize) -> (directions: CardinalDirections)
        requires
            self@.laid_out(),
            i < self@.cells.len(),
        ensures
            directions == self@.neighbors_of(i as int),
    {
        proof {
            lemma_position(self@, i as int);
            assert(self@.cells[i as int] == self.cells@[i as int]@);
        }
        let coord = self.cells[i].coord;
        neighbors(self.wrap, coord.x, coord.y, self.width - 1, self.height - 1)
    }

    /// Decides whether this grid keeps its invariant over a catalog of
    /// `tile_count` tiles.
    pub fn is_well_formed(&self, tile_count: usize) -> (ok: bool)
        ensures
            ok == self.well_formed(tile_count as nat),
    {
        if self.width == 0 || self.height == 0 {
            return false;
        }
        let count: usize = self.cells.len();
        let fits = match self.width.checked_mul(self.height) {
            Some(area) => area == count,
            None => false,
        };
        if !fits {
            return false;
        }
        let mut i: usize = 0;
        while i < count
            invariant
                i <= count,
                count == self.cells@.len(),
                self.height > 0,
                forall|j: int|
                    0 <= j < i ==> (#[trigger] self@.cells[j]).coord == self@.position(j) && cell_ok(
                        self@.cells[j],
                        tile_count as nat,
                    ),
            decreases count - i,
        {
            let cell = &self.cells[i];
            assert(self@.cells[i as int] == cell@);
            let placed = cell.coord.x == i / self.height && cell.coord.y == i % self.height;
            if !placed || !is_ascending_below(&cell.options, tile_count) || (cell.collapsed
                && cell.options.len() != 1) {
                return false;
            }
            i += 1;
        }
        true
    }

    /// Whether every cell is collapsed.
    pub fn is_complete(&self) -> (done: bool)
        ensures
            done == all_collapsed(self@.cells),
    {
        let mut i: usize = 0;
        while i < self.cells.len()
            invariant
                i <= self.cells@.len(),
                forall|j: int| 0 <= j < i ==> (#[trigger] self@.cells[j]).collapsed,
            decreases self.cells@.len() - i,
        {
            if !self.cells[i].collapsed {
                assert(!self@.cells[i as int].collapsed);
                return false;
            }
            i += 1;
        }
        true
    }
}

} // verus!
