//! Tiles: an image, a rotation, four edge signatures, and for each side the
//! tiles that may be placed next to it.

use crate::direction::Direction;
use crate::signature::{chars_fit, fits, signature_chars};
use vstd::prelude::*;

verus! {

/// One entry of the catalog.
///
/// `image` is a key that only the host resolves to something it can draw.
/// `edges` lists the signatures of the sides in the order up, right, down,
/// left.  The four lists `up`, `right`, `down`, `left` hold the catalog indices
/// of the tiles that may lie in that direction.
#[derive(Debug, PartialEq, Eq)]
pub struct Tile {
    pub image: usize,
    /// Quarter turns, 0 to 3.
    pub rotation: usize,
    pub edges: Vec<String>,
    pub up: Vec<usize>,
    pub left: Vec<usize>,
    pub down: Vec<usize>,
    pub right: Vec<usize>,
}

/// What a tile is, as plain mathematical values.
#[verifier::ext_equal]
pub struct TileView {
    pub image: usize,
    pub rotation: usize,
    pub edges: Seq<Seq<char>>,
    pub up: Seq<usize>,
    pub right: Seq<usize>,
    pub down: Seq<usize>,
    pub left: Seq<usize>,
}

impl TileView {
    /// The signature of the side `d`.
    pub open spec fn edge(self, d: Direction) -> Seq<char> {
        self.edges[d.index() as int]
    }

    /// The tiles that may lie in direction `d` of this one.
    pub open spec fn adjacency(self, d: Direction) -> Seq<usize> {
        match d {
            Direction::Up => self.up,
            Direction::Right => self.right,
            Direction::Down => self.down,
            Direction::Left => self.left,
        }
    }
}

impl View for Tile {
    type V = TileView;

    open spec fn view(&self) -> TileView {
        TileView {
            image: self.image,
            rotation: self.rotation,
            edges: self.edges@.map_values(|s: String| s@),
            up: self.up@,
            right: self.right@,
            down: self.down@,
            left: self.left@,
        }
    }
}

/// The views of a list of tiles.
pub open spec fn tile_views(tiles: Seq<Tile>) -> Seq<TileView> {
    tiles.map_values(|t: Tile| t@)
}

/// `edges` turned clockwise by `n` quarter turns: the signature at position
/// `i` moves to position `i + n`, counted round the list.
pub open spec fn turned(edges: Seq<Seq<char>>, n: nat) -> Seq<Seq<char>> {
    Seq::new(edges.len(), |j: int| edges[(j - n) % (edges.len() as int)])
}

/// Among the first `n` of `tiles`, the indices of those whose side `side` fits
/// `edge`, in ascending order.
pub open spec fn fitting_among(
    edge: Seq<char>,
    tiles: Seq<TileView>,
    side: Direction,
    n: nat,
) -> Seq<usize> {
    Seq::new(n, |i: int| i as usize).filter(|i: usize| fits(edge, tiles[i as int].edge(side)))
}

/// The indices of all `tiles` whose side `side` fits `edge`, in ascending order.
pub open spec fn fitting_tiles(edge: Seq<char>, tiles: Seq<TileView>, side: Direction) -> Seq<
    usize,
> {
    fitting_among(edge, tiles, side, tiles.len())
}

/// The tiles that may lie in direction `d` of `me`: those whose opposite side
/// fits the side `d` of `me`.
pub open spec fn matched(me: TileView, tiles: Seq<TileView>, d: Direction) -> Seq<usize> {
    fitting_tiles(me.edge(d), tiles, d.opposite())
}

/// Looking at one more tile adds its index if its edge fits, and nothing else.
pub proof fn lemma_fitting_among_step(
    edge: Seq<char>,
    tiles: Seq<TileView>,
    side: Direction,
    n: nat,
)
    requires
        n <= usize::MAX,
    ensures
        fitting_among(edge, tiles, side, n + 1) == if fits(edge, tiles[n as int].edge(side)) {
            fitting_among(edge, tiles, side, n).push(n as usize)
        } else {
            fitting_among(edge, tiles, side, n)
        },
        fitting_among(edge, tiles, side, 0) == Seq::<usize>::empty(),
{
    reveal(Seq::filter);
    let longer = Seq::new(n + 1, |i: int| i as usize);
    let shorter = Seq::new(n, |i: int| i as usize);
    assert(longer.drop_last() =~= shorter);
    assert(longer.last() == n as usize);
}

/// What `fitting_among` holds: exactly the indices below `n` of the tiles
/// that fit, each once, in ascending order.
pub proof fn lemma_fitting_among(edge: Seq<char>, tiles: Seq<TileView>, side: Direction, n: nat)
    requires
        n <= usize::MAX,
    ensures
        forall|k: int|
            0 <= k < fitting_among(edge, tiles, side, n).len() ==> (#[trigger] fitting_among(
                edge,
                tiles,
                side,
                n,
            )[k]) < n && fits(
                edge,
                tiles[fitting_among(edge, tiles, side, n)[k] as int].edge(side),
            ),
        forall|j: int, k: int|
            0 <= j < k < fitting_among(edge, tiles, side, n).len() ==> (#[trigger] fitting_among(
                edge,
                tiles,
                side,
                n,
            )[j]) < (#[trigger] fitting_among(edge, tiles, side, n)[k]),
        forall|i: usize|
            i < n && fits(edge, tiles[i as int].edge(side)) ==> #[trigger] fitting_among(
                edge,
                tiles,
                side,
                n,
            ).contains(i),
    decreases n,
{
    if n == 0 {
        lemma_fitting_among_step(edge, tiles, side, 0);
    } else {
        let m = (n - 1) as nat;
        lemma_fitting_among(edge, tiles, side, m);
        lemma_fitting_among_step(edge, tiles, side, m);
        let before = fitting_among(edge, tiles, side, m);
        let now = fitting_among(edge, tiles, side, n);
        assert forall|i: usize| i < n && fits(edge, tiles[i as int].edge(side)) implies now.contains(
            i,
        ) by {
            if i < m {
                assert(before.contains(i));
                let k = choose|k: int| 0 <= k < before.len() && before[k] == i;
                assert(now[k] == i);
            } else {
                assert(now[now.len() - 1] == i);
            }
        }
    }
}

impl Clone for Tile {
    fn clone(&self) -> (tile: Tile)
        ensures
            tile@ == self@,
    {
        let tile = Tile {
            image: self.image,
            rotation: self.rotation,
            edges: self.edges.clone(),
            up: self.up.clone(),
            left: self.left.clone(),
            down: self.down.clone(),
            right: self.right.clone(),
        };
        assert(tile@.edges =~= self@.edges);
        assert(tile@.up =~= self@.up);
        assert(tile@.right =~= self@.right);
        assert(tile@.down =~= self@.down);
        assert(tile@.left =~= self@.left);
        tile
    }
}

impl Tile {
    /// A tile as it is drawn, not turned, with no neighbours worked out yet.
    pub fn new(image: usize, edges: Vec<String>) -> (tile: Tile)
        ensures
            tile.image == image,
            tile.rotation == 0,
            tile.edges == edges,
            tile.up@ == Seq::<usize>::empty(),
            tile.right@ == Seq::<usize>::empty(),
            tile.down@ == Seq::<usize>::empty(),
            tile.left@ == Seq::<usize>::empty(),
    {
        Tile {
            image,
            rotation: 0,
            edges,
            up: Vec::new(),
            right: Vec::new(),
            down: Vec::new(),
            left: Vec::new(),
        }
    }

    /// The tiles that may lie in direction `d` of this one.
    pub fn adjacency(&self, d: Direction) -> (list: &Vec<usize>)
        ensures
            list@ == self@.adjacency(d),
    {
        match d {
            Direction::Up => &self.up,
            Direction::Right => &self.right,
            Direction::Down => &self.down,
            Direction::Left => &self.left,
        }
    }

    /// This tile turned clockwise by `n` quarter turns.
    ///
    /// The edges move round by `n` places and the rotation counts on modulo 4.
    /// The turned tile has no neighbours worked out: they depend on every tile
    /// of the catalog, the turned ones included.
    pub fn rotate(&self, n: usize) -> (tile: Tile)
        ensures
            tile@.image == self@.image,
            tile@.rotation == (self@.rotation + n) % 4,
            tile@.edges == turned(self@.edges, n as nat),
            tile@.up == Seq::<usize>::empty(),
            tile@.right == Seq::<usize>::empty(),
            tile@.down == Seq::<usize>::empty(),
            tile@.left == Seq::<usize>::empty(),
    {
        let len: usize = self.edges.len();
        let mut edges: Vec<String> = Vec::new();
        if len > 0 {
            let k: usize = n % len;
            let mut j: usize = 0;
            while j < len
                invariant
                    len == self.edges@.len(),
                    len > 0,
                    k == n % len,
                    j <= len,
                    edges@.len() == j,
                    forall|i: int|
                        0 <= i < j ==> (#[trigger] edges@[i])@ == self.edges@[(i - n) % (
                        len as int)]@,
                decreases len - j,
            {
                let from: usize = if j >= k { j - k } else { len - (k - j) };
                assert(from == (j - n) % (len as int)) by {
                    lemma_turn_index(j as int, n as int, len as int);
                }
                edges.push(self.edges[from].clone());
                j += 1;
            }
        }
        let rotation: usize = (self.rotation % 4 + n % 4) % 4;
        assert(rotation == (self.rotation + n) % 4) by {
            vstd::arithmetic::div_mod::lemma_add_mod_noop(self.rotation as int, n as int, 4);
        }
        let tile = Tile {
            image: self.image,
            rotation,
            edges,
            up: Vec::new(),
            right: Vec::new(),
            down: Vec::new(),
            left: Vec::new(),
        };
        assert(tile@.edges =~= turned(self@.edges, n as nat));
        tile
    }

    /// Works out which of `tiles` may lie on each side of this tile.
    ///
    /// Each of the four lists is replaced by the indices, in ascending order,
    /// of the tiles whose facing edge fits the edge of this tile on that side.
    /// `tiles` must be the whole catalog, every rotated variant included.
    pub fn generate_relationships(&mut self, tiles: &[Tile])
        requires
            old(self).edges@.len() >= 4,
            forall|i: int| 0 <= i < tiles@.len() ==> (#[trigger] tiles@[i]).edges@.len() >= 4,
        ensures
            final(self)@.image == old(self)@.image,
            final(self)@.rotation == old(self)@.rotation,
            final(self)@.edges == old(self)@.edges,
            forall|d: Direction|
                #![trigger final(self)@.adjacency(d)]
                final(self)@.adjacency(d) == matched(old(self)@, tile_views(tiles@), d),
    {
        let my_up = signature_chars(self.edges[0].as_str());
        let my_right = signature_chars(self.edges[1].as_str());
        let my_down = signature_chars(self.edges[2].as_str());
        let my_left = signature_chars(self.edges[3].as_str());
        let mut up: Vec<usize> = Vec::new();
        let mut right: Vec<usize> = Vec::new();
        let mut down: Vec<usize> = Vec::new();
        let mut left: Vec<usize> = Vec::new();
        let ghost me = self@;
        let ghost views = tile_views(tiles@);
        let count: usize = tiles.len();
        proof {
            lemma_fitting_among_step(me.edge(Direction::Up), views, Direction::Down, 0);
            lemma_fitting_among_step(me.edge(Direction::Right), views, Direction::Left, 0);
            lemma_fitting_among_step(me.edge(Direction::Down), views, Direction::Up, 0);
            lemma_fitting_among_step(me.edge(Direction::Left), views, Direction::Right, 0);
        }
        let mut i: usize = 0;
        while i < count
            invariant
                i <= count,
                count == tiles@.len(),
                views == tile_views(tiles@),
                forall|j: int| 0 <= j < tiles@.len() ==> (#[trigger] tiles@[j]).edges@.len() >= 4,
                me.edges.len() >= 4,
                my_up@ == me.edge(Direction::Up),
                my_right@ == me.edge(Direction::Right),
                my_down@ == me.edge(Direction::Down),
                my_left@ == me.edge(Direction::Left),
                up@ == fitting_among(me.edge(Direction::Up), views, Direction::Down, i as nat),
                right@ == fitting_among(
                    me.edge(Direction::Right),
                    views,
                    Direction::Left,
                    i as nat,
                ),
                down@ == fitting_among(me.edge(Direction::Down), views, Direction::Up, i as nat),
                left@ == fitting_among(me.edge(Direction::Left), views, Direction::Right, i as nat),
            decreases count - i,
        {
            let other = &tiles[i];
            let their_up = signature_chars(other.edges[0].as_str());
            let their_right = signature_chars(other.edges[1].as_str());
            let their_down = signature_chars(other.edges[2].as_str());
            let their_left = signature_chars(other.edges[3].as_str());
            proof {
                lemma_fitting_among_step(me.edge(Direction::Up), views, Direction::Down, i as nat);
                lemma_fitting_among_step(
                    me.edge(Direction::Right),
                    views,
                    Direction::Left,
                    i as nat,
                );
                lemma_fitting_among_step(me.edge(Direction::Down), views, Direction::Up, i as nat);
                lemma_fitting_among_step(
                    me.edge(Direction::Left),
                    views,
                    Direction::Right,
                    i as nat,
                );
                assert(views[i as int] == tiles@[i as int]@);
            }
            if chars_fit(&my_up, &their_down) {
                up.push(i);
            }
            if chars_fit(&my_right, &their_left) {
                right.push(i);
            }
            if chars_fit(&my_down, &their_up) {
                down.push(i);
            }
            if chars_fit(&my_left, &their_right) {
                left.push(i);
            }
            i += 1;
        }
        self.up = up;
        self.right = right;
        self.down = down;
        self.left = left;
    }
}

/// The place from which a turn by `n` fills position `j` of a list of `len`.
proof fn lemma_turn_index(j: int, n: int, len: int)
    requires
        0 <= j < len,
        0 <= n,
    ensures
        (j - n) % len == if j >= n % len {
            j - n % len
        } else {
            len - (n % len - j)
        },
{
    let k = n % len;
    vstd::arithmetic::div_mod::lemma_fundamental_div_mod(n, len);
    // j - n == (j - k) - len * (n / len)
    vstd::arithmetic::div_mod::lemma_mod_multiples_vanish(-(n / len), j - k, len);
    assert(j - k + len * (-(n / len)) == j - n) by (nonlinear_arith)
        requires
            n == len * (n / len) + k,
    ;
    if j >= k {
        vstd::arithmetic::div_mod::lemma_small_mod((j - k) as nat, len as nat);
    } else {
        vstd::arithmetic::div_mod::lemma_mod_multiples_vanish(1, j - k, len);
        vstd::arithmetic::div_mod::lemma_small_mod((len + j - k) as nat, len as nat);
    }
}

} // verus!
