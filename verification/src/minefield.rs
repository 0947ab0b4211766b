//! The board: a rectangle of tiles, and the moves that change it.

use vstd::prelude::*;
use crate::region::lemma_filled_at;
use crate::tile::Tile;

verus! {

/// Width of the board the game is played on.
pub const MAP_SIZE_WIDTH: usize = 60;

/// Height of the board the game is played on.
pub const MAP_SIZE_HEIGHT: usize = 30;

/// The mathematical board: `width * height` tiles, stored column after
/// column, so that the tile at `(x, y)` is the one numbered `x * height + y`.
pub struct Grid {
    pub width: nat,
    pub height: nat,
    pub tiles: Seq<Tile>,
}

/// Two cells that share an edge.
pub open spec fn adjacent(a: (int, int), b: (int, int)) -> bool {
    ||| a.0 == b.0 && (a.1 == b.1 + 1 || b.1 == a.1 + 1)
    ||| a.1 == b.1 && (a.0 == b.0 + 1 || b.0 == a.0 + 1)
}

/// The place of the cell `(x, y)` among the tiles of a board with `height`
/// rows.
#[verifier::opaque]
pub open spec fn slot_of(height: nat, x: int, y: int) -> int {
    x * height + y
}

impl Grid {
    /// The board holds exactly one tile for each of its cells.
    pub open spec fn wf(self) -> bool {
        self.tiles.len() == self.width * self.height
    }

    /// `(x, y)` is a cell of the board.
    pub open spec fn in_bounds(self, x: int, y: int) -> bool {
        0 <= x < self.width && 0 <= y < self.height
    }

    /// The place of the cell `(x, y)` in `tiles`.
    pub open spec fn slot(self, x: int, y: int) -> int {
        slot_of(self.height, x, y)
    }

    /// The tile at `(x, y)`.
    pub open spec fn at(self, x: int, y: int) -> Tile {
        self.tiles[self.slot(x, y)]
    }

    /// The board with the tile at `(x, y)` replaced by `tile`.
    pub open spec fn put(self, x: int, y: int, tile: Tile) -> Grid {
        Grid { tiles: self.tiles.update(self.slot(x, y), tile), ..self }
    }

    /// The two boards have the same size.
    pub open spec fn same_size(self, other: Grid) -> bool {
        self.width == other.width && self.height == other.height
    }

    /// Every cell of the board carries the tile in its starting state.
    pub open spec fn is_blank(self) -> bool {
        forall|x: int, y: int|
            self.in_bounds(x, y) ==> #[trigger] self.at(x, y) == Tile::blank()
    }

    /// Every tile of the board has been uncovered.
    pub open spec fn all_discovered(self) -> bool {
        forall|x: int, y: int| self.in_bounds(x, y) ==> (#[trigger] self.at(x, y)).is_discovered
    }

    /// Every tile without a mine has been uncovered.
    pub open spec fn all_safe_discovered(self) -> bool {
        forall|x: int, y: int|
            self.in_bounds(x, y) && !(#[trigger] self.at(x, y)).is_mine ==> self.at(
                x,
                y,
            ).is_discovered
    }

    /// The board after the flag at `(x, y)` has been toggled: a hidden tile
    /// has its flag set if it was clear and cleared if it was set, and an
    /// uncovered tile is left alone.
    pub open spec fn toggled(self, x: int, y: int) -> Grid {
        let t = self.at(x, y);
        if t.is_discovered {
            self
        } else {
            self.put(x, y, t.with_flag(!t.is_flagged))
        }
    }

    /// The board once the player has uncovered `(x, y)`: the same board if
    /// the tile is flagged; else the tile is uncovered and, if it is open,
    /// the board is filled from it.
    pub open spec fn revealed(self, x: int, y: int) -> Grid {
        let t = self.at(x, y);
        if t.is_flagged {
            self
        } else if t.is_open() {
            self.put(x, y, t.discovered()).filled(x, y)
        } else {
            self.put(x, y, t.discovered())
        }
    }

    /// The board with every tile uncovered and nothing else changed.
    pub open spec fn uncovered(self) -> Grid {
        Grid { tiles: self.tiles.map_values(|t: Tile| t.discovered()), ..self }
    }
}

/// Uncovering a flagged tile changes nothing on the board.
pub proof fn lemma_reveal_of_flagged_tile(g: Grid, x: int, y: int)
    requires
        g.at(x, y).is_flagged,
    ensures
        g.revealed(x, y) == g,
{
}

/// Toggling the flag of an uncovered tile changes nothing on the board.
pub proof fn lemma_toggle_of_discovered_tile(g: Grid, x: int, y: int)
    requires
        g.at(x, y).is_discovered,
    ensures
        g.toggled(x, y) == g,
{
}

/// Toggling the flag of a hidden tile twice gives the board back.
pub proof fn lemma_toggle_twice(g: Grid, x: int, y: int)
    requires
        g.wf(),
        g.in_bounds(x, y),
    ensures
        g.toggled(x, y).toggled(x, y) == g,
{
    let t = g.at(x, y);
    if !t.is_discovered {
        let once = g.toggled(x, y);
        lemma_put_at(g, x, y, t.with_flag(!t.is_flagged));
        lemma_put_at(once, x, y, t);
        lemma_grid_ext(once.toggled(x, y), g);
    }
}

/// Uncovering `(x, y)` changes on no tile anything but whether it is
/// uncovered, and hides no tile. It leaves a flagged tile `(fx, fy)` as it
/// is, unless the fill that the uncovering starts reaches that tile.
pub proof fn lemma_reveal_keeps_flagged_tile(g: Grid, x: int, y: int, fx: int, fy: int)
    requires
        g.wf(),
        g.in_bounds(x, y),
        g.in_bounds(fx, fy),
    ensures
        g.revealed(x, y).at(fx, fy) == g.at(fx, fy) || g.revealed(x, y).at(fx, fy) == g.at(
            fx,
            fy,
        ).discovered(),
        g.at(fx, fy).is_flagged && !(!g.at(x, y).is_flagged && g.at(x, y).is_open() && g.put(
            x,
            y,
            g.at(x, y).discovered(),
        ).fill_reveals(x, y, fx, fy)) ==> g.revealed(x, y).at(fx, fy) == g.at(fx, fy),
{
    let t = g.at(x, y);
    if !t.is_flagged {
        let lifted = g.put(x, y, t.discovered());
        lemma_put_at(g, x, y, t.discovered());
        if t.is_open() {
            lemma_filled_at(lifted, x, y, fx, fy);
        }
    }
}

/// Uncovering a tile leaves the board sound and of its size.
pub proof fn lemma_reveal_keeps_size(g: Grid, x: int, y: int)
    requires
        g.wf(),
        g.in_bounds(x, y),
    ensures
        g.revealed(x, y).wf(),
        g.revealed(x, y).same_size(g),
{
    lemma_put_at(g, x, y, g.at(x, y).discovered());
}

/// Uncovering the board uncovers each of its tiles and changes nothing else.
pub proof fn lemma_uncovered_at(g: Grid)
    requires
        g.wf(),
    ensures
        g.uncovered().wf(),
        g.uncovered().same_size(g),
        g.uncovered().all_discovered(),
        forall|x: int, y: int|
            g.in_bounds(x, y) ==> #[trigger] g.uncovered().at(x, y) == g.at(x, y).discovered(),
{
    assert forall|x: int, y: int| g.in_bounds(x, y) implies #[trigger] g.uncovered().at(x, y)
        == g.at(x, y).discovered() by {
        lemma_slot_in_range(g, x, y);
    }
}

/// A cell of the board has its own place among the tiles.
pub proof fn lemma_slot_in_range(g: Grid, x: int, y: int)
    requires
        g.wf(),
        g.in_bounds(x, y),
    ensures
        0 <= g.slot(x, y) < g.tiles.len(),
{
    reveal(slot_of);
    let h = g.height as int;
    let w = g.width as int;
    assert(0 <= x * h && x * h + h <= w * h) by (nonlinear_arith)
        requires
            0 <= x < w,
            0 <= h,
    ;
}

/// Two different cells of the board have different places among the tiles.
pub proof fn lemma_slot_injective(g: Grid, x1: int, y1: int, x2: int, y2: int)
    requires
        g.in_bounds(x1, y1),
        g.in_bounds(x2, y2),
        g.slot(x1, y1) == g.slot(x2, y2),
    ensures
        x1 == x2,
        y1 == y2,
{
    reveal(slot_of);
    let h = g.height as int;
    assert(x1 == x2) by (nonlinear_arith)
        requires
            x1 * h + y1 == x2 * h + y2,
            0 <= y1 < h,
            0 <= y2 < h,
    ;
}

/// Every place among the tiles belongs to a cell of the board.
pub proof fn lemma_slot_covers(g: Grid, k: int)
    requires
        g.wf(),
        0 <= k < g.tiles.len(),
    ensures
        g.height > 0,
        g.in_bounds(k / (g.height as int), k % (g.height as int)),
        g.slot(k / (g.height as int), k % (g.height as int)) == k,
{
    reveal(slot_of);
    let h = g.height as int;
    let w = g.width as int;
    assert(h > 0) by (nonlinear_arith)
        requires
            0 <= k < w * h,
            0 <= h,
    ;
    assert(k == (k / h) * h + k % h && 0 <= k % h < h && 0 <= k / h < w) by (nonlinear_arith)
        requires
            0 <= k < w * h,
            h > 0,
    ;
}

/// Replacing one tile changes the tile at that cell and at no other.
pub proof fn lemma_put_at(g: Grid, x: int, y: int, tile: Tile)
    requires
        g.wf(),
        g.in_bounds(x, y),
    ensures
        g.put(x, y, tile).wf(),
        g.put(x, y, tile).same_size(g),
        g.put(x, y, tile).at(x, y) == tile,
        forall|x2: int, y2: int|
            g.in_bounds(x2, y2) && !(x2 == x && y2 == y) ==> #[trigger] g.put(x, y, tile).at(
                x2,
                y2,
            ) == g.at(x2, y2),
{
    lemma_slot_in_range(g, x, y);
    assert forall|x2: int, y2: int| g.in_bounds(x2, y2) && !(x2 == x && y2 == y) implies #[trigger]
        g.put(x, y, tile).at(x2, y2) == g.at(x2, y2) by {
        lemma_slot_in_range(g, x2, y2);
        if g.slot(x2, y2) == g.slot(x, y) {
            lemma_slot_injective(g, x, y, x2, y2);
        }
    }
}

/// Two boards of one size that agree at every cell are the same board.
pub proof fn lemma_grid_ext(a: Grid, b: Grid)
    requires
        a.wf(),
        b.wf(),
        a.same_size(b),
        forall|x: int, y: int| a.in_bounds(x, y) ==> a.at(x, y) == b.at(x, y),
    ensures
        a == b,
{
    assert forall|k: int| 0 <= k < a.tiles.len() implies a.tiles[k] == b.tiles[k] by {
        lemma_slot_covers(a, k);
        let h = a.height as int;
        assert(a.at(k / h, k % h) == b.at(k / h, k % h));
    }
    assert(a.tiles =~= b.tiles);
}

/// The board of a game.
pub struct Minefield {
    width: usize,
    height: usize,
    tiles: Vec<Tile>,
}

impl View for Minefield {
    type V = Grid;

    closed spec fn view(&self) -> Grid {
        Grid { width: self.width as nat, height: self.height as nat, tiles: self.tiles@ }
    }
}

impl Minefield {
    /// The board holds exactly one tile for each of its cells.
    pub open spec fn wf(&self) -> bool {
        self@.wf()
    }

    /// A board of the given size on which every tile is in its starting
    /// state: hidden, unflagged, without mines.
    pub fn new(width: usize, height: usize) -> (field: Minefield)
        requires
            width * height <= usize::MAX,
        ensures
            field.wf(),
            field@.width == width,
            field@.height == height,
            field@.is_blank(),
    {
        let total: usize = width * height;
        let mut tiles: Vec<Tile> = Vec::new();
        let mut k: usize = 0;
        while k < total
            invariant
                k <= total,
                tiles@.len() == k,
                forall|i: int| 0 <= i < k ==> tiles@[i] == Tile::blank(),
            decreases total - k,
        {
            tiles.push(Tile::new(0));
            k += 1;
        }
        let field = Minefield { width, height, tiles };
        proof {
            assert forall|x: int, y: int| field@.in_bounds(x, y) implies #[trigger] field@.at(x, y)
                == Tile::blank() by {
                lemma_slot_in_range(field@, x, y);
            }
        }
        field
    }

    /// The sides of a board are numbers of the machine, and so is the number
    /// of its tiles.
    pub proof fn lemma_fits(&self)
        ensures
            self@.width <= usize::MAX,
            self@.height <= usize::MAX,
            self.wf() ==> self@.width * self@.height <= usize::MAX,
    {
        assert(self.tiles.len() == self.tiles@.len());
    }

    /// The number of columns.
    pub fn width(&self) -> (w: usize)
        ensures
            w == self@.width,
    {
        self.width
    }

    /// The number of rows.
    pub fn height(&self) -> (h: usize)
        ensures
            h == self@.height,
    {
        self.height
    }

    /// The place of the cell `(x, y)` among the tiles.
    pub fn index(&self, x: usize, y: usize) -> (k: usize)
        requires
            self.wf(),
            self@.in_bounds(x as int, y as int),
        ensures
            k == self@.slot(x as int, y as int),
            k < self@.tiles.len(),
    {
        proof {
            reveal(slot_of);
            lemma_slot_in_range(self@, x as int, y as int);
            let xi = x as int;
            let hi = self.height as int;
            assert(0 <= xi * hi) by (nonlinear_arith)
                requires
                    0 <= xi,
                    0 <= hi,
            ;
            assert(self@.slot(xi, y as int) == xi * hi + y);
            assert(self.tiles.len() == self.tiles@.len());
        }
        x * self.height + y
    }

    /// The tile at `(x, y)`.
    pub fn tile(&self, x: usize, y: usize) -> (t: Tile)
        requires
            self.wf(),
            self@.in_bounds(x as int, y as int),
        ensures
            t == self@.at(x as int, y as int),
    {
        let k = self.index(x, y);
        self.tiles[k]
    }

    /// Replaces the tile at `(x, y)`.
    pub fn set_tile(&mut self, x: usize, y: usize, tile: Tile)
        requires
            old(self).wf(),
            old(self)@.in_bounds(x as int, y as int),
        ensures
            final(self).wf(),
            final(self)@ == old(self)@.put(x as int, y as int, tile),
    {
        let k = self.index(x, y);
        self.tiles.set(k, tile);
        proof {
            lemma_put_at(old(self)@, x as int, y as int, tile);
        }
    }

    /// Sets or clears the flag on the tile at `(x, y)`. A tile that has been
    /// uncovered keeps its flag as it is.
    pub fn toggle_flag(&mut self, x: usize, y: usize)
        requires
            old(self).wf(),
            old(self)@.in_bounds(x as int, y as int),
        ensures
            final(self).wf(),
            final(self)@ == old(self)@.toggled(x as int, y as int),
    {
        let t = self.tile(x, y);
        if !t.is_discovered {
            self.set_tile(x, y, Tile { is_flagged: !t.is_flagged, ..t });
        }
    }

    /// Uncovers the tile at `(x, y)` for the player and says whether a mine
    /// was uncovered. A flagged tile stays as it is. Uncovering an open tile
    /// fills the board from it.
    pub fn reveal_tile(&mut self, x: usize, y: usize) -> (hit_mine: bool)
        requires
            old(self).wf(),
            old(self)@.in_bounds(x as int, y as int),
        ensures
            final(self).wf(),
            final(self)@ == old(self)@.revealed(x as int, y as int),
            hit_mine == (!old(self)@.at(x as int, y as int).is_flagged && old(self)@.at(
                x as int,
                y as int,
            ).is_mine),
    {
        let t = self.tile(x, y);
        if t.is_flagged {
            return false;
        }
        self.set_tile(x, y, Tile { is_discovered: true, ..t });
        proof {
            lemma_put_at(old(self)@, x as int, y as int, t.discovered());
        }
        if !t.is_mine && t.number == 0 {
            let _ = self.flood_fill(x, y);
        }
        t.is_mine
    }

    /// Uncovers every tile.
    pub fn reveal_all(&mut self)
        requires
            old(self).wf(),
        ensures
            final(self).wf(),
            final(self)@ == old(self)@.uncovered(),
            final(self)@.all_discovered(),
    {
        let total = self.tiles.len();
        let mut k: usize = 0;
        while k < total
            invariant
                k <= total,
                total == self.tiles@.len(),
                self.width == old(self).width,
                self.height == old(self).height,
                self.tiles@.len() == old(self).tiles@.len(),
                forall|i: int| 0 <= i < k ==> self.tiles@[i] == old(self).tiles@[i].discovered(),
                forall|i: int| k <= i < total ==> self.tiles@[i] == old(self).tiles@[i],
            decreases total - k,
        {
            let t = self.tiles[k];
            self.tiles.set(k, Tile { is_discovered: true, ..t });
            k += 1;
        }
        proof {
            assert(self.tiles@ =~= old(self)@.uncovered().tiles);
            lemma_uncovered_at(old(self)@);
        }
    }

    /// Whether every tile without a mine has been uncovered.
    pub fn all_safe_discovered(&self) -> (done: bool)
        requires
            self.wf(),
        ensures
            done == self@.all_safe_discovered(),
    {
        let total = self.tiles.len();
        let mut k: usize = 0;
        while k < total
            invariant
                self.wf(),
                k <= total,
                total == self.tiles@.len(),
                forall|i: int|
                    0 <= i < k ==> (#[trigger] self.tiles@[i]).is_mine || self.tiles@[i].is_discovered,
            decreases total - k,
        {
            let t = self.tiles[k];
            if !t.is_mine && !t.is_discovered {
                proof {
                    lemma_slot_covers(self@, k as int);
                    let h = self@.height as int;
                    let ki = k as int;
                    assert(self@.at(ki / h, ki % h) == t);
                }
                return false;
            }
            k += 1;
        }
        proof {
            assert forall|x: int, y: int|
                self@.in_bounds(x, y) && !(#[trigger] self@.at(x, y)).is_mine implies self@.at(
                x,
                y,
            ).is_discovered by {
                lemma_slot_in_range(self@, x, y);
            }
        }
        true
    }
}

/// One character of the picture of a board: where it is drawn, what is
/// drawn, and in which colour pair.
#[derive(Copy, Clone, Debug)]
pub struct Glyph {
    pub row: usize,
    pub column: usize,
    pub symbol: char,
    pub color: Option<i16>,
}

impl Grid {
    /// What is drawn for the tile at `(x, y)`: its character in its colour,
    /// in column `x` of row `y`.
    pub open spec fn glyph_at(self, x: int, y: int) -> Glyph {
        Glyph {
            row: y as usize,
            column: x as usize,
            symbol: self.at(x, y).repr(),
            color: self.at(x, y).color(),
        }
    }

    /// The mark that closes the picture: a colon at the start of the row
    /// below the board.
    pub open spec fn closing_glyph(self) -> Glyph {
        Glyph { row: self.height as usize, column: 0, symbol: ':', color: None }
    }

    /// `screen` is the picture of the board: one glyph for each tile, in the
    /// order of the board's tiles, and the closing mark after them.
    pub open spec fn picture_is(self, screen: Seq<Glyph>) -> bool {
        &&& screen.len() == self.tiles.len() + 1
        &&& forall|x: int, y: int|
            self.in_bounds(x, y) ==> screen[#[trigger] self.slot(x, y)] == self.glyph_at(x, y)
        &&& screen[self.tiles.len() as int] == self.closing_glyph()
    }
}

/// The picture of the board, glyph by glyph in the order in which it is
/// drawn: column after column, each from the top down, and the closing mark
/// last.
pub fn render(minefield: &Minefield) -> (screen: Vec<Glyph>)
    requires
        minefield.wf(),
    ensures
        minefield@.picture_is(screen@),
{
    let total = minefield.tiles.len();
    let height = minefield.height;
    let mut screen: Vec<Glyph> = Vec::new();
    let mut k: usize = 0;
    while k < total
        invariant
            minefield.wf(),
            k <= total,
            total == minefield.tiles@.len(),
            height == minefield.height,
            screen@.len() == k,
            forall|x: int, y: int|
                minefield@.in_bounds(x, y) && 0 <= minefield@.slot(x, y) < k ==> screen@[#[trigger] minefield@.slot(
                    x,
                    y,
                )] == minefield@.glyph_at(x, y),
        decreases total - k,
    {
        proof {
            lemma_slot_covers(minefield@, k as int);
        }
        let t = minefield.tiles[k];
        let glyph = Glyph {
            row: k % height,
            column: k / height,
            symbol: t.get_repr(),
            color: t.get_color(),
        };
        let ghost drawn = screen@;
        screen.push(glyph);
        proof {
            assert forall|x: int, y: int|
                minefield@.in_bounds(x, y) && 0 <= minefield@.slot(x, y) < k + 1 implies screen@[#[trigger] minefield@.slot(
                x,
                y,
            )] == minefield@.glyph_at(x, y) by {
                lemma_slot_in_range(minefield@, x, y);
                if minefield@.slot(x, y) == k {
                    let h = height as int;
                    let ki = k as int;
                    lemma_slot_injective(minefield@, x, y, ki / h, ki % h);
                } else {
                    assert(screen@[minefield@.slot(x, y)] == drawn[minefield@.slot(x, y)]);
                }
            }
        }
        k += 1;
    }
    screen.push(Glyph { row: height, column: 0, symbol: ':', color: None });
    proof {
        assert forall|x: int, y: int| minefield@.in_bounds(x, y) implies screen@[#[trigger] minefield@.slot(
            x,
            y,
        )] == minefield@.glyph_at(x, y) by {
            lemma_slot_in_range(minefield@, x, y);
        }
    }
    screen
}

/// Whether `(x, y)` is a cell of the board.
pub fn is_in_minefield(minefield: &Minefield, x: i32, y: i32) -> (inside: bool)
    ensures
        inside == minefield@.in_bounds(x as int, y as int),
{
    if x >= 0 && y >= 0 {
        (x as usize) < minefield.width && (y as usize) < minefield.height
    } else {
        false
    }
}

/// Uncovers what uncovering the tile at `(initial_x, initial_y)` brings with
/// it: the tile itself, unless it holds a mine, and, if it is open, the
/// region of open tiles around it with the numbered tiles on its border.
pub fn propegate_zeros_through_minefield(
    minefield: &mut Minefield,
    initial_x: usize,
    initial_y: usize,
)
    requires
        old(minefield).wf(),
        old(minefield)@.in_bounds(initial_x as int, initial_y as int),
    ensures
        final(minefield).wf(),
        final(minefield)@ == old(minefield)@.filled(initial_x as int, initial_y as int),
{
    let _ = minefield.flood_fill(initial_x, initial_y);
}

} // verus!
