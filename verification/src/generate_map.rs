//! Laying out a board: where the mines go, and the number on every other
//! tile.

use vstd::prelude::*;
use rand::Rng;
use rand::rngs::ThreadRng;
use crate::minefield::{lemma_put_at, lemma_slot_in_range, slot_of, Grid, Minefield};
use crate::tile::Tile;

verus! {

/// The share of tiles, in percent, that hold a mine on the board the game is
/// played on.
pub const MINE_DENSITY: u32 = 20;

impl Grid {
    /// 1 if `(x, y)` is a cell of the board that holds a mine, else 0.
    pub open spec fn mine_at(self, x: int, y: int) -> int {
        if self.in_bounds(x, y) && self.at(x, y).is_mine {
            1
        } else {
            0
        }
    }

    /// The number of mines on the up to eight cells of the board that touch
    /// `(x, y)` by an edge or a corner.
    pub open spec fn mines_around(self, x: int, y: int) -> int {
        self.mine_at(x + 1, y) + self.mine_at(x + 1, y + 1) + self.mine_at(x, y + 1) + self.mine_at(
            x - 1,
            y + 1,
        ) + self.mine_at(x - 1, y) + self.mine_at(x, y - 1) + self.mine_at(x + 1, y - 1)
            + self.mine_at(x - 1, y - 1)
    }

    /// The number that the tile at `(x, y)` carries on a board laid out for
    /// a first move at `(safe_x, safe_y)`: the mines around it, but 0 on a
    /// mine and on the tile of the first move.
    pub open spec fn number_due(self, safe_x: int, safe_y: int, x: int, y: int) -> int {
        if self.at(x, y).is_mine || (x == safe_x && y == safe_y) {
            0
        } else {
            self.mines_around(x, y)
        }
    }

    /// The board is as it leaves the generator for a first move at
    /// `(safe_x, safe_y)`: that tile holds no mine, every tile carries the
    /// number due to it, and all tiles are hidden and without a flag.
    pub open spec fn is_fresh(self, safe_x: int, safe_y: int) -> bool {
        &&& self.wf()
        &&& self.in_bounds(safe_x, safe_y)
        &&& !self.at(safe_x, safe_y).is_mine
        &&& forall|x: int, y: int|
            self.in_bounds(x, y) ==> {
                let t = #[trigger] self.at(x, y);
                &&& !t.is_discovered
                &&& !t.is_flagged
                &&& t.number == self.number_due(safe_x, safe_y, x, y)
            }
    }

    /// The mines of the board are those that `mines` names, tile by tile in
    /// the order of the board's tiles, but for the tile at
    /// `(safe_x, safe_y)`, which holds none. A tile that `mines` does not
    /// reach holds none.
    pub open spec fn laid_out(self, mines: Seq<bool>, safe_x: int, safe_y: int) -> bool {
        forall|x: int, y: int|
            self.in_bounds(x, y) ==> (#[trigger] self.at(x, y)).is_mine == (!(x == safe_x && y
                == safe_y) && self.slot(x, y) < mines.len() && mines[self.slot(x, y)])
    }

    /// No tile of the board holds a mine.
    pub open spec fn no_mines(self) -> bool {
        forall|x: int, y: int| self.in_bounds(x, y) ==> !(#[trigger] self.at(x, y)).is_mine
    }

    /// Every tile of the board but the one at `(safe_x, safe_y)` holds a
    /// mine.
    pub open spec fn all_mines_but(self, safe_x: int, safe_y: int) -> bool {
        forall|x: int, y: int|
            self.in_bounds(x, y) && !(x == safe_x && y == safe_y) ==> (#[trigger] self.at(
                x,
                y,
            )).is_mine
    }
}

/// On a board fresh from the generator the tile of the first move holds no
/// mine and carries a 0.
pub proof fn lemma_first_move_is_safe(g: Grid, safe_x: int, safe_y: int)
    requires
        g.is_fresh(safe_x, safe_y),
    ensures
        !g.at(safe_x, safe_y).is_mine,
        g.at(safe_x, safe_y).number == 0,
        g.at(safe_x, safe_y).is_open(),
{
}

/// On a board fresh from the generator every tile without a mine, but for
/// the tile of the first move, carries the number of the mines on the cells
/// of the board around it.
pub proof fn lemma_numbers_count_mines(g: Grid, safe_x: int, safe_y: int, x: int, y: int)
    requires
        g.is_fresh(safe_x, safe_y),
        g.in_bounds(x, y),
        !g.at(x, y).is_mine,
        !(x == safe_x && y == safe_y),
    ensures
        g.at(x, y).number == g.mines_around(x, y),
        0 <= g.at(x, y).number <= 8,
{
}

/// A cell off the board counts for no mine, so that the cells around a tile
/// on the edge of the board are counted as far as the board goes.
pub proof fn lemma_no_mine_off_the_board(g: Grid, x: int, y: int)
    requires
        !g.in_bounds(x, y),
    ensures
        g.mine_at(x, y) == 0,
{
}

/// `rand::rngs::ThreadRng`, the handle of a thread's random number
/// generator. Nothing is known of what it holds.
#[verifier::external_type_specification]
#[verifier::external_body]
pub struct ExThreadRng(rand::rngs::ThreadRng);

/// Calls `rand::thread_rng`, which hands out the random number generator of
/// the running thread. Nothing is claimed of the generator. (The call
/// panics where the system gives the generator no seed.)
#[verifier::external_body]
fn thread_rng() -> (rng: ThreadRng) {
    rand::thread_rng()
}

/// Calls `rand::Rng::gen_range` on the thread's generator, for `u32`.
/// Claimed, as documented there: the number drawn is at least `low` and
/// less than `high`. Which number it is, is left open, and two calls may
/// differ. The call panics unless `low < high`, hence the `requires`.
#[verifier::external_body]
fn gen_range(rng: &mut ThreadRng, low: u32, high: u32) -> (roll: u32)
    requires
        low < high,
    ensures
        low <= roll < high,
{
    rng.gen_range(low, high)
}

/// Whether a roll out of a hundred puts a mine on a tile, at a density of
/// `mine_density` percent.
pub fn is_mine_roll(roll: u32, mine_density: u32) -> (mine: bool)
    ensures
        mine == (roll < mine_density),
{
    roll < mine_density
}

/// Draws, for each of `count` tiles, whether it holds a mine: each with a
/// chance of `mine_density` in a hundred, whatever the others hold.
pub fn draw_mines(count: usize, mine_density: u32) -> (mines: Vec<bool>)
    ensures
        mines@.len() == count,
        mine_density == 0 ==> forall|i: int| 0 <= i < count ==> !mines@[i],
        mine_density >= 100 ==> forall|i: int| 0 <= i < count ==> mines@[i],
{
    let mut rng = thread_rng();
    let mut mines: Vec<bool> = Vec::new();
    let mut k: usize = 0;
    while k < count
        invariant
            k <= count,
            mines@.len() == k,
            mine_density == 0 ==> forall|i: int| 0 <= i < k ==> !mines@[i],
            mine_density >= 100 ==> forall|i: int| 0 <= i < k ==> mines@[i],
        decreases count - k,
    {
        let roll = gen_range(&mut rng, 0, 100);
        mines.push(is_mine_roll(roll, mine_density));
        k += 1;
    }
    mines
}

/// 1 if `(x, y)` is a cell of the board that holds a mine, else 0.
pub fn get_minefield_number(minefield: &Minefield, x: usize, y: usize) -> (n: i8)
    requires
        minefield.wf(),
    ensures
        n == minefield@.mine_at(x as int, y as int),
{
    if x < minefield.width() && y < minefield.height() && minefield.tile(x, y).is_mine {
        1
    } else {
        0
    }
}

/// The number of mines around the tile at `(x, y)`.
pub fn count_mines_around(minefield: &Minefield, x: usize, y: usize) -> (n: i8)
    requires
        minefield.wf(),
        minefield@.in_bounds(x as int, y as int),
    ensures
        n == minefield@.mines_around(x as int, y as int),
        0 <= n <= 8,
{
    proof {
        minefield.lemma_fits();
    }
    // On the top row and in the left column the tiles above and to the left
    // are not looked at: they would lie off the board.
    let mut total = get_minefield_number(minefield, x + 1, y) + get_minefield_number(
        minefield,
        x + 1,
        y + 1,
    ) + get_minefield_number(minefield, x, y + 1);

    if x >= 1 {
        total += get_minefield_number(minefield, x - 1, y + 1) + get_minefield_number(
            minefield,
            x - 1,
            y,
        );
    }
    if y >= 1 {
        total += get_minefield_number(minefield, x, y - 1) + get_minefield_number(
            minefield,
            x + 1,
            y - 1,
        );
    }
    if x >= 1 && y >= 1 {
        total += get_minefield_number(minefield, x - 1, y - 1);
    }
    total
}

/// Whether the tile at `(x, y)` of a board with `height` rows is to hold a
/// mine, where `mines` names the mines and the first move is at
/// `(safe_x, safe_y)`.
pub open spec fn mine_due(
    height: nat,
    mines: Seq<bool>,
    safe_x: int,
    safe_y: int,
    x: int,
    y: int,
) -> bool {
    !(x == safe_x && y == safe_y) && slot_of(height, x, y) < mines.len() && mines[slot_of(
        height,
        x,
        y,
    )]
}

/// Puts on a blank board the mines that `mines` names, and none on the tile
/// at `(pos_x, pos_y)`.
fn place_mines(field: &mut Minefield, mines: &Vec<bool>, pos_x: usize, pos_y: usize)
    requires
        old(field).wf(),
        old(field)@.is_blank(),
    ensures
        final(field).wf(),
        final(field)@.same_size(old(field)@),
        forall|x: int, y: int|
            old(field)@.in_bounds(x, y) ==> #[trigger] final(field)@.at(x, y) == (Tile {
                is_mine: mine_due(old(field)@.height, mines@, pos_x as int, pos_y as int, x, y),
                ..Tile::blank()
            }),
{
    let ghost g0 = field@;
    let width = field.width();
    let height = field.height();
    let mut x: usize = 0;
    while x < width
        invariant
            field.wf(),
            field@.same_size(g0),
            width == g0.width,
            height == g0.height,
            x <= width,
            forall|px: int, py: int|
                g0.in_bounds(px, py) ==> #[trigger] field@.at(px, py) == (Tile {
                    is_mine: px < x && mine_due(
                        g0.height,
                        mines@,
                        pos_x as int,
                        pos_y as int,
                        px,
                        py,
                    ),
                    ..Tile::blank()
                }),
        decreases width - x,
    {
        let mut y: usize = 0;
        while y < height
            invariant
                field.wf(),
                field@.same_size(g0),
                width == g0.width,
                height == g0.height,
                x < width,
                y <= height,
                forall|px: int, py: int|
                    g0.in_bounds(px, py) ==> #[trigger] field@.at(px, py) == (Tile {
                        is_mine: (px < x || (px == x && py < y)) && mine_due(
                            g0.height,
                            mines@,
                            pos_x as int,
                            pos_y as int,
                            px,
                            py,
                        ),
                        ..Tile::blank()
                    }),
            decreases height - y,
        {
            let k = field.index(x, y);
            let mine = !(x == pos_x && y == pos_y) && k < mines.len() && mines[k];
            let ghost before = field@;
            let tile = Tile { is_mine: mine, ..Tile::new(0) };
            field.set_tile(x, y, tile);
            proof {
                lemma_put_at(before, x as int, y as int, tile);
            }
            y += 1;
        }
        x += 1;
    }
}

/// Writes on every tile of a board with its mines in place the number due
/// to it for a first move at `(pos_x, pos_y)`.
fn number_tiles(field: &mut Minefield, pos_x: usize, pos_y: usize)
    requires
        old(field).wf(),
        old(field)@.in_bounds(pos_x as int, pos_y as int),
        forall|x: int, y: int|
            old(field)@.in_bounds(x, y) ==> #[trigger] old(field)@.at(x, y) == (Tile {
                is_mine: old(field)@.at(x, y).is_mine,
                ..Tile::blank()
            }),
    ensures
        final(field).wf(),
        final(field)@.same_size(old(field)@),
        forall|x: int, y: int|
            old(field)@.in_bounds(x, y) ==> #[trigger] final(field)@.at(x, y) == (Tile {
                number: final(field)@.number_due(pos_x as int, pos_y as int, x, y) as i8,
                ..old(field)@.at(x, y)
            }),
        forall|x: int, y: int|
            old(field)@.in_bounds(x, y) ==> 0 <= #[trigger] final(field)@.number_due(
                pos_x as int,
                pos_y as int,
                x,
                y,
            ) <= 8,
{
    let ghost g0 = field@;
    let ghost sx = pos_x as int;
    let ghost sy = pos_y as int;
    let width = field.width();
    let height = field.height();
    let mut x: usize = 0;
    while x < width
        invariant
            field.wf(),
            field@.same_size(g0),
            width == g0.width,
            height == g0.height,
            x <= width,
            forall|px: int, py: int|
                g0.in_bounds(px, py) ==> #[trigger] field@.at(px, py) == (Tile {
                    number: if px < x {
                        g0.number_due(sx, sy, px, py) as i8
                    } else {
                        0i8
                    },
                    ..g0.at(px, py)
                }),
            forall|px: int, py: int|
                g0.in_bounds(px, py) ==> 0 <= #[trigger] g0.number_due(sx, sy, px, py) <= 8,
            forall|px: int, py: int|
                g0.in_bounds(px, py) ==> (#[trigger] g0.at(px, py)).number == 0,
            sx == pos_x,
            sy == pos_y,
        decreases width - x,
    {
        let mut y: usize = 0;
        while y < height
            invariant
                field.wf(),
                field@.same_size(g0),
                width == g0.width,
                height == g0.height,
                x < width,
                y <= height,
                forall|px: int, py: int|
                    g0.in_bounds(px, py) ==> #[trigger] field@.at(px, py) == (Tile {
                        number: if px < x || (px == x && py < y) {
                            g0.number_due(sx, sy, px, py) as i8
                        } else {
                            0i8
                        },
                        ..g0.at(px, py)
                    }),
                forall|px: int, py: int|
                    g0.in_bounds(px, py) ==> 0 <= #[trigger] g0.number_due(sx, sy, px, py) <= 8,
                forall|px: int, py: int|
                    g0.in_bounds(px, py) ==> (#[trigger] g0.at(px, py)).number == 0,
                sx == pos_x,
                sy == pos_y,
            decreases height - y,
        {
            let t = field.tile(x, y);
            if !(pos_x == x && pos_y == y) && !t.is_mine {
                proof {
                    lemma_same_mines_around(g0, field@, x as int, y as int);
                }
                let n = count_mines_around(field, x, y);
                let ghost before = field@;
                let tile = Tile { number: n, ..t };
                field.set_tile(x, y, tile);
                proof {
                    lemma_put_at(before, x as int, y as int, tile);
                }
            }
            y += 1;
        }
        x += 1;
    }
    proof {
        assert forall|px: int, py: int| g0.in_bounds(px, py) implies field@.number_due(sx, sy, px, py)
            == g0.number_due(sx, sy, px, py) by {
            lemma_same_mines_around(g0, field@, px, py);
        }
    }
}

/// Two boards of one size with their mines on the same tiles have the same
/// number of mines around every cell.
pub proof fn lemma_same_mines_around(a: Grid, b: Grid, x: int, y: int)
    requires
        a.same_size(b),
        forall|px: int, py: int|
            a.in_bounds(px, py) ==> (#[trigger] a.at(px, py)).is_mine == b.at(px, py).is_mine,
    ensures
        a.mines_around(x, y) == b.mines_around(x, y),
        0 <= a.mines_around(x, y) <= 8,
{
    assert forall|px: int, py: int| a.mine_at(px, py) == b.mine_at(px, py) by {
        if a.in_bounds(px, py) {
            assert(a.at(px, py).is_mine == b.at(px, py).is_mine);
        }
    }
}

/// The board of the given size with its mines where `mines` names them, tile
/// by tile in the order of the board's tiles, and laid out for a first move
/// at `(pos_x, pos_y)`: that tile holds no mine and carries a 0, whatever
/// `mines` says of it and whatever lies around it; a mine carries a 0; and
/// every other tile carries the number of mines around it. All tiles are
/// hidden and without a flag. Tiles that `mines` does not reach hold no
/// mine.
pub fn generate_minefield(
    width: usize,
    height: usize,
    mines: &Vec<bool>,
    pos_x: usize,
    pos_y: usize,
) -> (field: Minefield)
    requires
        width * height <= usize::MAX,
        pos_x < width,
        pos_y < height,
    ensures
        field.wf(),
        field@.width == width,
        field@.height == height,
        field@.laid_out(mines@, pos_x as int, pos_y as int),
        field@.is_fresh(pos_x as int, pos_y as int),
{
    let mut field = Minefield::new(width, height);
    place_mines(&mut field, mines, pos_x, pos_y);
    number_tiles(&mut field, pos_x, pos_y);
    field
}

/// A board of the given size with mines drawn at random, each tile with a
/// chance of `mine_density` in a hundred, and laid out for a first move at
/// `(pos_x, pos_y)`, which holds no mine and carries a 0.
pub fn generate(
    pos_x: usize,
    pos_y: usize,
    width: usize,
    height: usize,
    mine_density: u32,
) -> (field: Minefield)
    requires
        width * height <= usize::MAX,
        pos_x < width,
        pos_y < height,
    ensures
        field.wf(),
        field@.width == width,
        field@.height == height,
        field@.is_fresh(pos_x as int, pos_y as int),
        mine_density == 0 ==> field@.no_mines(),
        mine_density >= 100 ==> field@.all_mines_but(pos_x as int, pos_y as int),
{
    let mines = draw_mines(width * height, mine_density);
    let field = generate_minefield(width, height, &mines, pos_x, pos_y);
    proof {
        if mine_density == 0 {
            assert forall|x: int, y: int| field@.in_bounds(x, y) implies !(#[trigger] field@.at(
                x,
                y,
            )).is_mine by {
                lemma_slot_in_range(field@, x, y);
            }
        }
        if mine_density >= 100 {
            assert forall|x: int, y: int|
                field@.in_bounds(x, y) && !(x == pos_x && y == pos_y) implies (#[trigger] field@.at(
                x,
                y,
            )).is_mine by {
                lemma_slot_in_range(field@, x, y);
            }
        }
    }
    field
}

} // verus!
