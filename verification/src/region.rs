//! What uncovering an empty tile uncovers with it: the region of empty tiles
//! around it and the numbered tiles on that region's border.

use vstd::prelude::*;
use crate::minefield::{
    adjacent, lemma_grid_ext, lemma_put_at, lemma_slot_covers, lemma_slot_in_range,
    lemma_slot_injective, Grid, Minefield,
};
use crate::tile::Tile;

verus! {

impl Grid {
    /// `walk` starts at the open tile `(sx, sy)` and goes from each cell to
    /// one that shares an edge with it, over open tiles that are still
    /// hidden.
    pub open spec fn is_zero_walk(self, sx: int, sy: int, walk: Seq<(int, int)>) -> bool {
        &&& walk.len() > 0
        &&& walk[0] == (sx, sy)
        &&& self.in_bounds(sx, sy)
        &&& self.at(sx, sy).is_open()
        &&& forall|i: int|
            0 < i < walk.len() ==> {
                let c = #[trigger] walk[i];
                &&& self.in_bounds(c.0, c.1)
                &&& self.at(c.0, c.1).is_open()
                &&& !self.at(c.0, c.1).is_discovered
                &&& adjacent(walk[i - 1], c)
            }
    }

    /// `(x, y)` belongs to the region of `(sx, sy)`: a walk over open, hidden
    /// tiles leads from the open tile `(sx, sy)` to it.
    pub open spec fn in_region(self, sx: int, sy: int, x: int, y: int) -> bool {
        exists|walk: Seq<(int, int)>| #[trigger]
            self.is_zero_walk(sx, sy, walk) && walk.last() == (x, y)
    }

    /// `(x, y)` lies on the border of the region of `(sx, sy)`: it holds no
    /// mine, has mines around it, and shares an edge with a tile of the
    /// region.
    pub open spec fn on_frontier(self, sx: int, sy: int, x: int, y: int) -> bool {
        &&& self.in_bounds(x, y)
        &&& !self.at(x, y).is_mine
        &&& self.at(x, y).number > 0
        &&& exists|mx: int, my: int| #[trigger]
            self.in_region(sx, sy, mx, my) && adjacent((mx, my), (x, y))
    }

    /// Filling from `(sx, sy)` uncovers `(x, y)`: the tile is the start
    /// itself, if that holds no mine, or belongs to the start's region or to
    /// the border of that region.
    pub open spec fn fill_reveals(self, sx: int, sy: int, x: int, y: int) -> bool {
        ||| x == sx && y == sy && self.in_bounds(x, y) && !self.at(x, y).is_mine
        ||| self.in_region(sx, sy, x, y)
        ||| self.on_frontier(sx, sy, x, y)
    }

    /// The board filled from `(sx, sy)`: the tiles that the fill uncovers
    /// are uncovered, and nothing else has changed.
    pub open spec fn filled(self, sx: int, sy: int) -> Grid {
        Grid {
            tiles: Seq::new(
                self.tiles.len(),
                |k: int|
                    if self.fill_reveals(sx, sy, k / (self.height as int), k % (self.height as int)) {
                        self.tiles[k].discovered()
                    } else {
                        self.tiles[k]
                    },
            ),
            ..self
        }
    }

    /// `after` is this board filled from `(sx, sy)`, told tile by tile.
    pub open spec fn fill_result(self, sx: int, sy: int, after: Grid) -> bool {
        &&& after.wf()
        &&& after.same_size(self)
        &&& forall|x: int, y: int|
            self.in_bounds(x, y) ==> #[trigger] after.at(x, y) == if self.fill_reveals(
                sx,
                sy,
                x,
                y,
            ) {
                self.at(x, y).discovered()
            } else {
                self.at(x, y)
            }
    }
}

/// The board filled from `(sx, sy)` is the one board of which `fill_result`
/// holds.
pub proof fn lemma_filled(g: Grid, sx: int, sy: int)
    requires
        g.wf(),
    ensures
        g.fill_result(sx, sy, g.filled(sx, sy)),
        forall|after: Grid| #[trigger] g.fill_result(sx, sy, after) ==> after == g.filled(sx, sy),
{
    let f = g.filled(sx, sy);
    assert forall|x: int, y: int| g.in_bounds(x, y) implies #[trigger] f.at(x, y) == if g.fill_reveals(
        sx,
        sy,
        x,
        y,
    ) {
        g.at(x, y).discovered()
    } else {
        g.at(x, y)
    } by {
        lemma_slot_in_range(g, x, y);
        let k = g.slot(x, y);
        lemma_slot_covers(g, k);
        lemma_slot_injective(g, x, y, k / (g.height as int), k % (g.height as int));
    }
    assert forall|after: Grid| #[trigger] g.fill_result(sx, sy, after) implies after == f by {
        lemma_grid_ext(after, f);
    }
}

/// A fill uncovers the tiles that it is to uncover and changes nothing else:
/// not another tile, and on no tile the mine, the number or the flag.
pub proof fn lemma_filled_at(g: Grid, sx: int, sy: int, x: int, y: int)
    requires
        g.wf(),
        g.in_bounds(x, y),
    ensures
        g.filled(sx, sy).at(x, y) == if g.fill_reveals(sx, sy, x, y) {
            g.at(x, y).discovered()
        } else {
            g.at(x, y)
        },
{
    lemma_filled(g, sx, sy);
}

/// A fill never uncovers a mine.
pub proof fn lemma_fill_spares_mines(g: Grid, sx: int, sy: int, x: int, y: int)
    requires
        g.wf(),
        g.in_bounds(x, y),
        g.at(x, y).is_mine,
    ensures
        !g.fill_reveals(sx, sy, x, y),
        g.filled(sx, sy).at(x, y) == g.at(x, y),
{
    if g.in_region(sx, sy, x, y) {
        lemma_region_is_open(g, sx, sy, x, y);
    }
    lemma_filled_at(g, sx, sy, x, y);
}

/// A fill from an open tile uncovers exactly the region of that tile and
/// the border of the region: after it, a tile is uncovered if and only if it
/// was so before or belongs to the one or the other.
pub proof fn lemma_fill_uncovers_region_and_border(g: Grid, sx: int, sy: int, x: int, y: int)
    requires
        g.wf(),
        g.in_bounds(sx, sy),
        g.at(sx, sy).is_open(),
        g.in_bounds(x, y),
    ensures
        g.filled(sx, sy).at(x, y).is_discovered <==> g.at(x, y).is_discovered || g.in_region(
            sx,
            sy,
            x,
            y,
        ) || g.on_frontier(sx, sy, x, y),
{
    lemma_filled_at(g, sx, sy, x, y);
    lemma_region_start(g, sx, sy);
}

/// A fill from a tile that is not open uncovers that tile, unless it holds a
/// mine, and no other.
pub proof fn lemma_fill_from_closed_tile(g: Grid, sx: int, sy: int)
    requires
        g.wf(),
        g.in_bounds(sx, sy),
        !g.at(sx, sy).is_open(),
    ensures
        g.filled(sx, sy) == if g.at(sx, sy).is_mine {
            g
        } else {
            g.put(sx, sy, g.at(sx, sy).discovered())
        },
{
    let after = if g.at(sx, sy).is_mine {
        g
    } else {
        g.put(sx, sy, g.at(sx, sy).discovered())
    };
    lemma_put_at(g, sx, sy, g.at(sx, sy).discovered());
    assert forall|x: int, y: int| !g.in_region(sx, sy, x, y) by {
        if g.in_region(sx, sy, x, y) {
            lemma_region_is_open(g, sx, sy, x, y);
        }
    }
    assert forall|x: int, y: int| !g.on_frontier(sx, sy, x, y) by {}
    lemma_filled(g, sx, sy);
    assert(g.fill_result(sx, sy, after));
}

/// An open tile belongs to its own region.
pub proof fn lemma_region_start(g: Grid, sx: int, sy: int)
    requires
        g.in_bounds(sx, sy),
        g.at(sx, sy).is_open(),
    ensures
        g.in_region(sx, sy, sx, sy),
{
    let walk = seq![(sx, sy)];
    assert(g.is_zero_walk(sx, sy, walk));
    assert(walk.last() == (sx, sy));
}

/// A region grows by every open, hidden tile that shares an edge with one of
/// its tiles.
pub proof fn lemma_region_step(g: Grid, sx: int, sy: int, cx: int, cy: int, nx: int, ny: int)
    requires
        g.in_region(sx, sy, cx, cy),
        adjacent((cx, cy), (nx, ny)),
        g.in_bounds(nx, ny),
        g.at(nx, ny).is_open(),
        !g.at(nx, ny).is_discovered,
    ensures
        g.in_region(sx, sy, nx, ny),
{
    let walk = choose|walk: Seq<(int, int)>| #[trigger]
        g.is_zero_walk(sx, sy, walk) && walk.last() == (cx, cy);
    let longer = walk.push((nx, ny));
    assert forall|i: int| 0 < i < longer.len() implies {
        let c = #[trigger] longer[i];
        &&& g.in_bounds(c.0, c.1)
        &&& g.at(c.0, c.1).is_open()
        &&& !g.at(c.0, c.1).is_discovered
        &&& adjacent(longer[i - 1], c)
    } by {
        if i < walk.len() {
            assert(longer[i] == walk[i]);
            assert(longer[i - 1] == walk[i - 1]);
        } else {
            assert(longer[i - 1] == walk.last());
        }
    }
    assert(longer[0] == walk[0]);
    assert(g.is_zero_walk(sx, sy, longer));
    assert(longer.last() == (nx, ny));
}

/// Every tile of a region lies on the board and is open, and so is the tile
/// that the region starts from.
pub proof fn lemma_region_is_open(g: Grid, sx: int, sy: int, x: int, y: int)
    requires
        g.in_region(sx, sy, x, y),
    ensures
        g.in_bounds(sx, sy),
        g.at(sx, sy).is_open(),
        g.in_bounds(x, y),
        g.at(x, y).is_open(),
        (x == sx && y == sy) || !g.at(x, y).is_discovered,
{
    let walk = choose|walk: Seq<(int, int)>| #[trigger]
        g.is_zero_walk(sx, sy, walk) && walk.last() == (x, y);
    if walk.len() > 1 {
        let c = walk[walk.len() - 1];
        assert(g.in_bounds(c.0, c.1));
    }
}

/// A set of cells that holds the start and, with each of its cells, every
/// open hidden tile that shares an edge with it, holds the whole region.
pub proof fn lemma_region_within(g: Grid, sx: int, sy: int, cells: Set<(int, int)>, x: int, y: int)
    requires
        cells.contains((sx, sy)),
        forall|cx: int, cy: int, nx: int, ny: int|
            #![trigger cells.contains((cx, cy)), g.at(nx, ny)]
            cells.contains((cx, cy)) && adjacent((cx, cy), (nx, ny)) && g.in_bounds(nx, ny)
                && g.at(nx, ny).is_open() && !g.at(nx, ny).is_discovered ==> cells.contains(
                (nx, ny),
            ),
        g.in_region(sx, sy, x, y),
    ensures
        cells.contains((x, y)),
{
    let walk = choose|walk: Seq<(int, int)>| #[trigger]
        g.is_zero_walk(sx, sy, walk) && walk.last() == (x, y);
    lemma_walk_within(g, sx, sy, cells, walk, walk.len() - 1);
}

/// Such a set holds every cell of a walk from the start.
proof fn lemma_walk_within(
    g: Grid,
    sx: int,
    sy: int,
    cells: Set<(int, int)>,
    walk: Seq<(int, int)>,
    i: int,
)
    requires
        cells.contains((sx, sy)),
        forall|cx: int, cy: int, nx: int, ny: int|
            #![trigger cells.contains((cx, cy)), g.at(nx, ny)]
            cells.contains((cx, cy)) && adjacent((cx, cy), (nx, ny)) && g.in_bounds(nx, ny)
                && g.at(nx, ny).is_open() && !g.at(nx, ny).is_discovered ==> cells.contains(
                (nx, ny),
            ),
        g.is_zero_walk(sx, sy, walk),
        0 <= i < walk.len(),
    ensures
        cells.contains(walk[i]),
    decreases i,
{
    if i > 0 {
        lemma_walk_within(g, sx, sy, cells, walk, i - 1);
        let c = walk[i - 1];
        let n = walk[i];
        assert(cells.contains((c.0, c.1)));
        assert(g.at(n.0, n.1).is_open());
        assert(cells.contains((n.0, n.1)));
    }
}

/// The neighbour `(nx, ny)` of an expanded tile has been dealt with: it is
/// uncovered, unless it lies off the board or holds a mine.
spec fn settled(g0: Grid, cur: Grid, nx: int, ny: int) -> bool {
    g0.in_bounds(nx, ny) && !g0.at(nx, ny).is_mine && g0.at(nx, ny).number >= 0 ==> cur.at(
        nx,
        ny,
    ).is_discovered
}

/// The four neighbours of `(cx, cy)` have been dealt with.
spec fn expanded(g0: Grid, cur: Grid, cx: int, cy: int) -> bool {
    &&& settled(g0, cur, cx + 1, cy)
    &&& settled(g0, cur, cx - 1, cy)
    &&& settled(g0, cur, cx, cy + 1)
    &&& settled(g0, cur, cx, cy - 1)
}

/// `(x, y)` is an open tile that the fill has uncovered, or the start.
spec fn newly_open(g0: Grid, cur: Grid, sx: int, sy: int, x: int, y: int) -> bool {
    &&& g0.in_bounds(x, y)
    &&& g0.at(x, y).is_open()
    &&& cur.at(x, y).is_discovered
    &&& (!g0.at(x, y).is_discovered || (x == sx && y == sy))
}

/// `b` has every tile uncovered that `a` has.
spec fn grows(a: Grid, b: Grid) -> bool {
    forall|x: int, y: int|
        a.in_bounds(x, y) && (#[trigger] a.at(x, y)).is_discovered ==> b.at(x, y).is_discovered
}

/// What holds while the board `g0` is being filled from `(sx, sy)`, of the
/// board `cur` reached so far and of the cells `queue` found so far.
spec fn filling(g0: Grid, cur: Grid, sx: int, sy: int, queue: Seq<(usize, usize)>) -> bool {
    &&& g0.wf()
    &&& g0.width <= usize::MAX
    &&& g0.height <= usize::MAX
    &&& cur.wf()
    &&& cur.same_size(g0)
    &&& g0.in_bounds(sx, sy)
    &&& g0.at(sx, sy).is_open()
    &&& forall|x: int, y: int|
        g0.in_bounds(x, y) ==> #[trigger] cur.at(x, y) == g0.at(x, y) || cur.at(x, y) == g0.at(
            x,
            y,
        ).discovered()
    &&& forall|x: int, y: int|
        g0.in_bounds(x, y) && (#[trigger] cur.at(x, y)).is_discovered && !g0.at(
            x,
            y,
        ).is_discovered ==> g0.fill_reveals(sx, sy, x, y)
    &&& forall|j: int|
        0 <= j < queue.len() ==> {
            let c = #[trigger] queue[j];
            &&& g0.in_bounds(c.0 as int, c.1 as int)
            &&& g0.at(c.0 as int, c.1 as int).is_open()
            &&& g0.in_region(sx, sy, c.0 as int, c.1 as int)
            &&& cur.at(c.0 as int, c.1 as int).is_discovered
        }
    &&& queue.no_duplicates()
    &&& queue.len() > 0
    &&& queue[0] == (sx as usize, sy as usize)
    &&& forall|x: int, y: int| #[trigger]
        newly_open(g0, cur, sx, sy, x, y) ==> queue.contains((x as usize, y as usize))
}

/// Cells of the board of which none occurs twice are no more than the board
/// has tiles.
proof fn lemma_distinct_cells_bounded(g: Grid, queue: Seq<(usize, usize)>)
    requires
        g.wf(),
        queue.no_duplicates(),
        forall|j: int| 0 <= j < queue.len() ==> g.in_bounds((#[trigger] queue[j]).0 as int, queue[j].1 as int),
    ensures
        queue.len() <= g.tiles.len(),
{
    let slots = Seq::new(queue.len(), |j: int| g.slot(queue[j].0 as int, queue[j].1 as int));
    assert forall|i: int, j: int| 0 <= i < slots.len() && 0 <= j < slots.len() && i != j implies slots[i] != slots[j] by {
        if slots[i] == slots[j] {
            lemma_slot_injective(g, queue[i].0 as int, queue[i].1 as int, queue[j].0 as int, queue[j].1 as int);
            assert(queue[i] == queue[j]);
        }
    }
    slots.unique_seq_to_set();
    let range = vstd::set_lib::set_int_range(0, g.tiles.len() as int);
    vstd::set_lib::lemma_int_range(0, g.tiles.len() as int);
    assert forall|k: int| slots.to_set().contains(k) implies range.contains(k) by {
        let j = choose|j: int| 0 <= j < slots.len() && slots[j] == k;
        lemma_slot_in_range(g, queue[j].0 as int, queue[j].1 as int);
    }
    vstd::set_lib::lemma_len_subset(slots.to_set(), range);
}

impl Minefield {
    /// Deals with the neighbour `(nx, ny)` of the region's tile `(cx, cy)`:
    /// uncovers it unless it holds a mine, and puts it in the queue if it is
    /// open and was hidden.
    fn visit(
        &mut self,
        nx: usize,
        ny: usize,
        queue: &mut Vec<(usize, usize)>,
        Ghost(g0): Ghost<Grid>,
        Ghost(sx): Ghost<int>,
        Ghost(sy): Ghost<int>,
        Ghost(cx): Ghost<int>,
        Ghost(cy): Ghost<int>,
    )
        requires
            old(self).wf(),
            filling(g0, old(self)@, sx, sy, old(queue)@),
            g0.in_region(sx, sy, cx, cy),
            adjacent((cx, cy), (nx as int, ny as int)),
            g0.in_bounds(nx as int, ny as int),
        ensures
            final(self).wf(),
            filling(g0, final(self)@, sx, sy, final(queue)@),
            settled(g0, final(self)@, nx as int, ny as int),
            grows(old(self)@, final(self)@),
            old(queue)@.len() <= final(queue)@.len(),
            forall|j: int| 0 <= j < old(queue)@.len() ==> final(queue)@[j] == old(queue)@[j],
    {
        let ghost before = self@;
        let ghost found = queue@;
        let t = self.tile(nx, ny);
        if !t.is_mine && !t.is_discovered {
            if t.number > 0 {
                self.set_tile(nx, ny, Tile { is_discovered: true, ..t });
                proof {
                    lemma_put_at(before, nx as int, ny as int, t.discovered());
                    assert(g0.on_frontier(sx, sy, nx as int, ny as int)) by {
                        assert(g0.in_region(sx, sy, cx, cy) && adjacent((cx, cy), (nx as int, ny as int)));
                    }
                    assert forall|x: int, y: int| #[trigger]
                        newly_open(g0, self@, sx, sy, x, y) implies found.contains((x as usize, y as usize)) by {
                        assert(newly_open(g0, before, sx, sy, x, y));
                    }
                }
            } else if t.number == 0 {
                self.set_tile(nx, ny, Tile { is_discovered: true, ..t });
                queue.push((nx, ny));
                proof {
                    lemma_put_at(before, nx as int, ny as int, t.discovered());
                    lemma_region_step(g0, sx, sy, cx, cy, nx as int, ny as int);
                    let now = queue@;
                    assert forall|j: int| 0 <= j < now.len() implies {
                        let c = #[trigger] now[j];
                        &&& g0.in_bounds(c.0 as int, c.1 as int)
                        &&& g0.at(c.0 as int, c.1 as int).is_open()
                        &&& g0.in_region(sx, sy, c.0 as int, c.1 as int)
                        &&& self@.at(c.0 as int, c.1 as int).is_discovered
                    } by {
                        if j < found.len() {
                            assert(now[j] == found[j]);
                        }
                    }
                    assert forall|i: int, j: int| 0 <= i < now.len() && 0 <= j < now.len() && i != j implies now[i] != now[j] by {
                        if i < found.len() {
                            assert(now[i] == found[i]);
                        }
                        if j < found.len() {
                            assert(now[j] == found[j]);
                        }
                    }
                    assert(now[0] == found[0]);
                    assert forall|x: int, y: int| #[trigger]
                        newly_open(g0, self@, sx, sy, x, y) implies now.contains((x as usize, y as usize)) by {
                        if x == nx && y == ny {
                            assert(now[now.len() - 1] == (x as usize, y as usize));
                        } else {
                            assert(newly_open(g0, before, sx, sy, x, y));
                            let j = choose|j: int| 0 <= j < found.len() && found[j] == (x as usize, y as usize);
                            assert(now[j] == found[j]);
                        }
                    }
                }
            }
        }
    }

    /// Uncovers what uncovering `(x, y)` brings with it, and returns the
    /// tiles of the region of `(x, y)` in the order in which they were found.
    ///
    /// A start that holds a mine is left alone. Any other start is
    /// uncovered; if it is open, so are the open hidden tiles that a walk
    /// over such tiles reaches from it, and the numbered tiles on their
    /// border. The tiles found wait in a queue, and a tile enters the queue
    /// only while it is hidden, so that none enters twice.
    pub fn flood_fill(&mut self, x: usize, y: usize) -> (visited: Vec<(usize, usize)>)
        requires
            old(self).wf(),
            old(self)@.in_bounds(x as int, y as int),
        ensures
            final(self).wf(),
            final(self)@ == old(self)@.filled(x as int, y as int),
            old(self)@.fill_result(x as int, y as int, final(self)@),
            visited@.no_duplicates(),
            visited@.len() <= old(self)@.width * old(self)@.height,
            old(self)@.at(x as int, y as int).is_open() ==> visited@.len() > 0 && visited@[0] == (
                x,
                y,
            ),
            !old(self)@.at(x as int, y as int).is_open() ==> visited@.len() == 0,
            forall|j: int|
                0 <= j < visited@.len() ==> old(self)@.in_region(
                    x as int,
                    y as int,
                    (#[trigger] visited@[j]).0 as int,
                    visited@[j].1 as int,
                ),
            forall|cx: int, cy: int| #[trigger]
                old(self)@.in_region(x as int, y as int, cx, cy) ==> visited@.contains(
                    (cx as usize, cy as usize),
                ),
    {
        let ghost g0 = self@;
        let ghost sx = x as int;
        let ghost sy = y as int;
        let mut queue: Vec<(usize, usize)> = Vec::new();
        let t = self.tile(x, y);
        if t.is_mine || t.number != 0 {
            if !t.is_mine {
                self.set_tile(x, y, Tile { is_discovered: true, ..t });
            }
            proof {
                lemma_put_at(g0, sx, sy, t.discovered());
                assert forall|cx: int, cy: int| !g0.in_region(sx, sy, cx, cy) by {
                    if g0.in_region(sx, sy, cx, cy) {
                        lemma_region_is_open(g0, sx, sy, cx, cy);
                    }
                }
                assert forall|cx: int, cy: int| !g0.on_frontier(sx, sy, cx, cy) by {}
                lemma_filled(g0, sx, sy);
                assert(g0.fill_result(sx, sy, self@));
            }
            return queue;
        }
        self.set_tile(x, y, Tile { is_discovered: true, ..t });
        queue.push((x, y));
        proof {
            self.lemma_fits();
            lemma_put_at(g0, sx, sy, t.discovered());
            lemma_region_start(g0, sx, sy);
            assert forall|px: int, py: int| #[trigger]
                newly_open(g0, self@, sx, sy, px, py) implies queue@.contains((px as usize, py as usize)) by {
                assert(queue@[0] == (px as usize, py as usize));
            }
            assert(filling(g0, self@, sx, sy, queue@));
        }
        let mut head: usize = 0;
        while head < queue.len()
            invariant
                self.wf(),
                filling(g0, self@, sx, sy, queue@),
                head <= queue.len(),
                forall|j: int|
                    0 <= j < head ==> expanded(
                        g0,
                        self@,
                        (#[trigger] queue@[j]).0 as int,
                        queue@[j].1 as int,
                    ),
            decreases g0.tiles.len() - head,
        {
            proof {
                lemma_distinct_cells_bounded(g0, queue@);
            }
            let (cx, cy) = queue[head];
            let ghost done = queue@;
            let ghost gx = cx as int;
            let ghost gy = cy as int;
            let width = self.width();
            let height = self.height();
            let ghost b0 = self@;
            if cx + 1 < width {
                self.visit(cx + 1, cy, &mut queue, Ghost(g0), Ghost(sx), Ghost(sy), Ghost(gx), Ghost(gy));
            }
            let ghost b1 = self@;
            if cx >= 1 {
                self.visit(cx - 1, cy, &mut queue, Ghost(g0), Ghost(sx), Ghost(sy), Ghost(gx), Ghost(gy));
            }
            let ghost b2 = self@;
            if cy + 1 < height {
                self.visit(cx, cy + 1, &mut queue, Ghost(g0), Ghost(sx), Ghost(sy), Ghost(gx), Ghost(gy));
            }
            let ghost b3 = self@;
            if cy >= 1 {
                self.visit(cx, cy - 1, &mut queue, Ghost(g0), Ghost(sx), Ghost(sy), Ghost(gx), Ghost(gy));
            }
            proof {
                let b4 = self@;
                assert(grows(b0, b1) && grows(b1, b2) && grows(b2, b3) && grows(b3, b4));
                lemma_settled_grows(g0, b1, b2, gx + 1, gy);
                lemma_settled_grows(g0, b2, b3, gx + 1, gy);
                lemma_settled_grows(g0, b3, b4, gx + 1, gy);
                lemma_settled_grows(g0, b2, b3, gx - 1, gy);
                lemma_settled_grows(g0, b3, b4, gx - 1, gy);
                lemma_settled_grows(g0, b3, b4, gx, gy + 1);
                assert(expanded(g0, b4, gx, gy));
                assert forall|j: int| 0 <= j < head + 1 implies expanded(
                    g0,
                    b4,
                    (#[trigger] queue@[j]).0 as int,
                    queue@[j].1 as int,
                ) by {
                    assert(queue@[j] == done[j]);
                    if j < head {
                        let px = done[j].0 as int;
                        let py = done[j].1 as int;
                        lemma_expanded_grows(g0, b0, b1, px, py);
                        lemma_expanded_grows(g0, b1, b2, px, py);
                        lemma_expanded_grows(g0, b2, b3, px, py);
                        lemma_expanded_grows(g0, b3, b4, px, py);
                    }
                }
            }
            head += 1;
        }
        proof {
            lemma_fill_complete(g0, self@, sx, sy, queue@);
            lemma_distinct_cells_bounded(g0, queue@);
            lemma_filled(g0, sx, sy);
        }
        queue
    }
}

/// A neighbour that has been dealt with stays so while tiles are uncovered.
proof fn lemma_settled_grows(g0: Grid, a: Grid, b: Grid, nx: int, ny: int)
    requires
        a.same_size(g0),
        grows(a, b),
        !g0.in_bounds(nx, ny) || settled(g0, a, nx, ny),
    ensures
        settled(g0, b, nx, ny),
{
    if g0.in_bounds(nx, ny) && a.at(nx, ny).is_discovered {
        assert(b.at(nx, ny).is_discovered);
    }
}

/// An expanded tile stays so while tiles are uncovered.
proof fn lemma_expanded_grows(g0: Grid, a: Grid, b: Grid, cx: int, cy: int)
    requires
        a.same_size(g0),
        grows(a, b),
        expanded(g0, a, cx, cy),
    ensures
        expanded(g0, b, cx, cy),
{
    lemma_settled_grows(g0, a, b, cx + 1, cy);
    lemma_settled_grows(g0, a, b, cx - 1, cy);
    lemma_settled_grows(g0, a, b, cx, cy + 1);
    lemma_settled_grows(g0, a, b, cx, cy - 1);
}

/// Once every cell in the queue has been expanded, an open hidden tile next
/// to an uncovered open tile of the fill has been uncovered too.
proof fn lemma_open_tiles_closed(
    g0: Grid,
    cur: Grid,
    sx: int,
    sy: int,
    queue: Seq<(usize, usize)>,
    cx: int,
    cy: int,
    nx: int,
    ny: int,
)
    requires
        filling(g0, cur, sx, sy, queue),
        forall|j: int|
            0 <= j < queue.len() ==> expanded(g0, cur, (#[trigger] queue[j]).0 as int, queue[j].1 as int),
        newly_open(g0, cur, sx, sy, cx, cy),
        adjacent((cx, cy), (nx, ny)),
        g0.in_bounds(nx, ny),
        g0.at(nx, ny).is_open(),
        !g0.at(nx, ny).is_discovered,
    ensures
        newly_open(g0, cur, sx, sy, nx, ny),
{
    assert(queue.contains((cx as usize, cy as usize)));
    let j = choose|j: int| 0 <= j < queue.len() && queue[j] == (cx as usize, cy as usize);
    assert(expanded(g0, cur, queue[j].0 as int, queue[j].1 as int));
    assert(settled(g0, cur, nx, ny));
}

/// Once every cell in the queue has been expanded, the queue holds the
/// region, and the region has been uncovered.
proof fn lemma_queue_holds_region(
    g0: Grid,
    cur: Grid,
    sx: int,
    sy: int,
    queue: Seq<(usize, usize)>,
    x: int,
    y: int,
)
    requires
        filling(g0, cur, sx, sy, queue),
        forall|j: int|
            0 <= j < queue.len() ==> expanded(g0, cur, (#[trigger] queue[j]).0 as int, queue[j].1 as int),
        g0.in_region(sx, sy, x, y),
    ensures
        newly_open(g0, cur, sx, sy, x, y),
        queue.contains((x as usize, y as usize)),
{
    let cells = Set::new(|c: (int, int)| newly_open(g0, cur, sx, sy, c.0, c.1));
    assert(queue[0] == (sx as usize, sy as usize));
    assert(newly_open(g0, cur, sx, sy, sx, sy));
    assert(cells.contains((sx, sy)));
    assert forall|cx: int, cy: int, nx: int, ny: int|
        #![trigger cells.contains((cx, cy)), g0.at(nx, ny)]
        cells.contains((cx, cy)) && adjacent((cx, cy), (nx, ny)) && g0.in_bounds(nx, ny) && g0.at(
            nx,
            ny,
        ).is_open() && !g0.at(nx, ny).is_discovered implies cells.contains((nx, ny)) by {
        lemma_open_tiles_closed(g0, cur, sx, sy, queue, cx, cy, nx, ny);
    }
    lemma_region_within(g0, sx, sy, cells, x, y);
    assert(cells.contains((x, y)));
}

/// Once every cell in the queue has been expanded, each tile that the fill
/// is to uncover has been uncovered.
proof fn lemma_fill_reaches(
    g0: Grid,
    cur: Grid,
    sx: int,
    sy: int,
    queue: Seq<(usize, usize)>,
    x: int,
    y: int,
)
    requires
        filling(g0, cur, sx, sy, queue),
        forall|j: int|
            0 <= j < queue.len() ==> expanded(g0, cur, (#[trigger] queue[j]).0 as int, queue[j].1 as int),
        g0.in_bounds(x, y),
        g0.fill_reveals(sx, sy, x, y),
    ensures
        cur.at(x, y).is_discovered,
{
    if g0.in_region(sx, sy, x, y) {
        lemma_queue_holds_region(g0, cur, sx, sy, queue, x, y);
    } else if g0.on_frontier(sx, sy, x, y) {
        let (mx, my) = choose|mx: int, my: int| #[trigger]
            g0.in_region(sx, sy, mx, my) && adjacent((mx, my), (x, y));
        lemma_queue_holds_region(g0, cur, sx, sy, queue, mx, my);
        let j = choose|j: int| 0 <= j < queue.len() && queue[j] == (mx as usize, my as usize);
        assert(expanded(g0, cur, queue[j].0 as int, queue[j].1 as int));
        assert(settled(g0, cur, x, y));
    } else {
        assert(queue[0] == (sx as usize, sy as usize));
    }
}

/// Once every cell in the queue has been expanded, the board is `g0` filled
/// from `(sx, sy)`, and the queue holds the region.
proof fn lemma_fill_complete(g0: Grid, cur: Grid, sx: int, sy: int, queue: Seq<(usize, usize)>)
    requires
        filling(g0, cur, sx, sy, queue),
        forall|j: int|
            0 <= j < queue.len() ==> expanded(g0, cur, (#[trigger] queue[j]).0 as int, queue[j].1 as int),
    ensures
        g0.fill_result(sx, sy, cur),
        forall|cx: int, cy: int| #[trigger]
            g0.in_region(sx, sy, cx, cy) ==> queue.contains((cx as usize, cy as usize)),
{
    assert forall|cx: int, cy: int| #[trigger] g0.in_region(sx, sy, cx, cy) implies queue.contains(
        (cx as usize, cy as usize),
    ) by {
        lemma_queue_holds_region(g0, cur, sx, sy, queue, cx, cy);
    }
    assert forall|x: int, y: int| g0.in_bounds(x, y) implies #[trigger] cur.at(x, y) == if g0.fill_reveals(
        sx,
        sy,
        x,
        y,
    ) {
        g0.at(x, y).discovered()
    } else {
        g0.at(x, y)
    } by {
        if g0.fill_reveals(sx, sy, x, y) {
            lemma_fill_reaches(g0, cur, sx, sy, queue, x, y);
        }
    }
}

} // verus!
