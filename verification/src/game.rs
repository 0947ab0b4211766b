//! The course of a game: the keys the player presses, the cursor they move,
//! and the way a game is started, played, lost and won.

use vstd::prelude::*;
use crate::generate_map::generate;
use crate::minefield::{
    is_in_minefield, lemma_grid_ext, lemma_put_at, lemma_reveal_keeps_flagged_tile,
    lemma_reveal_keeps_size, lemma_uncovered_at, Grid, Minefield,
};
use crate::region::{lemma_filled, lemma_filled_at};

verus! {

/// The key that uncovers the tile under the cursor: Enter.
pub const KEY_REVEAL: i32 = 10;

/// The key that sets or clears a flag on the tile under the cursor: `f`.
pub const KEY_FLAG: i32 = 102;

/// The key that moves the cursor to the left: `h`.
pub const KEY_LEFT: i32 = 104;

/// The key that moves the cursor down: `j`.
pub const KEY_DOWN: i32 = 106;

/// The key that moves the cursor up: `k`.
pub const KEY_UP: i32 = 107;

/// The key that moves the cursor to the right: `l`.
pub const KEY_RIGHT: i32 = 108;

/// The column in which the cursor starts.
pub const START_X: i32 = 0;

/// The row in which the cursor starts, on a board that has such a row.
pub const START_Y: i32 = 5;

/// How far a game has come.
#[derive(Copy, Clone, Debug, PartialEq, Eq, Structural)]
pub enum GameStatus {
    /// No tile has been uncovered yet, and the mines are not laid.
    NotGenerated,
    /// The mines are laid and the game goes on.
    Playing,
    /// A mine has been uncovered.
    Lost,
    /// Every tile without a mine has been uncovered.
    Won,
}

/// What the player asks for with one key.
#[derive(Copy, Clone, Debug, PartialEq, Eq, Structural)]
pub enum Command {
    /// Uncover the tile under the cursor.
    Reveal,
    /// Set or clear the flag on the tile under the cursor.
    ToggleFlag,
    /// Move the cursor one column to the left.
    MoveLeft,
    /// Move the cursor one row down.
    MoveDown,
    /// Move the cursor one row up.
    MoveUp,
    /// Move the cursor one column to the right.
    MoveRight,
    /// Nothing: the key has no meaning.
    Nothing,
}

/// The command that a key stands for.
pub open spec fn command_of(key: i32) -> Command {
    if key == KEY_REVEAL {
        Command::Reveal
    } else if key == KEY_FLAG {
        Command::ToggleFlag
    } else if key == KEY_LEFT {
        Command::MoveLeft
    } else if key == KEY_DOWN {
        Command::MoveDown
    } else if key == KEY_UP {
        Command::MoveUp
    } else if key == KEY_RIGHT {
        Command::MoveRight
    } else {
        Command::Nothing
    }
}

/// The command that the key with the code `key` stands for.
pub fn command_for_key(key: i32) -> (command: Command)
    ensures
        command == command_of(key),
{
    match key {
        10 => Command::Reveal,
        102 => Command::ToggleFlag,
        104 => Command::MoveLeft,
        106 => Command::MoveDown,
        107 => Command::MoveUp,
        108 => Command::MoveRight,
        _ => Command::Nothing,
    }
}

/// The mathematical state of a game.
pub struct GameView {
    pub field: Grid,
    pub pos_x: int,
    pub pos_y: int,
    pub status: GameStatus,
    pub mine_density: u32,
    pub win_condition: bool,
}

impl GameView {
    /// The cursor stands on the board, whose sides a screen can count; the
    /// board is blank until the mines are laid, and wholly uncovered once
    /// the game is over.
    pub open spec fn wf(self) -> bool {
        &&& self.field.wf()
        &&& self.field.width <= i32::MAX
        &&& self.field.height <= i32::MAX
        &&& self.field.in_bounds(self.pos_x, self.pos_y)
        &&& self.status == GameStatus::NotGenerated ==> self.field.is_blank()
        &&& self.is_over() ==> self.field.all_discovered()
    }

    /// The game has been lost or won.
    pub open spec fn is_over(self) -> bool {
        self.status == GameStatus::Lost || self.status == GameStatus::Won
    }

    /// The game with the cursor moved by `(dx, dy)`, or as it is where that
    /// would take the cursor off the board.
    pub open spec fn moved(self, dx: int, dy: int) -> GameView {
        if self.field.in_bounds(self.pos_x + dx, self.pos_y + dy) {
            GameView { pos_x: self.pos_x + dx, pos_y: self.pos_y + dy, ..self }
        } else {
            self
        }
    }

    /// The game once the mines are laid: it is played on `fresh`.
    pub open spec fn started(self, fresh: Grid) -> GameView {
        GameView { field: fresh, status: GameStatus::Playing, ..self }
    }

    /// The game in play after the player has uncovered the tile under the
    /// cursor. An unflagged mine there loses the game. Else the game is
    /// won, where winning is switched on, once no tile without a mine is
    /// hidden any more. A game that ends has its whole board uncovered.
    pub open spec fn opened(self) -> GameView {
        let t = self.field.at(self.pos_x, self.pos_y);
        let board = self.field.revealed(self.pos_x, self.pos_y);
        if !t.is_flagged && t.is_mine {
            GameView { field: board.uncovered(), status: GameStatus::Lost, ..self }
        } else if self.win_condition && board.all_safe_discovered() {
            GameView { field: board.uncovered(), status: GameStatus::Won, ..self }
        } else {
            GameView { field: board, ..self }
        }
    }

    /// The game in play after the flag under the cursor has been toggled.
    pub open spec fn flagged(self) -> GameView {
        GameView { field: self.field.toggled(self.pos_x, self.pos_y), ..self }
    }

    /// The command is the first uncovering of a game, which lays the mines.
    pub open spec fn is_first_reveal(self, command: Command) -> bool {
        self.status == GameStatus::NotGenerated && command == Command::Reveal
    }

    /// The game after `command`, where `fresh` is the board that the first
    /// uncovering lays; no other command looks at `fresh`.
    ///
    /// A game that is over stays as it is. The cursor moves by one cell and
    /// stays on the board. A flag can be toggled once the mines are laid.
    /// The first uncovering starts the game on `fresh` and uncovers the tile
    /// under the cursor there; a later one uncovers it on the board in play.
    pub open spec fn after(self, command: Command, fresh: Grid) -> GameView {
        if self.is_over() {
            self
        } else {
            match command {
                Command::Nothing => self,
                Command::MoveLeft => self.moved(-1, 0),
                Command::MoveRight => self.moved(1, 0),
                Command::MoveUp => self.moved(0, -1),
                Command::MoveDown => self.moved(0, 1),
                Command::ToggleFlag => if self.status == GameStatus::Playing {
                    self.flagged()
                } else {
                    self
                },
                Command::Reveal => if self.status == GameStatus::NotGenerated {
                    self.started(fresh).opened()
                } else {
                    self.opened()
                },
            }
        }
    }

    /// `fresh` is a board that the first uncovering of this game may lay:
    /// of the size of the game's board, laid out for a first move under the
    /// cursor, without mines at a density of 0, and with a mine on every
    /// other tile at a density of 100 or more.
    pub open spec fn may_lay(self, fresh: Grid) -> bool {
        &&& fresh.same_size(self.field)
        &&& fresh.is_fresh(self.pos_x, self.pos_y)
        &&& self.mine_density == 0 ==> fresh.no_mines()
        &&& self.mine_density >= 100 ==> fresh.all_mines_but(self.pos_x, self.pos_y)
    }
}

/// The first uncovering of a game never loses it: it uncovers the tile under
/// the cursor, which holds no mine and carries a 0, and leaves the game in
/// play or won.
pub proof fn lemma_first_reveal_is_safe(g: GameView, fresh: Grid)
    requires
        g.wf(),
        g.status == GameStatus::NotGenerated,
        g.may_lay(fresh),
    ensures
        g.after(Command::Reveal, fresh).status != GameStatus::Lost,
        g.after(Command::Reveal, fresh).status != GameStatus::NotGenerated,
        g.after(Command::Reveal, fresh).field.at(g.pos_x, g.pos_y) == fresh.at(
            g.pos_x,
            g.pos_y,
        ).discovered(),
        !fresh.at(g.pos_x, g.pos_y).is_mine,
        fresh.at(g.pos_x, g.pos_y).number == 0,
{
    let t = fresh.at(g.pos_x, g.pos_y);
    let lifted = fresh.put(g.pos_x, g.pos_y, t.discovered());
    lemma_put_at(fresh, g.pos_x, g.pos_y, t.discovered());
    lemma_filled_at(lifted, g.pos_x, g.pos_y, g.pos_x, g.pos_y);
    lemma_filled(lifted, g.pos_x, g.pos_y);
    lemma_uncovered_at(lifted.filled(g.pos_x, g.pos_y));
}

/// Uncovering an unflagged mine loses the game, and the lost game shows
/// every tile of the board.
pub proof fn lemma_mine_loses(g: GameView)
    requires
        g.wf(),
        g.status == GameStatus::Playing,
        g.field.at(g.pos_x, g.pos_y).is_mine,
        !g.field.at(g.pos_x, g.pos_y).is_flagged,
    ensures
        g.after(Command::Reveal, g.field).status == GameStatus::Lost,
        g.after(Command::Reveal, g.field).field.all_discovered(),
        g.after(Command::Reveal, g.field).field == g.field.uncovered(),
{
    let t = g.field.at(g.pos_x, g.pos_y);
    let lifted = g.field.put(g.pos_x, g.pos_y, t.discovered());
    lemma_put_at(g.field, g.pos_x, g.pos_y, t.discovered());
    lemma_uncovered_at(lifted);
    lemma_uncovered_at(g.field);
    lemma_grid_ext(lifted.uncovered(), g.field.uncovered());
}

/// A game that is over takes no command any more.
pub proof fn lemma_over_is_final(g: GameView, command: Command, fresh: Grid)
    requires
        g.is_over(),
    ensures
        g.after(command, fresh) == g,
{
}

/// Whatever the command, the cursor stays on the board, and the board keeps
/// its size.
pub proof fn lemma_cursor_stays_on_board(g: GameView, command: Command, fresh: Grid)
    requires
        g.wf(),
        g.is_first_reveal(command) ==> g.may_lay(fresh),
    ensures
        g.after(command, fresh).field.same_size(g.field),
        g.after(command, fresh).field.in_bounds(
            g.after(command, fresh).pos_x,
            g.after(command, fresh).pos_y,
        ),
{
}

/// A tile that has been uncovered stays uncovered, whatever the command.
pub proof fn lemma_discovered_stays(g: GameView, command: Command, fresh: Grid, x: int, y: int)
    requires
        g.wf(),
        g.is_first_reveal(command) ==> g.may_lay(fresh),
        g.field.in_bounds(x, y),
        g.field.at(x, y).is_discovered,
    ensures
        g.after(command, fresh).field.at(x, y).is_discovered,
{
    if !g.is_over() && g.status == GameStatus::Playing {
        lemma_command_keeps_layout(g, command, x, y);
    }
}

/// In a game in play no command moves a mine or changes a number: a command
/// changes on a tile nothing but its flag or whether it is uncovered, and
/// never covers a tile.
pub proof fn lemma_command_keeps_layout(g: GameView, command: Command, x: int, y: int)
    requires
        g.wf(),
        g.status == GameStatus::Playing,
        g.field.in_bounds(x, y),
    ensures
        g.after(command, g.field).field.at(x, y).is_mine == g.field.at(x, y).is_mine,
        g.after(command, g.field).field.at(x, y).number == g.field.at(x, y).number,
        g.field.at(x, y).is_discovered ==> g.after(command, g.field).field.at(x, y) == g.field.at(
            x,
            y,
        ),
{
    let t = g.field.at(g.pos_x, g.pos_y);
    match command {
        Command::ToggleFlag => {
            lemma_put_at(g.field, g.pos_x, g.pos_y, t.with_flag(!t.is_flagged));
        },
        Command::Reveal => {
            let board = g.field.revealed(g.pos_x, g.pos_y);
            lemma_reveal_keeps_flagged_tile(g.field, g.pos_x, g.pos_y, x, y);
            lemma_reveal_keeps_size(g.field, g.pos_x, g.pos_y);
            lemma_uncovered_at(board);
        },
        _ => {},
    }
}

/// A game: the board, the cursor, and how far the game has come.
pub struct Game {
    field: Minefield,
    pos_x: i32,
    pos_y: i32,
    status: GameStatus,
    mine_density: u32,
    win_condition: bool,
}

impl View for Game {
    type V = GameView;

    closed spec fn view(&self) -> GameView {
        GameView {
            field: self.field@,
            pos_x: self.pos_x as int,
            pos_y: self.pos_y as int,
            status: self.status,
            mine_density: self.mine_density,
            win_condition: self.win_condition,
        }
    }
}

impl Game {
    /// The state of the game is sound.
    pub open spec fn wf(&self) -> bool {
        self@.wf()
    }

    /// A game on a blank board of the given size, with the cursor in the
    /// first column of the starting row, or of the last row on a board that
    /// ends above it. The first uncovering will lay mines at a density of
    /// `mine_density` percent; `win_condition` says whether the game can be
    /// won.
    ///
    /// There is no game on a board without tiles, nor on one with a side
    /// that a screen cannot count or with more tiles than memory can hold.
    pub fn new(width: usize, height: usize, mine_density: u32, win_condition: bool) -> (game:
        Option<Game>)
        ensures
            game is Some <==> 0 < width <= i32::MAX && 0 < height <= i32::MAX && width * height
                <= usize::MAX,
            game matches Some(g) ==> {
                &&& g.wf()
                &&& g@.field.width == width
                &&& g@.field.height == height
                &&& g@.pos_x == START_X
                &&& g@.pos_y == (if height > START_Y {
                    START_Y as int
                } else {
                    height - 1
                })
                &&& g@.status == GameStatus::NotGenerated
                &&& g@.mine_density == mine_density
                &&& g@.win_condition == win_condition
            },
    {
        if width == 0 || height == 0 || width > 0x7fff_ffff || height > 0x7fff_ffff {
            return None;
        }
        assert(width * height <= 0x7fff_ffff * 0x7fff_ffff) by (nonlinear_arith)
            requires
                0 <= width <= 0x7fff_ffff,
                0 <= height <= 0x7fff_ffff,
        ;
        let tiles: u64 = (width as u64) * (height as u64);
        if tiles > usize::MAX as u64 {
            return None;
        }
        let field = Minefield::new(width, height);
        let pos_y: i32 = if height > 5 {
            START_Y
        } else {
            (height - 1) as i32
        };
        Some(
            Game {
                field,
                pos_x: START_X,
                pos_y,
                status: GameStatus::NotGenerated,
                mine_density,
                win_condition,
            },
        )
    }

    /// How far the game has come.
    pub fn status(&self) -> (status: GameStatus)
        ensures
            status == self@.status,
    {
        self.status
    }

    /// Whether the game has been lost or won.
    pub fn is_over(&self) -> (over: bool)
        ensures
            over == self@.is_over(),
    {
        match self.status {
            GameStatus::Lost => true,
            GameStatus::Won => true,
            _ => false,
        }
    }

    /// The column and the row of the cursor.
    pub fn cursor(&self) -> (pos: (i32, i32))
        ensures
            pos.0 == self@.pos_x,
            pos.1 == self@.pos_y,
    {
        (self.pos_x, self.pos_y)
    }

    /// The board.
    pub fn field(&self) -> (field: &Minefield)
        ensures
            field@ == self@.field,
    {
        &self.field
    }

    /// Moves the cursor by `(dx, dy)`, unless that takes it off the board.
    fn move_cursor(&mut self, dx: i32, dy: i32)
        requires
            old(self).wf(),
            -1 <= dx <= 1,
            -1 <= dy <= 1,
        ensures
            final(self)@ == old(self)@.moved(dx as int, dy as int),
    {
        let x = self.pos_x + dx;
        let y = self.pos_y + dy;
        if is_in_minefield(&self.field, x, y) {
            self.pos_x = x;
            self.pos_y = y;
        }
    }

    /// Starts the game on the board `fresh`: the mines are laid.
    pub fn start(&mut self, fresh: Minefield)
        requires
            old(self).wf(),
            old(self)@.status == GameStatus::NotGenerated,
            fresh.wf(),
            fresh@.same_size(old(self)@.field),
        ensures
            final(self).wf(),
            final(self)@ == old(self)@.started(fresh@),
    {
        self.field = fresh;
        self.status = GameStatus::Playing;
    }

    /// Uncovers the tile under the cursor in a game in play, and ends the
    /// game where that loses or wins it.
    pub fn open(&mut self)
        requires
            old(self).wf(),
            old(self)@.status == GameStatus::Playing,
        ensures
            final(self).wf(),
            final(self)@ == old(self)@.opened(),
    {
        let x = self.pos_x as usize;
        let y = self.pos_y as usize;
        let hit = self.field.reveal_tile(x, y);
        if hit {
            self.status = GameStatus::Lost;
            self.field.reveal_all();
        } else if self.win_condition && self.field.all_safe_discovered() {
            self.status = GameStatus::Won;
            self.field.reveal_all();
        }
    }

    /// Carries out one command of the player.
    ///
    /// The first uncovering of a game lays the mines at random, so that the
    /// tile under the cursor holds none, and then uncovers that tile; every
    /// other command has one outcome.
    pub fn apply(&mut self, command: Command)
        requires
            old(self).wf(),
        ensures
            final(self).wf(),
            !old(self)@.is_first_reveal(command) ==> final(self)@ == old(self)@.after(
                command,
                old(self)@.field,
            ),
            old(self)@.is_first_reveal(command) ==> exists|fresh: Grid|
                old(self)@.may_lay(fresh) && final(self)@ == #[trigger] old(self)@.after(
                    command,
                    fresh,
                ),
    {
        if self.is_over() {
            return ;
        }
        match command {
            Command::Nothing => {},
            Command::MoveLeft => self.move_cursor(-1, 0),
            Command::MoveRight => self.move_cursor(1, 0),
            Command::MoveUp => self.move_cursor(0, -1),
            Command::MoveDown => self.move_cursor(0, 1),
            Command::ToggleFlag => {
                if self.status == GameStatus::Playing {
                    self.field.toggle_flag(self.pos_x as usize, self.pos_y as usize);
                }
            },
            Command::Reveal => {
                if self.status == GameStatus::NotGenerated {
                    proof {
                        self.field.lemma_fits();
                    }
                    let fresh = generate(
                        self.pos_x as usize,
                        self.pos_y as usize,
                        self.field.width(),
                        self.field.height(),
                        self.mine_density,
                    );
                    let ghost laid = fresh@;
                    self.start(fresh);
                    self.open();
                    proof {
                        assert(old(self)@.may_lay(laid));
                        assert(self@ == old(self)@.after(command, laid));
                    }
                } else {
                    self.open();
                }
            },
        }
    }
}

} // verus!
