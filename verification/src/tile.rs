//! One cell of the board: what it holds and how it is shown.

use vstd::prelude::*;

verus! {

/// Colour pair of a flagged tile.
pub const PRESET_FLAG: i16 = 1;

/// Colour pair of a discovered tile with one mine around it.
pub const PRESET_ONE: i16 = 2;

/// Colour pair of a discovered tile with two mines around it.
pub const PRESET_TWO: i16 = 3;

/// Colour pair of a discovered tile with three mines around it.
pub const PRESET_THREE: i16 = 4;

/// Colour pair of a discovered tile with four mines around it.
pub const PRESET_FOUR: i16 = 5;

/// Colour pair of a discovered tile with five mines around it.
pub const PRESET_FIVE: i16 = 6;

/// Colour pair of a discovered tile with six mines around it.
pub const PRESET_SIX: i16 = 7;

/// The state of a single cell.
///
/// `number` is the count of mines among the neighbours and means something
/// only while `is_mine` is false.
#[derive(Copy, Clone, Debug)]
pub struct Tile {
    pub is_discovered: bool,
    pub number: i8,
    pub is_mine: bool,
    pub is_flagged: bool,
}

/// The character for the decimal digit `d`, for `0 <= d <= 9`.
pub open spec fn digit_symbol(d: int) -> char {
    ('0' as int + d) as char
}

/// The first character of the decimal notation of `n`, for an `n` that fits
/// in an `i8`: the minus sign for a negative number, else its leading digit.
pub open spec fn leading_symbol(n: int) -> char {
    if n < 0 {
        '-'
    } else if n >= 100 {
        digit_symbol(n / 100)
    } else if n >= 10 {
        digit_symbol(n / 10)
    } else {
        digit_symbol(n)
    }
}

fn digit_char(d: u8) -> (c: char)
    requires
        d <= 9,
    ensures
        c == digit_symbol(d as int),
{
    match d {
        0 => '0',
        1 => '1',
        2 => '2',
        3 => '3',
        4 => '4',
        5 => '5',
        6 => '6',
        7 => '7',
        8 => '8',
        _ => '9',
    }
}

impl Tile {
    /// The state in which every tile starts: hidden, unflagged, without a
    /// mine and with no mine around it.
    pub open spec fn blank() -> Tile {
        Tile { is_discovered: false, number: 0, is_mine: false, is_flagged: false }
    }

    /// The tile as it looks once it has been uncovered.
    pub open spec fn discovered(self) -> Tile {
        Tile { is_discovered: true, ..self }
    }

    /// The tile with its flag set to `flagged`.
    pub open spec fn with_flag(self, flagged: bool) -> Tile {
        Tile { is_flagged: flagged, ..self }
    }

    /// A tile that holds no mine and has no mine around it: uncovering it
    /// uncovers its surroundings.
    pub open spec fn is_open(self) -> bool {
        !self.is_mine && self.number == 0
    }

    /// The colour pair in which the tile is drawn, if any: the flag's pair on
    /// a flagged tile, and on an uncovered mine-free tile with one to six
    /// mines around it the pair of that count.
    pub open spec fn color(self) -> Option<i16> {
        if self.is_flagged {
            Some(PRESET_FLAG)
        } else if self.is_discovered && !self.is_mine && 1 <= self.number <= 6 {
            Some((self.number + 1) as i16)
        } else {
            None
        }
    }

    /// The character that stands for the tile on the screen.
    pub open spec fn repr(self) -> char {
        if self.is_flagged {
            'F'
        } else if !self.is_discovered {
            '*'
        } else if self.is_mine {
            'B'
        } else if self.number == 0 {
            ' '
        } else {
            leading_symbol(self.number as int)
        }
    }

    /// A hidden, unflagged, mine-free tile showing `number`.
    pub fn new(number: i8) -> (t: Tile)
        ensures
            t == (Tile { is_discovered: false, number, is_mine: false, is_flagged: false }),
    {
        Tile { number, is_discovered: false, is_mine: false, is_flagged: false }
    }

    /// The colour pair to draw the tile in, or `None` for the terminal's own
    /// colours.
    pub fn get_color(self) -> (c: Option<i16>)
        ensures
            c == self.color(),
    {
        if self.is_flagged {
            Some(PRESET_FLAG)
        } else if self.is_discovered == false || self.is_mine {
            None
        } else if self.number == 1 {
            Some(PRESET_ONE)
        } else if self.number == 2 {
            Some(PRESET_TWO)
        } else if self.number == 3 {
            Some(PRESET_THREE)
        } else if self.number == 4 {
            Some(PRESET_FOUR)
        } else if self.number == 5 {
            Some(PRESET_FIVE)
        } else if self.number == 6 {
            Some(PRESET_SIX)
        } else {
            None
        }
    }

    /// The character to draw for the tile.
    pub fn get_repr(self) -> (c: char)
        ensures
            c == self.repr(),
    {
        if self.is_flagged {
            'F'
        } else if self.is_discovered && self.is_mine {
            'B'
        } else if self.is_discovered && self.number == 0 {
            ' '
        } else if self.is_discovered {
            let n: i8 = self.number;
            if n < 0 {
                '-'
            } else if n >= 100 {
                digit_char((n / 100) as u8)
            } else if n >= 10 {
                digit_char((n / 10) as u8)
            } else {
                digit_char(n as u8)
            }
        } else {
            '*'
        }
    }
}

impl Default for Tile {
    /// The state in which every tile starts.
    fn default() -> (t: Tile)
        ensures
            t == Tile::blank(),
    {
        Tile::new(0)
    }
}

} // verus!
