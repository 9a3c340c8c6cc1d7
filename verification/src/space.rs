//! The contents of one cell of a mine, its one-byte code and its map character.
use vstd::prelude::*;

verus! {

#[derive(Clone, Copy, PartialEq, Eq, Structural, Debug)]
pub enum Space {
    Robot,
    Wall,
    Rock,
    Lambda,
    ClosedLift,
    OpenLift,
    Earth,
    Empty,
    /// A trampoline, numbered from 1 (`A`) to 9 (`I`) on a map.
    Tramp(u8),
    /// A trampoline target, numbered from 1 to 9 on a map.
    Target(u8),
}

/// A cell's one-byte code, as an image stores it.
pub type SpaceCode = u8;

/// The codes that `space_show_` decodes: the plain cells are 0 to 7,
/// targets 48 to 63 and trampolines 64 to 79.
pub open spec fn code_valid(c: SpaceCode) -> bool {
    c < 8 || (48 <= c < 80)
}

pub open spec fn spec_show(c: SpaceCode) -> Space {
    if c == 0 {
        Space::Robot
    } else if c == 1 {
        Space::Wall
    } else if c == 2 {
        Space::Rock
    } else if c == 3 {
        Space::Lambda
    } else if c == 4 {
        Space::ClosedLift
    } else if c == 5 {
        Space::OpenLift
    } else if c == 6 {
        Space::Earth
    } else if c == 7 {
        Space::Empty
    } else if c >= 64 {
        Space::Tramp((c - 64) as u8)
    } else {
        Space::Target((c - 48) as u8)
    }
}

/// The spaces that have a code: trampoline and target numbers below 16.
pub open spec fn hideable(s: Space) -> bool {
    match s {
        Space::Tramp(x) => x < 16,
        Space::Target(x) => x < 16,
        _ => true,
    }
}

pub open spec fn spec_hide(s: Space) -> SpaceCode {
    match s {
        Space::Robot => 0,
        Space::Wall => 1,
        Space::Rock => 2,
        Space::Lambda => 3,
        Space::ClosedLift => 4,
        Space::OpenLift => 5,
        Space::Earth => 6,
        Space::Empty => 7,
        Space::Tramp(x) => (64 + x) as u8,
        Space::Target(x) => (48 + x) as u8,
    }
}

/// The spaces that a map can show: trampolines and targets numbered 1 to 9.
pub open spec fn printable(s: Space) -> bool {
    match s {
        Space::Tramp(x) => 1 <= x <= 9,
        Space::Target(x) => 1 <= x <= 9,
        _ => true,
    }
}

/// The codes of the spaces that a map can show.
pub open spec fn code_printable(c: SpaceCode) -> bool {
    code_valid(c) && printable(spec_show(c))
}

/// The characters of a map.
pub open spec fn map_char(c: char) -> bool {
    ||| c == 'R'
    ||| c == '#'
    ||| c == '*'
    ||| c == '\\'
    ||| c == 'L'
    ||| c == 'O'
    ||| c == '.'
    ||| c == ' '
    ||| ('A' <= c && c <= 'I')
    ||| ('1' <= c && c <= '9')
}

pub open spec fn spec_space_of_char(c: char) -> Space {
    if c == 'R' {
        Space::Robot
    } else if c == '#' {
        Space::Wall
    } else if c == '*' {
        Space::Rock
    } else if c == '\\' {
        Space::Lambda
    } else if c == 'L' {
        Space::ClosedLift
    } else if c == 'O' {
        Space::OpenLift
    } else if c == '.' {
        Space::Earth
    } else if c == ' ' {
        Space::Empty
    } else if 'A' <= c && c <= 'I' {
        Space::Tramp((c as int - 64) as u8)
    } else {
        Space::Target((c as int - 48) as u8)
    }
}

pub open spec fn spec_char_of_space(s: Space) -> char {
    match s {
        Space::Robot => 'R',
        Space::Wall => '#',
        Space::Rock => '*',
        Space::Lambda => '\\',
        Space::ClosedLift => 'L',
        Space::OpenLift => 'O',
        Space::Earth => '.',
        Space::Empty => ' ',
        Space::Tramp(x) => (x + 64) as char,
        Space::Target(x) => (x + 48) as char,
    }
}

/// Reads one map character.
pub fn space_of_char(c: char) -> (s: Space)
    requires
        map_char(c),
    ensures
        s == spec_space_of_char(c),
        printable(s),
{
    if c == 'R' {
        Space::Robot
    } else if c == '#' {
        Space::Wall
    } else if c == '*' {
        Space::Rock
    } else if c == '\\' {
        Space::Lambda
    } else if c == 'L' {
        Space::ClosedLift
    } else if c == 'O' {
        Space::OpenLift
    } else if c == '.' {
        Space::Earth
    } else if c == ' ' {
        Space::Empty
    } else if 'A' <= c && c <= 'I' {
        Space::Tramp((c as u32 - 64) as u8)
    } else {
        Space::Target((c as u32 - 48) as u8)
    }
}

/// Whether `c` is a map character.
pub fn is_map_char(c: char) -> (b: bool)
    ensures
        b == map_char(c),
{
    c == 'R' || c == '#' || c == '*' || c == '\\' || c == 'L' || c == 'O' || c == '.' || c == ' '
        || ('A' <= c && c <= 'I') || ('1' <= c && c <= '9')
}

/// The map character of a cell.
pub fn char_of_space(s: Space) -> (c: char)
    requires
        printable(s),
    ensures
        c == spec_char_of_space(s),
        map_char(c),
{
    match s {
        Space::Robot => 'R',
        Space::Wall => '#',
        Space::Rock => '*',
        Space::Lambda => '\\',
        Space::ClosedLift => 'L',
        Space::OpenLift => 'O',
        Space::Earth => '.',
        Space::Empty => ' ',
        Space::Tramp(x) => (x + 64) as char,
        Space::Target(x) => (x + 48) as char,
    }
}

/// Encodes a cell in one byte.
pub fn space_hide_(s: Space) -> (c: SpaceCode)
    requires
        hideable(s),
    ensures
        c == spec_hide(s),
        code_valid(c),
        spec_show(c) == s,
{
    match s {
        Space::Robot => 0,
        Space::Wall => 1,
        Space::Rock => 2,
        Space::Lambda => 3,
        Space::ClosedLift => 4,
        Space::OpenLift => 5,
        Space::Earth => 6,
        Space::Empty => 7,
        Space::Tramp(x) => 64 + x,
        Space::Target(x) => 48 + x,
    }
}

/// Decodes a cell's byte.
pub fn space_show_(c: SpaceCode) -> (s: Space)
    requires
        code_valid(c),
    ensures
        s == spec_show(c),
{
    let hi: u8 = c & 240u8;
    assert(hi == 0 <==> c < 16) by (bit_vector)
        requires
            hi == c & 240u8,
    ;
    assert(hi == 64 <==> 64 <= c < 80) by (bit_vector)
        requires
            hi == c & 240u8,
    ;
    if hi == 0 {
        if c == 0 {
            Space::Robot
        } else if c == 1 {
            Space::Wall
        } else if c == 2 {
            Space::Rock
        } else if c == 3 {
            Space::Lambda
        } else if c == 4 {
            Space::ClosedLift
        } else if c == 5 {
            Space::OpenLift
        } else if c == 6 {
            Space::Earth
        } else {
            Space::Empty
        }
    } else if hi == 64 {
        Space::Tramp(c - 64)
    } else {
        Space::Target(c - 48)
    }
}

/// Decoding undoes encoding.
pub proof fn lemma_show_hide(s: Space)
    requires
        hideable(s),
    ensures
        code_valid(spec_hide(s)),
        spec_show(spec_hide(s)) == s,
{
}

/// Encoding undoes decoding.
pub proof fn lemma_hide_show(c: SpaceCode)
    requires
        code_valid(c),
    ensures
        hideable(spec_show(c)),
        spec_hide(spec_show(c)) == c,
{
}

/// Printing a map character read from a map gives the character back.
pub proof fn lemma_char_space_char(c: char)
    requires
        map_char(c),
    ensures
        printable(spec_space_of_char(c)),
        spec_char_of_space(spec_space_of_char(c)) == c,
{
}

/// Reading the character of a printable cell gives the cell back.
pub proof fn lemma_space_char_space(s: Space)
    requires
        printable(s),
    ensures
        map_char(spec_char_of_space(s)),
        spec_space_of_char(spec_char_of_space(s)) == s,
{
}

} // verus!
