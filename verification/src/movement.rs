use vstd::prelude::*;

verus! {

/// The four edges a shift can compact the board toward.
#[derive(Copy, Clone, Debug, PartialEq, Eq, Structural)]
pub enum Direction {
    Down,
    Left,
    Right,
    Up,
}

/// The representation of each of game movement.
#[derive(Copy, Clone, Debug, PartialEq, Eq, Structural)]
pub enum Move {
    Shift(Direction),
    Undo,
}

/// The move a one-character command names, if any: `w`, `a`, `s` and `d`
/// shift up, left, down and right, and `u` undoes.
pub open spec fn spec_parse(s: Seq<char>) -> Result<Move, ()> {
    if s.len() != 1 {
        Err(())
    } else if s[0] == 'w' {
        Ok(Move::Shift(Direction::Up))
    } else if s[0] == 'a' {
        Ok(Move::Shift(Direction::Left))
    } else if s[0] == 's' {
        Ok(Move::Shift(Direction::Down))
    } else if s[0] == 'd' {
        Ok(Move::Shift(Direction::Right))
    } else if s[0] == 'u' {
        Ok(Move::Undo)
    } else {
        Err(())
    }
}

/// Maps a textual command to a `Move`; anything but the five known
/// one-character commands is rejected.
pub fn parse_input(inp: &str) -> (r: Result<Move, ()>)
    ensures
        r == spec_parse(inp@),
{
    if inp.unicode_len() != 1 {
        return Err(());
    }
    match inp.get_char(0) {
        'w' => Ok(Move::Shift(Direction::Up)),
        'a' => Ok(Move::Shift(Direction::Left)),
        's' => Ok(Move::Shift(Direction::Down)),
        'd' => Ok(Move::Shift(Direction::Right)),
        'u' => Ok(Move::Undo),
        _ => Err(()),
    }
}

} // verus!
