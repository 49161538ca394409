use vstd::prelude::*;
use vstd::string::StrSliceExecFns;

verus! {

/// A move as a player names it: the letter of one of the player's six pits,
/// `A` for the pit farthest from the player's store.
#[derive(Debug, Clone, Copy, PartialEq, Eq)]
pub enum MancalaMove {
    A,
    B,
    C,
    D,
    E,
    F,
}

impl MancalaMove {
    /// The place of the move's pit among the six pits of a side.
    pub open spec fn index(self) -> int {
        match self {
            MancalaMove::A => 0,
            MancalaMove::B => 1,
            MancalaMove::C => 2,
            MancalaMove::D => 3,
            MancalaMove::E => 4,
            MancalaMove::F => 5,
        }
    }

    /// The move whose pit is at place `index` of a side.
    pub open spec fn at(index: int) -> Option<MancalaMove> {
        if index == 0 {
            Some(MancalaMove::A)
        } else if index == 1 {
            Some(MancalaMove::B)
        } else if index == 2 {
            Some(MancalaMove::C)
        } else if index == 3 {
            Some(MancalaMove::D)
        } else if index == 4 {
            Some(MancalaMove::E)
        } else if index == 5 {
            Some(MancalaMove::F)
        } else {
            None
        }
    }

    /// The letter of the move, in upper case.
    pub open spec fn letter(self) -> char {
        match self {
            MancalaMove::A => 'A',
            MancalaMove::B => 'B',
            MancalaMove::C => 'C',
            MancalaMove::D => 'D',
            MancalaMove::E => 'E',
            MancalaMove::F => 'F',
        }
    }

    /// The move that the character names, in upper or lower case.
    pub open spec fn named_by(c: char) -> Option<MancalaMove> {
        if c == 'A' || c == 'a' {
            Some(MancalaMove::A)
        } else if c == 'B' || c == 'b' {
            Some(MancalaMove::B)
        } else if c == 'C' || c == 'c' {
            Some(MancalaMove::C)
        } else if c == 'D' || c == 'd' {
            Some(MancalaMove::D)
        } else if c == 'E' || c == 'e' {
            Some(MancalaMove::E)
        } else if c == 'F' || c == 'f' {
            Some(MancalaMove::F)
        } else {
            None
        }
    }

    /// Reads a move: a single letter from `A` to `F`, in upper or lower case.
    pub fn from_string(str: &str) -> (mancala_move: Option<Self>)
        ensures
            mancala_move == (if str@.len() == 1 {
                Self::named_by(str@[0])
            } else {
                None
            }),
    {
        if str.unicode_len() != 1 {
            return None;
        }
        let c = str.get_char(0);
        if c == 'A' || c == 'a' {
            Some(Self::A)
        } else if c == 'B' || c == 'b' {
            Some(Self::B)
        } else if c == 'C' || c == 'c' {
            Some(Self::C)
        } else if c == 'D' || c == 'd' {
            Some(Self::D)
        } else if c == 'E' || c == 'e' {
            Some(Self::E)
        } else if c == 'F' || c == 'f' {
            Some(Self::F)
        } else {
            None
        }
    }

    /// The letter of the move, in upper case.
    pub fn to_str(&self) -> (letter: &str)
        ensures
            letter@ == seq![self.letter()],
    {
        proof {
            reveal_strlit("A");
            reveal_strlit("B");
            reveal_strlit("C");
            reveal_strlit("D");
            reveal_strlit("E");
            reveal_strlit("F");
        }
        let letter = match self {
            MancalaMove::A => "A",
            MancalaMove::B => "B",
            MancalaMove::C => "C",
            MancalaMove::D => "D",
            MancalaMove::E => "E",
            MancalaMove::F => "F",
        };
        assert(letter@ =~= seq![self.letter()]);
        letter
    }

    /// The move that plays from the cell `index` of the board: the cells of
    /// either side name the same six moves, and a store names none.
    pub fn from_index(index: &usize) -> (mancala_move: Option<Self>)
        ensures
            mancala_move == Self::at(*index as int % 7),
    {
        let place = *index % 7;
        if place == 0 {
            Some(Self::A)
        } else if place == 1 {
            Some(Self::B)
        } else if place == 2 {
            Some(Self::C)
        } else if place == 3 {
            Some(Self::D)
        } else if place == 4 {
            Some(Self::E)
        } else if place == 5 {
            Some(Self::F)
        } else {
            None
        }
    }

    /// The place of the move's pit among the six pits of a side.
    pub fn to_index(&self) -> (index: usize)
        ensures
            index == self.index(),
    {
        match self {
            MancalaMove::A => 0,
            MancalaMove::B => 1,
            MancalaMove::C => 2,
            MancalaMove::D => 3,
            MancalaMove::E => 4,
            MancalaMove::F => 5,
        }
    }
}

/// A move read back from the place or from the letter that it gives is the
/// move itself.
pub proof fn lemma_move_round_trip(mancala_move: MancalaMove)
    ensures
        MancalaMove::at(mancala_move.index()) == Some(mancala_move),
        MancalaMove::named_by(mancala_move.letter()) == Some(mancala_move),
{
}

} // verus!
