use vstd::prelude::*;

verus! {

/// A player's identity: its number and the two symbols that mark its cells
/// on the board.
pub struct Player {
    pub number: u8,
    /// Marks cells captured on earlier turns.
    pub territory_symbol: char,
    /// Marks the cells of the piece placed on the last turn.
    pub last_placed_symbol: char,
}

impl Player {
    /// Player 1 plays `@` / `a`; any other number is player 2 with `$` / `s`.
    pub open spec fn spec_new(number: u8) -> Player {
        if number == 1 {
            Player { number: 1, territory_symbol: '@', last_placed_symbol: 'a' }
        } else {
            Player { number: 2, territory_symbol: '$', last_placed_symbol: 's' }
        }
    }

    /// The symbols are those of player 1 or of player 2.
    pub open spec fn wf(&self) -> bool {
        *self == Player::spec_new(self.number) && (self.number == 1 || self.number == 2)
    }

    /// Whether `c` marks a cell that this player owns.
    pub open spec fn owns(&self, c: char) -> bool {
        c == self.territory_symbol || c == self.last_placed_symbol
    }

    pub fn new(number: u8) -> (r: Self)
        ensures
            r == Player::spec_new(number),
            r.wf(),
    {
        if number == 1 {
            Self { number: 1, territory_symbol: '@', last_placed_symbol: 'a' }
        } else {
            Self { number: 2, territory_symbol: '$', last_placed_symbol: 's' }
        }
    }

    /// Whether `c` marks a cell that this player owns.
    pub fn owns_cell(&self, c: char) -> (r: bool)
        ensures
            r == self.owns(c),
    {
        c == self.territory_symbol || c == self.last_placed_symbol
    }
}

} // verus!
