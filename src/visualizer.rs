use vstd::prelude::*;

verus! {

/// The colour, as red, green and blue, in which the viewer draws a cell.
pub open spec fn color_of(c: char) -> (u8, u8, u8) {
    if c == '@' {
        (255, 100, 100)
    } else if c == 'a' {
        (255, 50, 50)
    } else if c == '$' {
        (100, 100, 255)
    } else if c == 's' {
        (50, 50, 255)
    } else {
        (200, 200, 200)
    }
}

/// The colour of a cell: light and bright red for player 1's territory and
/// last piece, light and bright blue for player 2's, grey for anything else.
pub fn cell_color(c: char) -> (r: (u8, u8, u8))
    ensures
        r == color_of(c),
{
    match c {
        '@' => (255, 100, 100),
        'a' => (255, 50, 50),
        '$' => (100, 100, 255),
        's' => (50, 50, 255),
        _ => (200, 200, 200),
    }
}

/// The channel from the bot to the board viewer: it holds the latest board
/// published and not yet taken; a newer board replaces an older one.
pub struct VisualizerHandle {
    pub board_data: Option<(usize, usize, Vec<Vec<char>>)>,
}

impl VisualizerHandle {
    pub fn new() -> (r: Self)
        ensures
            r.board_data is None,
    {
        Self { board_data: None }
    }

    /// Publishes a board, replacing any that the viewer has not taken yet.
    pub fn update_board(&mut self, width: usize, height: usize, board: Vec<Vec<char>>)
        ensures
            final(self).board_data == Some((width, height, board)),
    {
        self.board_data = Some((width, height, board));
    }

    /// Takes the latest board published, leaving none.
    pub fn take_board(&mut self) -> (r: Option<(usize, usize, Vec<Vec<char>>)>)
        ensures
            r == old(self).board_data,
            final(self).board_data is None,
    {
        self.board_data.take()
    }
}

} // verus!
