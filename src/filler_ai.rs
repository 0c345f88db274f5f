use vstd::prelude::*;

use crate::model::{manhattan, measure_cap, scan_before, BoardView, GameView, Measure, MAX_SIDE};
use crate::piece::Piece;
use crate::player::Player;
use crate::weights::ScoreWeights;

verus! {

/// The bot's state for one turn: the board, both players, the piece to place
/// and the heat map computed from the board.
pub struct FillerAi {
    pub board_width: usize,
    pub board_height: usize,
    /// The board, row by row.
    pub board: Vec<Vec<char>>,
    pub my_player: Player,
    pub opponent_player: Player,
    pub current_piece: Piece,
    /// One heat value per board cell, row by row.
    pub heat_map: Vec<Vec<i32>>,
}

impl View for FillerAi {
    type V = GameView;

    open spec fn view(&self) -> GameView {
        GameView {
            board: BoardView {
                width: self.board_width as int,
                height: self.board_height as int,
                cells: self.board@.map_values(|row: Vec<char>| row@),
                me: self.my_player,
                opponent: self.opponent_player,
            },
            piece: self.current_piece.cells(),
        }
    }
}

/// Whether `positions` lists the cell `(ox, oy)`.
pub open spec fn lists_cell(positions: Seq<(usize, usize)>, ox: int, oy: int) -> bool {
    exists|i: int| 0 <= i < positions.len() && #[trigger] positions[i] == (ox as usize, oy as usize)
}

/// Manhattan distance between two cells of a board within the size limit.
fn distance(ax: usize, ay: usize, bx: usize, by: usize) -> (d: usize)
    requires
        ax <= MAX_SIDE,
        ay <= MAX_SIDE,
        bx <= MAX_SIDE,
        by <= MAX_SIDE,
    ensures
        d == manhattan(ax as int, ay as int, bx as int, by as int),
{
    let dx = if ax < bx {
        bx - ax
    } else {
        ax - bx
    };
    let dy = if ay < by {
        by - ay
    } else {
        ay - by
    };
    dx + dy
}

/// Least Manhattan distance from `(x, y)` to a cell of `positions`.
fn nearest_distance(positions: &Vec<(usize, usize)>, x: usize, y: usize) -> (d: usize)
    requires
        positions.len() > 0,
        x <= MAX_SIDE,
        y <= MAX_SIDE,
        forall|i: int|
            0 <= i < positions.len() ==> #[trigger] positions[i].0 <= MAX_SIDE && positions[i].1
                <= MAX_SIDE,
    ensures
        exists|i: int|
            0 <= i < positions.len() && d == manhattan(
                x as int,
                y as int,
                #[trigger] positions[i].0 as int,
                positions[i].1 as int,
            ),
        forall|i: int|
            0 <= i < positions.len() ==> d <= manhattan(
                x as int,
                y as int,
                #[trigger] positions[i].0 as int,
                positions[i].1 as int,
            ),
{
    let mut best = distance(x, y, positions[0].0, positions[0].1);
    let mut i: usize = 1;
    while i < positions.len()
        invariant
            1 <= i <= positions.len(),
            x <= MAX_SIDE,
            y <= MAX_SIDE,
            forall|j: int|
                0 <= j < positions.len() ==> #[trigger] positions[j].0 <= MAX_SIDE
                    && positions[j].1 <= MAX_SIDE,
            exists|j: int|
                0 <= j < i && best == manhattan(
                    x as int,
                    y as int,
                    #[trigger] positions[j].0 as int,
                    positions[j].1 as int,
                ),
            forall|j: int|
                0 <= j < i ==> best <= manhattan(
                    x as int,
                    y as int,
                    #[trigger] positions[j].0 as int,
                    positions[j].1 as int,
                ),
        decreases positions.len() - i,
    {
        let d = distance(x, y, positions[i].0, positions[i].1);
        if d < best {
            best = d;
        }
        i += 1;
    }
    best
}

impl FillerAi {
    /// The heat map has one value per board cell, and each is the cell's heat.
    pub open spec fn heat_map_wf(&self) -> bool {
        &&& self.heat_map@.len() == self.board_height
        &&& forall|by: int|
            0 <= by < self.board_height ==> #[trigger] self.heat_map@[by]@.len()
                == self.board_width
        &&& forall|bx: int, by: int|
            self@.board.in_board(bx, by) ==> #[trigger] self.heat_map@[by]@[bx]
                == self@.board.heat_at(bx, by)
    }

    pub open spec fn wf(&self) -> bool {
        &&& self@.board.board_wf()
        &&& self@.board.players_wf()
        &&& self.heat_map_wf()
    }

    /// A bot playing as `my_player_number` (1, or else 2), with an empty
    /// board and an empty piece.
    pub fn new(my_player_number: u8) -> (r: Self)
        ensures
            r.wf(),
            r.my_player == Player::spec_new(my_player_number),
            r.opponent_player == Player::spec_new(
                if my_player_number == 1 {
                    2
                } else {
                    1
                },
            ),
            r.board_width == 0,
            r.board_height == 0,
            r.board@.len() == 0,
            r.heat_map@.len() == 0,
            r.current_piece.width == 0,
            r.current_piece.height == 0,
            r.current_piece.pattern@.len() == 0,
    {
        let opponent_number: u8 = if my_player_number == 1 {
            2
        } else {
            1
        };
        Self {
            board_width: 0,
            board_height: 0,
            board: Vec::new(),
            my_player: Player::new(my_player_number),
            opponent_player: Player::new(opponent_number),
            current_piece: Piece::new(0, 0, Vec::new()),
            heat_map: Vec::new(),
        }
    }

    /// Replaces the board with a new one of `width` by `height` cells and
    /// recomputes the heat map.
    pub fn update_board(&mut self, width: usize, height: usize, board: Vec<Vec<char>>)
        requires
            old(self)@.board.players_wf(),
            width <= MAX_SIDE,
            height <= MAX_SIDE,
            board@.len() == height,
            forall|i: int| 0 <= i < height ==> #[trigger] board@[i]@.len() == width,
        ensures
            final(self).wf(),
            final(self).board_width == width,
            final(self).board_height == height,
            final(self).board == board,
            final(self).my_player == old(self).my_player,
            final(self).opponent_player == old(self).opponent_player,
            final(self).current_piece == old(self).current_piece,
    {
        self.board_width = width;
        self.board_height = height;
        self.board = board;
        self.generate_heat_map();
    }

    /// Replaces the piece to place.
    pub fn update_piece(&mut self, piece: Piece)
        ensures
            final(self).current_piece == piece,
            final(self).board_width == old(self).board_width,
            final(self).board_height == old(self).board_height,
            final(self).board == old(self).board,
            final(self).my_player == old(self).my_player,
            final(self).opponent_player == old(self).opponent_player,
            final(self).heat_map == old(self).heat_map,
            old(self).wf() ==> final(self).wf(),
    {
        self.current_piece = piece;
    }

    /// Row `by` of the board holds `board_width` cells, and they are the
    /// model's.
    proof fn lemma_board_row(&self, by: int)
        requires
            self@.board.board_wf(),
            0 <= by < self.board_height,
        ensures
            self.board@[by]@.len() == self.board_width,
            self.board@[by]@ == self@.board.cells[by],
    {
        assert(self@.board.cells[by].len() == self.board_width);
    }

    /// Lists the board's opponent cells.
    fn opponent_positions(&self) -> (r: Vec<(usize, usize)>)
        requires
            self@.board.board_wf(),
        ensures
            forall|i: int|
                0 <= i < r.len() ==> self@.board.is_opponent_cell(
                    #[trigger] r[i].0 as int,
                    r[i].1 as int,
                ),
            forall|ox: int, oy: int|
                #[trigger] self@.board.is_opponent_cell(ox, oy) ==> lists_cell(r@, ox, oy),
    {
        let ghost b = self@.board;
        let mut positions: Vec<(usize, usize)> = Vec::new();
        let mut y: usize = 0;
        while y < self.board_height
            invariant
                b == self@.board,
                b.board_wf(),
                y <= self.board_height,
                forall|i: int|
                    0 <= i < positions.len() ==> b.is_opponent_cell(
                        #[trigger] positions[i].0 as int,
                        positions[i].1 as int,
                    ),
                forall|ox: int, oy: int|
                    oy < y && #[trigger] b.is_opponent_cell(ox, oy) ==> lists_cell(
                        positions@,
                        ox,
                        oy,
                    ),
            decreases self.board_height - y,
        {
            let mut x: usize = 0;
            while x < self.board_width
                invariant
                    b == self@.board,
                    b.board_wf(),
                    y < self.board_height,
                    x <= self.board_width,
                    forall|i: int|
                        0 <= i < positions.len() ==> b.is_opponent_cell(
                            #[trigger] positions[i].0 as int,
                            positions[i].1 as int,
                        ),
                    forall|ox: int, oy: int|
                        (oy < y || (oy == y && ox < x)) && #[trigger] b.is_opponent_cell(ox, oy)
                            ==> lists_cell(positions@, ox, oy),
                decreases self.board_width - x,
            {
                proof {
                    self.lemma_board_row(y as int);
                }
                let cell = self.board[y][x];
                if self.opponent_player.owns_cell(cell) {
                    let ghost before = positions@;
                    positions.push((x, y));
                    proof {
                        assert forall|ox: int, oy: int|
                            (oy < y || (oy == y && ox <= x)) && #[trigger] b.is_opponent_cell(
                                ox,
                                oy,
                            ) implies lists_cell(positions@, ox, oy) by {
                            if oy == y && ox == x {
                                assert(positions@[before.len() as int] == (x, y));
                            } else {
                                let i = choose|i: int|
                                    0 <= i < before.len() && #[trigger] before[i] == (
                                        ox as usize,
                                        oy as usize,
                                    );
                                assert(positions@[i] == before[i]);
                            }
                        }
                    }
                }
                x += 1;
            }
            y += 1;
        }
        positions
    }

    /// Recomputes the heat map from the board: each empty cell gets
    /// `(W + H) - d`, where `d` is its Manhattan distance to the nearest
    /// opponent cell; every other cell gets 0, and so does every cell when the
    /// opponent has none.
    pub fn generate_heat_map(&mut self)
        requires
            old(self)@.board.board_wf(),
            old(self)@.board.players_wf(),
        ensures
            final(self).wf(),
            final(self).board_width == old(self).board_width,
            final(self).board_height == old(self).board_height,
            final(self).board == old(self).board,
            final(self).my_player == old(self).my_player,
            final(self).opponent_player == old(self).opponent_player,
            final(self).current_piece == old(self).current_piece,
    {
        let ghost b = self@.board;
        let positions = self.opponent_positions();
        proof {
            if positions.len() > 0 {
                assert(b.is_opponent_cell(positions[0].0 as int, positions[0].1 as int));
            }
            if b.has_opponent_cell() {
                let (ox, oy) = choose|ox: int, oy: int| b.is_opponent_cell(ox, oy);
                assert(lists_cell(positions@, ox, oy));
            }
            assert forall|i: int| 0 <= i < positions.len() implies #[trigger] positions[i].0
                <= MAX_SIDE && positions[i].1 <= MAX_SIDE by {
                assert(b.is_opponent_cell(positions[i].0 as int, positions[i].1 as int));
            }
        }
        let span = self.board_width + self.board_height;
        let mut heat: Vec<Vec<i32>> = Vec::new();
        let mut y: usize = 0;
        while y < self.board_height
            invariant
                b == self@.board,
                b.board_wf(),
                y <= self.board_height,
                span == self.board_width + self.board_height,
                positions.len() > 0 <==> b.has_opponent_cell(),
                forall|i: int|
                    0 <= i < positions.len() ==> b.is_opponent_cell(
                        #[trigger] positions[i].0 as int,
                        positions[i].1 as int,
                    ),
                forall|ox: int, oy: int| #[trigger]
                    b.is_opponent_cell(ox, oy) ==> lists_cell(positions@, ox, oy),
                forall|i: int|
                    0 <= i < positions.len() ==> #[trigger] positions[i].0 <= MAX_SIDE
                        && positions[i].1 <= MAX_SIDE,
                heat@.len() == y,
                forall|by: int| 0 <= by < y ==> #[trigger] heat@[by]@.len() == self.board_width,
                forall|bx: int, by: int|
                    0 <= by < y && 0 <= bx < self.board_width ==> #[trigger] heat@[by]@[bx]
                        == b.heat_at(bx, by),
            decreases self.board_height - y,
        {
            let mut row: Vec<i32> = Vec::new();
            let mut x: usize = 0;
            while x < self.board_width
                invariant
                    b == self@.board,
                    b.board_wf(),
                    y < self.board_height,
                    x <= self.board_width,
                    span == self.board_width + self.board_height,
                    positions.len() > 0 <==> b.has_opponent_cell(),
                    forall|i: int|
                        0 <= i < positions.len() ==> b.is_opponent_cell(
                            #[trigger] positions[i].0 as int,
                            positions[i].1 as int,
                        ),
                    forall|ox: int, oy: int| #[trigger]
                        b.is_opponent_cell(ox, oy) ==> lists_cell(positions@, ox, oy),
                    forall|i: int|
                        0 <= i < positions.len() ==> #[trigger] positions[i].0 <= MAX_SIDE
                            && positions[i].1 <= MAX_SIDE,
                    row@.len() == x,
                    forall|bx: int| 0 <= bx < x ==> #[trigger] row@[bx] == b.heat_at(bx, y as int),
                decreases self.board_width - x,
            {
                proof {
                    self.lemma_board_row(y as int);
                }
                let value: i32 = if positions.len() > 0 && self.board[y][x] == '.' {
                    let d = nearest_distance(&positions, x, y);
                    proof {
                        let i = choose|i: int|
                            0 <= i < positions.len() && d == manhattan(
                                x as int,
                                y as int,
                                #[trigger] positions[i].0 as int,
                                positions[i].1 as int,
                            );
                        assert(b.is_opponent_cell(positions[i].0 as int, positions[i].1 as int));
                        assert forall|ox: int, oy: int| b.is_opponent_cell(ox, oy) implies #[trigger]
                            manhattan(x as int, y as int, ox, oy) >= d by {
                            assert(lists_cell(positions@, ox, oy));
                            let j = choose|j: int|
                                0 <= j < positions.len() && #[trigger] positions[j] == (
                                    ox as usize,
                                    oy as usize,
                                );
                            assert(positions[j].0 <= MAX_SIDE);
                        }
                        assert(b.is_min_opponent_distance(x as int, y as int, d as int));
                        b.lemma_min_distance_is(x as int, y as int, d as int);
                    }
                    (span - d) as i32
                } else {
                    0
                };
                row.push(value);
                x += 1;
            }
            heat.push(row);
            y += 1;
        }
        self.heat_map = heat;
    }

    /// Row `py` of the piece is the model's.
    proof fn lemma_piece_row(&self, py: int)
        requires
            0 <= py < self.current_piece.pattern@.len(),
        ensures
            self.current_piece.pattern@[py]@ == self@.piece[py],
    {
    }

    /// Counts the 8 neighbours of `(bx, by)` that are opponent cells
    /// (`opponent`) or empty cells (otherwise).
    fn count_adjacent(&self, bx: usize, by: usize, opponent: bool) -> (r: i64)
        requires
            self.wf(),
            bx < self.board_width,
            by < self.board_height,
        ensures
            r == self@.board.adjacent_count(bx as int, by as int, opponent),
    {
        let ghost b = self@.board;
        let mut count: i64 = 0;
        let mut dy: i64 = -1;
        while dy <= 1
            invariant
                b == self@.board,
                self.wf(),
                bx < self.board_width,
                by < self.board_height,
                -1 <= dy <= 2,
                count == b.adjacent_in_rows(bx as int, by as int, opponent, dy + 1),
                0 <= count <= 3 * (dy + 1),
            decreases 2 - dy,
        {
            let mut dx: i64 = -1;
            while dx <= 1
                invariant
                    b == self@.board,
                    self.wf(),
                    bx < self.board_width,
                    by < self.board_height,
                    -1 <= dy <= 1,
                    -1 <= dx <= 2,
                    count == b.adjacent_in_rows(bx as int, by as int, opponent, dy + 1)
                        + b.adjacent_in_row(bx as int, by as int, dy as int, opponent, dx + 1),
                    0 <= count <= 3 * (dy + 1) + (dx + 1),
                decreases 2 - dx,
            {
                if !(dx == 0 && dy == 0) {
                    let cx = bx as i64 + dx;
                    let cy = by as i64 + dy;
                    if 0 <= cx && cx < self.board_width as i64 && 0 <= cy && cy
                        < self.board_height as i64 {
                        proof {
                            self.lemma_board_row(cy as int);
                        }
                        let cell = self.board[cy as usize][cx as usize];
                        let hit = if opponent {
                            self.opponent_player.owns_cell(cell)
                        } else {
                            cell == '.'
                        };
                        if hit {
                            count += 1;
                        }
                    }
                }
                dx += 1;
            }
            dy += 1;
        }
        count
    }

    /// The measure `m` of the board cell `(bx, by)`.
    fn measure_value(&self, m: Measure, bx: usize, by: usize) -> (r: i64)
        requires
            self.wf(),
            bx < self.board_width,
            by < self.board_height,
        ensures
            r == self@.board.measure_at(m, bx as int, by as int),
    {
        match m {
            Measure::OwnOverlap => {
                proof {
                    self.lemma_board_row(by as int);
                }
                if self.my_player.owns_cell(self.board[by][bx]) {
                    1
                } else {
                    0
                }
            },
            Measure::Footprint => 1,
            Measure::Heat => self.heat_map[by][bx] as i64,
            Measure::OpponentAdjacent => self.count_adjacent(bx, by, true),
            Measure::EmptyAdjacent => self.count_adjacent(bx, by, false),
        }
    }

    /// Adds up the measure `m` over the board cells that the current piece
    /// covers when anchored at `(x, y)`.
    fn footprint_sum(&self, m: Measure, x: usize, y: usize) -> (r: i64)
        requires
            self.wf(),
        ensures
            r == self@.footprint_total(m, x as int, y as int),
            0 <= r <= measure_cap(m),
    {
        let ghost g = self@;
        let mut total: i64 = 0;
        let mut py: usize = 0;
        while py < self.current_piece.pattern.len()
            invariant
                g == self@,
                self.wf(),
                py <= g.piece.len(),
                self.current_piece.pattern@.len() == g.piece.len(),
                total == g.rows_total(m, x as int, y as int, py as int),
            decreases g.piece.len() - py,
        {
            proof {
                self.lemma_piece_row(py as int);
            }
            let row = &self.current_piece.pattern[py];
            let mut px: usize = 0;
            while px < row.len()
                invariant
                    g == self@,
                    self.wf(),
                    py < g.piece.len(),
                    row@ == g.piece[py as int],
                    px <= row@.len(),
                    total == g.rows_total(m, x as int, y as int, py as int) + g.row_total(
                        m,
                        x as int,
                        y as int,
                        py as int,
                        px as int,
                    ),
                decreases row@.len() - px,
            {
                proof {
                    g.lemma_partial_total_cap(m, x as int, y as int, py as int, px + 1);
                }
                if row[px] != '.' && x < self.board_width && px < self.board_width - x && y
                    < self.board_height && py < self.board_height - y {
                    let v = self.measure_value(m, x + px, y + py);
                    total = total + v;
                }
                px += 1;
            }
            py += 1;
        }
        proof {
            g.lemma_rows_total_cap(m, x as int, y as int, g.piece.len() as int);
        }
        total
    }

    /// Whether the current piece anchored at `(x, y)` is a legal placement.
    /// Stops at the first solid cell that lands off the board, on an opponent
    /// cell, or on a second cell of the bot's own.
    fn anchor_is_legal(&self, x: usize, y: usize) -> (r: bool)
        requires
            self.wf(),
            x < self.board_width,
            y < self.board_height,
        ensures
            r == self@.is_legal(x as int, y as int),
    {
        let ghost g = self@;
        let mut overlaps: usize = 0;
        let mut py: usize = 0;
        while py < self.current_piece.pattern.len()
            invariant
                g == self@,
                self.wf(),
                x < self.board_width,
                y < self.board_height,
                py <= g.piece.len(),
                self.current_piece.pattern@.len() == g.piece.len(),
                overlaps == g.rows_total(Measure::OwnOverlap, x as int, y as int, py as int),
                overlaps <= 1,
                forall|qx: int, qy: int|
                    0 <= qy < py && #[trigger] g.is_solid(qx, qy) ==> g.board.in_board(
                        x + qx,
                        y + qy,
                    ) && !g.board.is_opponent_cell(x + qx, y + qy),
            decreases g.piece.len() - py,
        {
            proof {
                self.lemma_piece_row(py as int);
            }
            let row = &self.current_piece.pattern[py];
            let mut px: usize = 0;
            while px < row.len()
                invariant
                    g == self@,
                    self.wf(),
                    x < self.board_width,
                    y < self.board_height,
                    py < g.piece.len(),
                    row@ == g.piece[py as int],
                    px <= row@.len(),
                    overlaps == g.rows_total(Measure::OwnOverlap, x as int, y as int, py as int)
                        + g.row_total(Measure::OwnOverlap, x as int, y as int, py as int, px as int),
                    overlaps <= 1,
                    forall|qx: int, qy: int|
                        (0 <= qy < py || (qy == py && 0 <= qx < px)) && #[trigger] g.is_solid(qx, qy)
                            ==> g.board.in_board(x + qx, y + qy) && !g.board.is_opponent_cell(
                            x + qx,
                            y + qy,
                        ),
                decreases row@.len() - px,
            {
                if row[px] != '.' {
                    if px >= self.board_width - x || py >= self.board_height - y {
                        proof {
                            assert(g.is_solid(px as int, py as int));
                        }
                        return false;
                    }
                    proof {
                        self.lemma_board_row((y + py) as int);
                    }
                    let cell = self.board[y + py][x + px];
                    if self.opponent_player.owns_cell(cell) {
                        proof {
                            assert(g.is_solid(px as int, py as int));
                        }
                        return false;
                    }
                    if self.my_player.owns_cell(cell) {
                        overlaps += 1;
                        if overlaps > 1 {
                            proof {
                                g.lemma_row_total_monotone(
                                    Measure::OwnOverlap,
                                    x as int,
                                    y as int,
                                    py as int,
                                    px + 1,
                                    row@.len() as int,
                                );
                                g.lemma_rows_total_monotone(
                                    Measure::OwnOverlap,
                                    x as int,
                                    y as int,
                                    py + 1,
                                    g.piece.len() as int,
                                );
                            }
                            return false;
                        }
                    }
                }
                px += 1;
            }
            py += 1;
        }
        overlaps == 1
    }

    /// Every legal anchor on the board, in row-major order (row by row, left
    /// to right).
    pub fn find_all_valid_placements(&self) -> (r: Vec<(usize, usize)>)
        requires
            self.wf(),
        ensures
            self@.lists_legal_anchors(r@),
            r.len() == 0 <==> !self@.has_legal_anchor(),
    {
        let ghost g = self@;
        let mut moves: Vec<(usize, usize)> = Vec::new();
        let mut y: usize = 0;
        while y < self.board_height
            invariant
                g == self@,
                self.wf(),
                y <= self.board_height,
                forall|i: int|
                    0 <= i < moves.len() ==> g.board.in_board(
                        (#[trigger] moves[i]).0 as int,
                        moves[i].1 as int,
                    ) && g.is_legal(moves[i].0 as int, moves[i].1 as int) && moves[i].1 < y,
                forall|qx: int, qy: int|
                    0 <= qy < y && g.board.in_board(qx, qy) && #[trigger] g.is_legal(qx, qy)
                        ==> exists|i: int|
                        0 <= i < moves.len() && #[trigger] moves[i] == (qx as usize, qy as usize),
                forall|i: int, j: int|
                    0 <= i < j < moves.len() ==> scan_before(#[trigger] moves[i], #[trigger] moves[j]),
            decreases self.board_height - y,
        {
            let mut x: usize = 0;
            while x < self.board_width
                invariant
                    g == self@,
                    self.wf(),
                    y < self.board_height,
                    x <= self.board_width,
                    forall|i: int|
                        0 <= i < moves.len() ==> g.board.in_board(
                            (#[trigger] moves[i]).0 as int,
                            moves[i].1 as int,
                        ) && g.is_legal(moves[i].0 as int, moves[i].1 as int) && scan_before(
                            moves[i],
                            (x, y),
                        ),
                    forall|qx: int, qy: int|
                        (0 <= qy < y || (qy == y && 0 <= qx < x)) && g.board.in_board(qx, qy)
                            && #[trigger] g.is_legal(qx, qy) ==> exists|i: int|
                            0 <= i < moves.len() && #[trigger] moves[i] == (qx as usize, qy as usize),
                    forall|i: int, j: int|
                        0 <= i < j < moves.len() ==> scan_before(#[trigger] moves[i], #[trigger] moves[j]),
                decreases self.board_width - x,
            {
                if self.anchor_is_legal(x, y) {
                    let ghost before = moves@;
                    moves.push((x, y));
                    proof {
                        assert forall|i: int| 0 <= i < moves.len() implies g.board.in_board(
                            (#[trigger] moves[i]).0 as int,
                            moves[i].1 as int,
                        ) && g.is_legal(moves[i].0 as int, moves[i].1 as int) && scan_before(
                            moves[i],
                            ((x + 1) as usize, y),
                        ) by {
                            if i < before.len() {
                                assert(moves[i] == before[i]);
                                assert(scan_before(before[i], (x, y)));
                            }
                        }
                        assert forall|i: int, j: int| 0 <= i < j < moves.len() implies scan_before(
                            #[trigger] moves[i],
                            #[trigger] moves[j],
                        ) by {
                            assert(moves[i] == before[i]);
                            if j < before.len() {
                                assert(moves[j] == before[j]);
                            } else {
                                assert(scan_before(before[i], (x, y)));
                            }
                        }
                        assert forall|qx: int, qy: int|
                            (0 <= qy < y || (qy == y && 0 <= qx <= x)) && g.board.in_board(qx, qy)
                                && #[trigger] g.is_legal(qx, qy) implies exists|i: int|
                            0 <= i < moves.len() && #[trigger] moves[i] == (
                                qx as usize,
                                qy as usize,
                            ) by {
                            if qy == y && qx == x {
                                assert(moves[before.len() as int] == (x, y));
                            } else {
                                let i = choose|i: int|
                                    0 <= i < before.len() && #[trigger] before[i] == (
                                        qx as usize,
                                        qy as usize,
                                    );
                                assert(moves[i] == before[i]);
                            }
                        }
                    }
                }
                x += 1;
            }
            proof {
                assert forall|i: int| 0 <= i < moves.len() implies #[trigger] moves[i].1 < y + 1 by {
                    assert(scan_before(moves[i], (x, y)));
                }
            }
            y += 1;
        }
        proof {
            if moves.len() > 0 {
                assert(g.is_legal(moves[0].0 as int, moves[0].1 as int));
            }
        }
        moves
    }

    /// Mean heat of the board cells that the piece anchored at `(x, y)`
    /// covers, rounded down; 0 if it covers none.
    pub fn calculate_heat_score(&self, placement_x: usize, placement_y: usize) -> (r: i32)
        requires
            self.wf(),
        ensures
            r == self@.heat_score(placement_x as int, placement_y as int),
    {
        let total = self.footprint_sum(Measure::Heat, placement_x, placement_y);
        let cells = self.footprint_sum(Measure::Footprint, placement_x, placement_y);
        if cells == 0 {
            0
        } else {
            (total / cells) as i32
        }
    }

    /// 5 for each opponent cell among the 8 neighbours of each covered cell.
    pub fn calculate_blocking_score(&self, placement_x: usize, placement_y: usize) -> (r: i32)
        requires
            self.wf(),
        ensures
            r == self@.blocking_score(placement_x as int, placement_y as int),
    {
        let total = self.footprint_sum(Measure::OpponentAdjacent, placement_x, placement_y);
        (total * 5) as i32
    }

    /// 1 for each empty cell among the 8 neighbours of each covered cell.
    pub fn calculate_expansion_score(&self, placement_x: usize, placement_y: usize) -> (r: i32)
        requires
            self.wf(),
        ensures
            r == self@.expansion_score(placement_x as int, placement_y as int),
    {
        let total = self.footprint_sum(Measure::EmptyAdjacent, placement_x, placement_y);
        total as i32
    }

    /// 2 for each solid piece cell that lands on the board.
    pub fn calculate_piece_efficiency(&self, placement_x: usize, placement_y: usize) -> (r: i32)
        requires
            self.wf(),
        ensures
            r == self@.efficiency_score(placement_x as int, placement_y as int),
    {
        let cells = self.footprint_sum(Measure::Footprint, placement_x, placement_y);
        (cells * 2) as i32
    }

    /// The weighted total score of the anchor `(x, y)`.
    fn placement_score(&self, weights: &ScoreWeights, x: usize, y: usize) -> (r: i64)
        requires
            self.wf(),
        ensures
            r == self@.composite_score(*weights, x as int, y as int),
    {
        proof {
            self@.lemma_score_bounds(x as int, y as int);
        }
        let heat = self.calculate_heat_score(x, y) as i64;
        let blocking = self.calculate_blocking_score(x, y) as i64;
        let expansion = self.calculate_expansion_score(x, y) as i64;
        let efficiency = self.calculate_piece_efficiency(x, y) as i64;
        let wh = weights.heat as i64;
        let wb = weights.blocking as i64;
        let wx = weights.expansion as i64;
        let we = weights.efficiency as i64;
        assert(-4_300_000_000_000_000_000 <= heat * wh <= 4_300_000_000_000_000_000)
            by (nonlinear_arith)
            requires
                0 <= heat <= 2_000_000_000,
                -2_147_483_648 <= wh <= 2_147_483_647,
        ;
        assert(-100_000_000_000_000_000 <= blocking * wb <= 100_000_000_000_000_000)
            by (nonlinear_arith)
            requires
                0 <= blocking <= 40_000_000,
                -2_147_483_648 <= wb <= 2_147_483_647,
        ;
        assert(-100_000_000_000_000_000 <= expansion * wx <= 100_000_000_000_000_000)
            by (nonlinear_arith)
            requires
                0 <= expansion <= 8_000_000,
                -2_147_483_648 <= wx <= 2_147_483_647,
        ;
        assert(-100_000_000_000_000_000 <= efficiency * we <= 100_000_000_000_000_000)
            by (nonlinear_arith)
            requires
                0 <= efficiency <= 2_000_000,
                -2_147_483_648 <= we <= 2_147_483_647,
        ;
        heat * wh + blocking * wb + expansion * wx + efficiency * we
    }

    /// The legal anchor with the greatest total score under `weights`; of
    /// equal scores the first in row-major order wins. `None` when no anchor
    /// is legal.
    pub fn find_best_move_with_weights(&self, weights: &ScoreWeights) -> (r: Option<(usize, usize)>)
        requires
            self.wf(),
        ensures
            self@.is_move_choice(*weights, r),
    {
        let ghost g = self@;
        let moves = self.find_all_valid_placements();
        if moves.len() == 0 {
            return None;
        }
        let mut best: usize = 0;
        let mut best_score = self.placement_score(weights, moves[0].0, moves[0].1);
        let mut i: usize = 1;
        while i < moves.len()
            invariant
                g == self@,
                self.wf(),
                best < i <= moves.len(),
                best_score == g.composite_score(*weights, moves[best as int].0 as int, moves[best as int].1 as int),
                forall|j: int|
                    0 <= j < i ==> g.composite_score(
                        *weights,
                        (#[trigger] moves[j]).0 as int,
                        moves[j].1 as int,
                    ) <= best_score,
                forall|j: int|
                    0 <= j < best ==> g.composite_score(
                        *weights,
                        (#[trigger] moves[j]).0 as int,
                        moves[j].1 as int,
                    ) < best_score,
            decreases moves.len() - i,
        {
            let score = self.placement_score(weights, moves[i].0, moves[i].1);
            if score > best_score {
                best = i;
                best_score = score;
            }
            i += 1;
        }
        let (x, y) = moves[best];
        proof {
            assert(g.is_legal(x as int, y as int));
            assert forall|qx: int, qy: int|
                g.board.in_board(qx, qy) && #[trigger] g.is_legal(qx, qy) implies g.composite_score(
                *weights,
                qx,
                qy,
            ) <= g.composite_score(*weights, x as int, y as int) && (scan_before(
                (qx as usize, qy as usize),
                (x, y),
            ) ==> g.composite_score(*weights, qx, qy) < g.composite_score(
                *weights,
                x as int,
                y as int,
            )) by {
                let j = choose|j: int|
                    0 <= j < moves.len() && #[trigger] moves[j] == (qx as usize, qy as usize);
                assert(moves[j] == (qx as usize, qy as usize));
                if scan_before((qx as usize, qy as usize), (x, y)) && j >= best {
                    if j > best {
                        assert(scan_before(moves[best as int], moves[j]));
                    }
                }
            }
        }
        Some((x, y))
    }

    /// The legal anchor with the greatest total score under the standard
    /// weights (heat 100, blocking 20, expansion 5, efficiency 10); of equal
    /// scores the first in row-major order wins. `None` when no anchor is
    /// legal.
    pub fn find_best_move(&self) -> (r: Option<(usize, usize)>)
        requires
            self.wf(),
        ensures
            self@.is_move_choice(ScoreWeights::spec_standard(), r),
    {
        let weights = ScoreWeights::standard();
        self.find_best_move_with_weights(&weights)
    }
}

} // verus!
