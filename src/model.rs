use vstd::prelude::*;

use crate::player::Player;
use crate::weights::ScoreWeights;

verus! {

/// The largest board side the engine takes: with it every score fits an `i32`.
pub const MAX_SIDE: usize = 1000;

pub open spec fn abs_diff(a: int, b: int) -> int {
    if a < b {
        b - a
    } else {
        a - b
    }
}

/// Manhattan distance between two board cells.
pub open spec fn manhattan(ax: int, ay: int, bx: int, by: int) -> int {
    abs_diff(ax, bx) + abs_diff(ay, by)
}

/// What a scorer adds up over the board cells that a placed piece covers.
#[derive(Clone, Copy, PartialEq, Eq, Structural)]
pub enum Measure {
    /// 1 on a cell the bot owns.
    OwnOverlap,
    /// 1 on every covered cell.
    Footprint,
    /// The heat value of the cell.
    Heat,
    /// The number of opponent cells among the 8 neighbours.
    OpponentAdjacent,
    /// The number of empty cells among the 8 neighbours.
    EmptyAdjacent,
}

/// The board of one turn and the two players, as the engine sees them.
pub struct BoardView {
    pub width: int,
    pub height: int,
    /// The board's cells, row by row.
    pub cells: Seq<Seq<char>>,
    pub me: Player,
    pub opponent: Player,
}

/// One turn's state: the board and the piece to place.
pub struct GameView {
    pub board: BoardView,
    /// The piece's pattern, row by row; `.` is an empty cell.
    pub piece: Seq<Seq<char>>,
}

/// `n` capped at `lim`.
pub open spec fn clip(n: int, lim: int) -> int {
    if n < lim {
        n
    } else {
        lim
    }
}

/// Most that a measure can add up to over one piece: its bound on one cell
/// times the most cells a board can have.
pub open spec fn measure_cap(m: Measure) -> int {
    match m {
        Measure::OwnOverlap => 1_000_000,
        Measure::Footprint => 1_000_000,
        Measure::Heat => 2_000_000_000,
        Measure::OpponentAdjacent => 8_000_000,
        Measure::EmptyAdjacent => 8_000_000,
    }
}

/// `a` comes before `b` in row-major order.
pub open spec fn scan_before(a: (usize, usize), b: (usize, usize)) -> bool {
    a.1 < b.1 || (a.1 == b.1 && a.0 < b.0)
}

impl BoardView {
    pub open spec fn in_board(self, bx: int, by: int) -> bool {
        0 <= bx < self.width && 0 <= by < self.height
    }

    pub open spec fn cell(self, bx: int, by: int) -> char {
        self.cells[by][bx]
    }

    pub open spec fn is_opponent_cell(self, bx: int, by: int) -> bool {
        self.in_board(bx, by) && self.opponent.owns(self.cell(bx, by))
    }

    pub open spec fn is_own_cell(self, bx: int, by: int) -> bool {
        self.in_board(bx, by) && self.me.owns(self.cell(bx, by))
    }

    pub open spec fn is_empty_cell(self, bx: int, by: int) -> bool {
        self.in_board(bx, by) && self.cell(bx, by) == '.'
    }

    /// The board has `height` rows of `width` cells, within the size limit.
    pub open spec fn board_wf(self) -> bool {
        &&& 0 <= self.width <= MAX_SIDE
        &&& 0 <= self.height <= MAX_SIDE
        &&& self.cells.len() == self.height
        &&& forall|by: int| 0 <= by < self.height ==> #[trigger] self.cells[by].len() == self.width
    }

    /// Both players have their symbols and are distinct.
    pub open spec fn players_wf(self) -> bool {
        self.me.wf() && self.opponent.wf() && self.me.number != self.opponent.number
    }

    pub open spec fn has_opponent_cell(self) -> bool {
        exists|ox: int, oy: int| self.is_opponent_cell(ox, oy)
    }

    /// `d` is the least Manhattan distance from `(bx, by)` to an opponent cell.
    pub open spec fn is_min_opponent_distance(self, bx: int, by: int, d: int) -> bool {
        &&& exists|ox: int, oy: int|
            self.is_opponent_cell(ox, oy) && #[trigger] manhattan(bx, by, ox, oy) == d
        &&& forall|ox: int, oy: int|
            self.is_opponent_cell(ox, oy) ==> #[trigger] manhattan(bx, by, ox, oy) >= d
    }

    pub open spec fn min_opponent_distance(self, bx: int, by: int) -> int {
        choose|d: int| self.is_min_opponent_distance(bx, by, d)
    }

    /// Heat of a cell: `(W + H) - d` on an empty cell at distance `d` from the
    /// nearest opponent cell; 0 on an occupied cell or when the opponent has
    /// no cell.
    pub open spec fn heat_at(self, bx: int, by: int) -> int {
        if self.has_opponent_cell() && self.is_empty_cell(bx, by) {
            self.width + self.height - self.min_opponent_distance(bx, by)
        } else {
            0
        }
    }

    /// 1 where the neighbour at offset `(dx, dy)` of `(bx, by)` is an opponent
    /// cell (`opponent`) or an empty cell (otherwise); the cell itself counts 0.
    pub open spec fn neighbor_hit(self, bx: int, by: int, dx: int, dy: int, opponent: bool) -> int {
        if dx == 0 && dy == 0 {
            0
        } else if (opponent && self.is_opponent_cell(bx + dx, by + dy)) || (!opponent
            && self.is_empty_cell(bx + dx, by + dy)) {
            1
        } else {
            0
        }
    }

    /// Hits at offsets `dx` in `-1 .. n - 1` of the neighbour row `dy`.
    pub open spec fn adjacent_in_row(self, bx: int, by: int, dy: int, opponent: bool, n: int) -> int
        decreases n,
    {
        if n <= 0 {
            0
        } else {
            self.adjacent_in_row(bx, by, dy, opponent, n - 1) + self.neighbor_hit(
                bx,
                by,
                n - 2,
                dy,
                opponent,
            )
        }
    }

    /// Hits in the neighbour rows `dy` in `-1 .. m - 1`.
    pub open spec fn adjacent_in_rows(self, bx: int, by: int, opponent: bool, m: int) -> int
        decreases m,
    {
        if m <= 0 {
            0
        } else {
            self.adjacent_in_rows(bx, by, opponent, m - 1) + self.adjacent_in_row(
                bx,
                by,
                m - 2,
                opponent,
                3,
            )
        }
    }

    /// Number of the 8 neighbours of `(bx, by)` that are opponent cells
    /// (`opponent`) or empty cells (otherwise).
    pub open spec fn adjacent_count(self, bx: int, by: int, opponent: bool) -> int {
        self.adjacent_in_rows(bx, by, opponent, 3)
    }

    pub open spec fn measure_at(self, m: Measure, bx: int, by: int) -> int {
        match m {
            Measure::OwnOverlap => if self.me.owns(self.cell(bx, by)) {
                1
            } else {
                0
            },
            Measure::Footprint => 1,
            Measure::Heat => self.heat_at(bx, by),
            Measure::OpponentAdjacent => self.adjacent_count(bx, by, true),
            Measure::EmptyAdjacent => self.adjacent_count(bx, by, false),
        }
    }

    /// Upper bound of a measure on one cell.
    pub open spec fn measure_bound(self, m: Measure) -> int {
        match m {
            Measure::OwnOverlap => 1,
            Measure::Footprint => 1,
            Measure::Heat => self.width + self.height,
            Measure::OpponentAdjacent => 8,
            Measure::EmptyAdjacent => 8,
        }
    }

    /// Where some opponent cell lies within `bound` of `(bx, by)`, a least
    /// distance exists.
    pub proof fn lemma_min_distance_exists(self, bx: int, by: int, bound: nat)
        requires
            exists|ox: int, oy: int|
                self.is_opponent_cell(ox, oy) && #[trigger] manhattan(bx, by, ox, oy) <= bound,
        ensures
            exists|d: int| self.is_min_opponent_distance(bx, by, d),
        decreases bound,
    {
        if bound > 0 && exists|ox: int, oy: int|
            self.is_opponent_cell(ox, oy) && #[trigger] manhattan(bx, by, ox, oy) <= bound - 1 {
            self.lemma_min_distance_exists(bx, by, (bound - 1) as nat);
        } else {
            let (ox, oy) = choose|ox: int, oy: int|
                self.is_opponent_cell(ox, oy) && #[trigger] manhattan(bx, by, ox, oy) <= bound;
            assert(manhattan(bx, by, ox, oy) == bound);
            assert(self.is_min_opponent_distance(bx, by, bound as int));
        }
    }

    pub proof fn lemma_min_distance_unique(self, bx: int, by: int, d1: int, d2: int)
        requires
            self.is_min_opponent_distance(bx, by, d1),
            self.is_min_opponent_distance(bx, by, d2),
        ensures
            d1 == d2,
    {
        let (ox1, oy1) = choose|ox: int, oy: int|
            self.is_opponent_cell(ox, oy) && #[trigger] manhattan(bx, by, ox, oy) == d1;
        let (ox2, oy2) = choose|ox: int, oy: int|
            self.is_opponent_cell(ox, oy) && #[trigger] manhattan(bx, by, ox, oy) == d2;
        assert(manhattan(bx, by, ox1, oy1) >= d2);
        assert(manhattan(bx, by, ox2, oy2) >= d1);
    }

    /// Where `d` is the least distance, the heat names it.
    pub proof fn lemma_min_distance_is(self, bx: int, by: int, d: int)
        requires
            self.is_min_opponent_distance(bx, by, d),
        ensures
            self.min_opponent_distance(bx, by) == d,
    {
        let c = self.min_opponent_distance(bx, by);
        assert(self.is_min_opponent_distance(bx, by, c));
        self.lemma_min_distance_unique(bx, by, c, d);
    }

    pub proof fn lemma_heat_bounds(self, bx: int, by: int)
        requires
            self.board_wf(),
        ensures
            0 <= self.heat_at(bx, by) <= self.width + self.height,
    {
        if self.has_opponent_cell() && self.is_empty_cell(bx, by) {
            let (ox, oy) = choose|ox: int, oy: int| self.is_opponent_cell(ox, oy);
            let b = manhattan(bx, by, ox, oy);
            self.lemma_min_distance_exists(bx, by, b as nat);
            let d = self.min_opponent_distance(bx, by);
            assert(self.is_min_opponent_distance(bx, by, d));
            assert(manhattan(bx, by, ox, oy) >= d);
            let (wx, wy) = choose|wx: int, wy: int|
                self.is_opponent_cell(wx, wy) && #[trigger] manhattan(bx, by, wx, wy) == d;
            assert(manhattan(bx, by, wx, wy) >= 0);
        }
    }

    pub proof fn lemma_adjacent_bounds(self, bx: int, by: int, opponent: bool)
        ensures
            0 <= self.adjacent_count(bx, by, opponent) <= 8,
    {
        reveal_with_fuel(BoardView::adjacent_in_rows, 4);
        reveal_with_fuel(BoardView::adjacent_in_row, 4);
    }

    pub proof fn lemma_measure_bounds(self, m: Measure, bx: int, by: int)
        requires
            self.board_wf(),
        ensures
            0 <= self.measure_at(m, bx, by) <= self.measure_bound(m),
    {
        self.lemma_heat_bounds(bx, by);
        self.lemma_adjacent_bounds(bx, by, true);
        self.lemma_adjacent_bounds(bx, by, false);
    }
}

impl GameView {
    pub open spec fn is_solid(self, px: int, py: int) -> bool {
        0 <= py < self.piece.len() && 0 <= px < self.piece[py].len() && self.piece[py][px] != '.'
    }

    /// What the piece cell `(px, py)` adds with the piece anchored at `(x, y)`:
    /// the measure of the board cell it lands on, if it is solid and lands on
    /// the board.
    pub open spec fn cell_term(self, m: Measure, x: int, y: int, px: int, py: int) -> int {
        if self.is_solid(px, py) && self.board.in_board(x + px, y + py) {
            self.board.measure_at(m, x + px, y + py)
        } else {
            0
        }
    }

    /// Sum of the terms of the first `n` cells of piece row `py`.
    pub open spec fn row_total(self, m: Measure, x: int, y: int, py: int, n: int) -> int
        decreases n,
    {
        if n <= 0 {
            0
        } else {
            self.row_total(m, x, y, py, n - 1) + self.cell_term(m, x, y, n - 1, py)
        }
    }

    /// Sum of the terms of the first `k` piece rows.
    pub open spec fn rows_total(self, m: Measure, x: int, y: int, k: int) -> int
        decreases k,
    {
        if k <= 0 {
            0
        } else {
            self.rows_total(m, x, y, k - 1) + self.row_total(
                m,
                x,
                y,
                k - 1,
                self.piece[k - 1].len() as int,
            )
        }
    }

    /// Sum of the measure over the board cells covered by the piece anchored
    /// at `(x, y)`.
    pub open spec fn footprint_total(self, m: Measure, x: int, y: int) -> int {
        self.rows_total(m, x, y, self.piece.len() as int)
    }

    /// Every solid cell of the piece anchored at `(x, y)` lands on the board.
    pub open spec fn fits(self, x: int, y: int) -> bool {
        forall|px: int, py: int| #[trigger] self.is_solid(px, py) ==> self.board.in_board(x + px, y + py)
    }

    /// No solid cell of the piece anchored at `(x, y)` lands on an opponent cell.
    pub open spec fn avoids_opponent(self, x: int, y: int) -> bool {
        forall|px: int, py: int| #[trigger]
            self.is_solid(px, py) ==> !self.board.is_opponent_cell(x + px, y + py)
    }

    /// Number of solid cells of the piece anchored at `(x, y)` that land on
    /// the bot's own cells.
    pub open spec fn own_overlaps(self, x: int, y: int) -> int {
        self.footprint_total(Measure::OwnOverlap, x, y)
    }

    /// The game's placement rule: the piece lies on the board, covers exactly
    /// one of the bot's cells and none of the opponent's.
    pub open spec fn is_legal(self, x: int, y: int) -> bool {
        self.fits(x, y) && self.avoids_opponent(x, y) && self.own_overlaps(x, y) == 1
    }

    /// Some anchor on the board is legal.
    pub open spec fn has_legal_anchor(self) -> bool {
        exists|x: int, y: int| self.board.in_board(x, y) && #[trigger] self.is_legal(x, y)
    }

    /// Number of solid piece cells that land on the board.
    pub open spec fn covered_count(self, x: int, y: int) -> int {
        self.footprint_total(Measure::Footprint, x, y)
    }

    /// Mean heat over the covered board cells, rounded down; 0 if none.
    pub open spec fn heat_score(self, x: int, y: int) -> int {
        if self.covered_count(x, y) == 0 {
            0
        } else {
            self.footprint_total(Measure::Heat, x, y) / self.covered_count(x, y)
        }
    }

    /// 5 for each opponent cell next to each covered cell.
    pub open spec fn blocking_score(self, x: int, y: int) -> int {
        5 * self.footprint_total(Measure::OpponentAdjacent, x, y)
    }

    /// 1 for each empty cell next to each covered cell.
    pub open spec fn expansion_score(self, x: int, y: int) -> int {
        self.footprint_total(Measure::EmptyAdjacent, x, y)
    }

    /// 2 for each covered cell.
    pub open spec fn efficiency_score(self, x: int, y: int) -> int {
        2 * self.covered_count(x, y)
    }

    /// A piece row adds at most one bound for each of its cells that can land
    /// on the board, and nothing from a row that lands off it.
    pub proof fn lemma_row_total_bounds(self, m: Measure, x: int, y: int, py: int, n: int)
        requires
            self.board.board_wf(),
            0 <= x,
            0 <= n,
        ensures
            0 <= self.row_total(m, x, y, py, n) <= self.board.measure_bound(m) * clip(
                n,
                if x < self.board.width {
                    self.board.width - x
                } else {
                    0
                },
            ),
            !(0 <= y + py < self.board.height) ==> self.row_total(m, x, y, py, n) == 0,
        decreases n,
    {
        if n > 0 {
            self.lemma_row_total_bounds(m, x, y, py, n - 1);
            self.board.lemma_measure_bounds(m, x + n - 1, y + py);
            let lim = if x < self.board.width {
                self.board.width - x
            } else {
                0
            };
            let b = self.board.measure_bound(m);
            assert(b >= 0);
            if self.board.in_board(x + n - 1, y + py) {
                assert(clip(n, lim) == n && clip(n - 1, lim) == n - 1);
                assert(b * (n - 1) + b == b * n) by (nonlinear_arith);
            } else {
                assert(b * clip(n - 1, lim) <= b * clip(n, lim)) by (nonlinear_arith)
                    requires
                        b >= 0,
                        clip(n - 1, lim) <= clip(n, lim),
                ;
            }
        }
    }

    /// The piece adds at most one bound per board column for each piece row
    /// that can land on the board.
    pub proof fn lemma_rows_total_bounds(self, m: Measure, x: int, y: int, k: int)
        requires
            self.board.board_wf(),
            0 <= x,
            0 <= y,
            0 <= k <= self.piece.len(),
        ensures
            0 <= self.rows_total(m, x, y, k) <= self.board.measure_bound(m) * self.board.width * clip(
                k,
                if y < self.board.height {
                    self.board.height - y
                } else {
                    0
                },
            ),
        decreases k,
    {
        if k > 0 {
            self.lemma_rows_total_bounds(m, x, y, k - 1);
            let n = self.piece[k - 1].len() as int;
            self.lemma_row_total_bounds(m, x, y, k - 1, n);
            let lim = if y < self.board.height {
                self.board.height - y
            } else {
                0
            };
            let limx = if x < self.board.width {
                self.board.width - x
            } else {
                0
            };
            let b = self.board.measure_bound(m);
            self.board.lemma_measure_bounds(m, 0, 0);
            let c = b * self.board.width;
            assert(b * clip(n, limx) <= c) by (nonlinear_arith)
                requires
                    b >= 0,
                    0 <= clip(n, limx) <= self.board.width,
                    c == b * self.board.width,
            ;
            assert(c >= 0) by (nonlinear_arith)
                requires
                    b >= 0,
                    self.board.width >= 0,
                    c == b * self.board.width,
            ;
            if 0 <= y + k - 1 < self.board.height {
                assert(clip(k, lim) == k && clip(k - 1, lim) == k - 1);
                assert(c * (k - 1) + c == c * k) by (nonlinear_arith);
            } else {
                assert(c * clip(k - 1, lim) <= c * clip(k, lim)) by (nonlinear_arith)
                    requires
                        c >= 0,
                        clip(k - 1, lim) <= clip(k, lim),
                ;
            }
        }
    }

    pub proof fn lemma_row_total_monotone(self, m: Measure, x: int, y: int, py: int, n1: int, n2: int)
        requires
            self.board.board_wf(),
            0 <= n1 <= n2,
        ensures
            self.row_total(m, x, y, py, n1) <= self.row_total(m, x, y, py, n2),
        decreases n2 - n1,
    {
        if n1 < n2 {
            self.lemma_row_total_monotone(m, x, y, py, n1, n2 - 1);
            self.board.lemma_measure_bounds(m, x + n2 - 1, y + py);
        }
    }

    pub proof fn lemma_rows_total_monotone(self, m: Measure, x: int, y: int, k1: int, k2: int)
        requires
            self.board.board_wf(),
            0 <= x,
            0 <= k1 <= k2 <= self.piece.len(),
        ensures
            self.rows_total(m, x, y, k1) <= self.rows_total(m, x, y, k2),
        decreases k2 - k1,
    {
        if k1 < k2 {
            self.lemma_rows_total_monotone(m, x, y, k1, k2 - 1);
            self.lemma_row_total_bounds(m, x, y, k2 - 1, self.piece[k2 - 1].len() as int);
        }
    }

    pub proof fn lemma_rows_total_cap(self, m: Measure, x: int, y: int, k: int)
        requires
            self.board.board_wf(),
            0 <= x,
            0 <= y,
            0 <= k <= self.piece.len(),
        ensures
            0 <= self.rows_total(m, x, y, k) <= measure_cap(m),
    {
        self.lemma_rows_total_bounds(m, x, y, k);
        self.board.lemma_measure_bounds(m, 0, 0);
        let b = self.board.measure_bound(m);
        let w = self.board.width;
        let c = clip(
            k,
            if y < self.board.height {
                self.board.height - y
            } else {
                0
            },
        );
        let top = measure_cap(m) / 1_000_000;
        assert(b <= top);
        assert(b * w <= top * 1000) by (nonlinear_arith)
            requires
                0 <= b <= top,
                0 <= w <= 1000,
        ;
        assert(b * w * c <= top * 1000 * 1000) by (nonlinear_arith)
            requires
                0 <= b * w <= top * 1000,
                0 <= c <= 1000,
        ;
    }

    /// A running total part way through piece row `k` stays under the cap.
    pub proof fn lemma_partial_total_cap(self, m: Measure, x: int, y: int, k: int, n: int)
        requires
            self.board.board_wf(),
            0 <= x,
            0 <= y,
            0 <= k < self.piece.len(),
            0 <= n <= self.piece[k].len(),
        ensures
            0 <= self.rows_total(m, x, y, k) + self.row_total(m, x, y, k, n) <= measure_cap(m),
    {
        let full = self.piece[k].len() as int;
        self.lemma_row_total_monotone(m, x, y, k, n, full);
        self.lemma_row_total_bounds(m, x, y, k, n);
        self.lemma_rows_total_cap(m, x, y, k);
        self.lemma_rows_total_cap(m, x, y, k + 1);
    }

    /// The weighted sum of the four scores of the anchor `(x, y)`.
    pub open spec fn composite_score(self, w: ScoreWeights, x: int, y: int) -> int {
        self.heat_score(x, y) * w.heat + self.blocking_score(x, y) * w.blocking
            + self.expansion_score(x, y) * w.expansion + self.efficiency_score(x, y) * w.efficiency
    }

    /// `(x, y)` is a legal anchor on the board with the greatest total score,
    /// and no legal anchor before it in row-major order scores as much.
    pub open spec fn is_best_placement(self, w: ScoreWeights, x: int, y: int) -> bool {
        &&& self.board.in_board(x, y)
        &&& self.is_legal(x, y)
        &&& forall|qx: int, qy: int|
            self.board.in_board(qx, qy) && #[trigger] self.is_legal(qx, qy) ==> self.composite_score(
                w,
                qx,
                qy,
            ) <= self.composite_score(w, x, y)
        &&& forall|qx: int, qy: int|
            self.board.in_board(qx, qy) && #[trigger] self.is_legal(qx, qy) && scan_before(
                (qx as usize, qy as usize),
                (x as usize, y as usize),
            ) ==> self.composite_score(w, qx, qy) < self.composite_score(w, x, y)
    }

    pub proof fn lemma_score_bounds(self, x: int, y: int)
        requires
            self.board.board_wf(),
            0 <= x,
            0 <= y,
        ensures
            0 <= self.heat_score(x, y) <= 2_000_000_000,
            0 <= self.blocking_score(x, y) <= 40_000_000,
            0 <= self.expansion_score(x, y) <= 8_000_000,
            0 <= self.efficiency_score(x, y) <= 2_000_000,
    {
        let k = self.piece.len() as int;
        self.lemma_rows_total_cap(Measure::Heat, x, y, k);
        self.lemma_rows_total_cap(Measure::Footprint, x, y, k);
        self.lemma_rows_total_cap(Measure::OpponentAdjacent, x, y, k);
        self.lemma_rows_total_cap(Measure::EmptyAdjacent, x, y, k);
        let t = self.footprint_total(Measure::Heat, x, y);
        let c = self.covered_count(x, y);
        if c != 0 {
            assert(0 <= t / c <= t) by (nonlinear_arith)
                requires
                    0 <= t,
                    1 <= c,
            ;
        }
    }

    /// `moves` lists every legal anchor on the board, each once, in row-major
    /// order.
    pub open spec fn lists_legal_anchors(self, moves: Seq<(usize, usize)>) -> bool {
        &&& forall|i: int|
            0 <= i < moves.len() ==> self.board.in_board(#[trigger] moves[i].0 as int, moves[i].1 as int)
                && self.is_legal(moves[i].0 as int, moves[i].1 as int)
        &&& forall|x: int, y: int|
            self.board.in_board(x, y) && #[trigger] self.is_legal(x, y) ==> exists|i: int|
                0 <= i < moves.len() && #[trigger] moves[i] == (x as usize, y as usize)
        &&& forall|i: int, j: int|
            0 <= i < j < moves.len() ==> scan_before(#[trigger] moves[i], #[trigger] moves[j])
    }

    /// `choice` is the move to play under the weights `w`: the best placement,
    /// or none when no anchor is legal.
    pub open spec fn is_move_choice(self, w: ScoreWeights, choice: Option<(usize, usize)>) -> bool {
        match choice {
            None => !self.has_legal_anchor(),
            Some(best) => self.is_best_placement(w, best.0 as int, best.1 as int),
        }
    }
}

} // verus!
