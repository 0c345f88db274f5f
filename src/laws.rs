use vstd::prelude::*;

use crate::model::{manhattan, GameView, Measure};
use crate::weights::ScoreWeights;

verus! {

proof fn lemma_row_without_own_cells(g: GameView, x: int, y: int, py: int, n: int)
    requires
        forall|bx: int, by: int| !(#[trigger] g.board.is_own_cell(bx, by)),
    ensures
        g.row_total(Measure::OwnOverlap, x, y, py, n) == 0,
    decreases n,
{
    if n > 0 {
        lemma_row_without_own_cells(g, x, y, py, n - 1);
        assert(!g.board.is_own_cell(x + n - 1, y + py));
    }
}

proof fn lemma_rows_without_own_cells(g: GameView, x: int, y: int, k: int)
    requires
        forall|bx: int, by: int| !(#[trigger] g.board.is_own_cell(bx, by)),
    ensures
        g.rows_total(Measure::OwnOverlap, x, y, k) == 0,
    decreases k,
{
    if k > 0 {
        lemma_rows_without_own_cells(g, x, y, k - 1);
        lemma_row_without_own_cells(g, x, y, k - 1, g.piece[k - 1].len() as int);
    }
}

/// A placement must cover exactly one of the bot's cells, so on a board
/// where the bot owns no cell no anchor is legal.
pub proof fn lemma_no_own_cell_no_placement(g: GameView)
    requires
        forall|bx: int, by: int| !(#[trigger] g.board.is_own_cell(bx, by)),
    ensures
        !g.has_legal_anchor(),
{
    assert forall|x: int, y: int| g.board.in_board(x, y) implies !(#[trigger] g.is_legal(x, y)) by {
        lemma_rows_without_own_cells(g, x, y, g.piece.len() as int);
    }
}

/// A piece of one solid cell covers exactly the cell it is anchored on.
proof fn lemma_single_cell_totals(g: GameView, x: int, y: int)
    requires
        g.piece.len() == 1,
        g.piece[0].len() == 1,
        g.piece[0][0] != '.',
        g.board.in_board(x, y),
    ensures
        g.covered_count(x, y) == 1,
        g.footprint_total(Measure::Heat, x, y) == g.board.heat_at(x, y),
        g.heat_score(x, y) == g.board.heat_at(x, y),
{
    assert(g.row_total(Measure::Footprint, x, y, 0, 0) == 0);
    assert(g.row_total(Measure::Heat, x, y, 0, 0) == 0);
    assert(g.cell_term(Measure::Footprint, x, y, 0, 0) == 1);
    assert(g.row_total(Measure::Footprint, x, y, 0, 1) == 1);
    assert(g.row_total(Measure::Heat, x, y, 0, 1) == g.board.heat_at(x, y));
    assert(g.rows_total(Measure::Footprint, x, y, 0) == 0);
    assert(g.rows_total(Measure::Heat, x, y, 0) == 0);
    assert(g.rows_total(Measure::Footprint, x, y, 1) == 1);
    assert(g.rows_total(Measure::Heat, x, y, 1) == g.board.heat_at(x, y));
}

/// With a single opponent cell on the board and a piece of one solid cell,
/// an anchor on an empty cell nearer (by Manhattan distance) to the opponent
/// cell has a strictly greater heat score than one farther away. This holds
/// on an otherwise empty board in particular.
pub proof fn lemma_nearer_cell_hotter(g: GameView, ox: int, oy: int, x1: int, y1: int, x2: int, y2: int)
    requires
        g.board.board_wf(),
        g.board.is_opponent_cell(ox, oy),
        forall|bx: int, by: int| #[trigger] g.board.is_opponent_cell(bx, by) ==> bx == ox && by == oy,
        g.piece.len() == 1,
        g.piece[0].len() == 1,
        g.piece[0][0] != '.',
        g.board.is_empty_cell(x1, y1),
        g.board.is_empty_cell(x2, y2),
        manhattan(x1, y1, ox, oy) < manhattan(x2, y2, ox, oy),
    ensures
        g.heat_score(x1, y1) > g.heat_score(x2, y2),
{
    assert(g.board.has_opponent_cell());
    assert(g.board.is_min_opponent_distance(x1, y1, manhattan(x1, y1, ox, oy)));
    assert(g.board.is_min_opponent_distance(x2, y2, manhattan(x2, y2, ox, oy)));
    g.board.lemma_min_distance_is(x1, y1, manhattan(x1, y1, ox, oy));
    g.board.lemma_min_distance_is(x2, y2, manhattan(x2, y2, ox, oy));
    lemma_single_cell_totals(g, x1, y1);
    lemma_single_cell_totals(g, x2, y2);
}

/// The efficiency score grows strictly with the number of solid piece cells
/// that land on the board.
pub proof fn lemma_efficiency_grows_with_cover(g1: GameView, x1: int, y1: int, g2: GameView, x2: int, y2: int)
    requires
        g1.covered_count(x1, y1) < g2.covered_count(x2, y2),
    ensures
        g1.efficiency_score(x1, y1) < g2.efficiency_score(x2, y2),
{
}

/// On any board, at an anchor where a fully solid 2x2 piece fits, it has a
/// greater efficiency score than a piece of one solid cell.
pub proof fn lemma_square_beats_single_cell(square: GameView, single: GameView, x: int, y: int)
    requires
        square.board == single.board,
        square.piece.len() == 2,
        forall|py: int| 0 <= py < 2 ==> #[trigger] square.piece[py].len() == 2,
        forall|px: int, py: int| 0 <= px < 2 && 0 <= py < 2 ==> #[trigger] square.piece[py][px] != '.',
        single.piece.len() == 1,
        single.piece[0].len() == 1,
        single.piece[0][0] != '.',
        square.board.in_board(x, y),
        square.board.in_board(x + 1, y + 1),
    ensures
        square.efficiency_score(x, y) > single.efficiency_score(x, y),
{
    lemma_single_cell_totals(single, x, y);
    assert(square.piece[0].len() == 2);
    assert(square.piece[1].len() == 2);
    assert(square.piece[0][0] != '.' && square.piece[0][1] != '.');
    assert(square.piece[1][0] != '.' && square.piece[1][1] != '.');
    reveal_with_fuel(GameView::row_total, 3);
    reveal_with_fuel(GameView::rows_total, 3);
    assert(square.covered_count(x, y) == 4);
}

/// Where every board cell but one is the opponent's, a piece with two or more
/// solid cells has no legal anchor: all its solid cells would have to land
/// on that one cell.
pub proof fn lemma_enclosed_cell_admits_no_large_piece(
    g: GameView,
    cx: int,
    cy: int,
    px1: int,
    py1: int,
    px2: int,
    py2: int,
)
    requires
        forall|bx: int, by: int|
            g.board.in_board(bx, by) && !(bx == cx && by == cy) ==> #[trigger] g.board.is_opponent_cell(
                bx,
                by,
            ),
        g.is_solid(px1, py1),
        g.is_solid(px2, py2),
        px1 != px2 || py1 != py2,
    ensures
        !g.has_legal_anchor(),
{
    assert forall|x: int, y: int| g.board.in_board(x, y) implies !(#[trigger] g.is_legal(x, y)) by {
        if g.is_legal(x, y) {
            assert(g.board.in_board(x + px1, y + py1));
            assert(g.board.in_board(x + px2, y + py2));
            assert(!g.board.is_opponent_cell(x + px1, y + py1));
            assert(!g.board.is_opponent_cell(x + px2, y + py2));
        }
    }
}

/// The selector answers "no move" exactly when the validator finds no
/// legal anchor.
pub proof fn lemma_no_move_iff_no_placement(
    g: GameView,
    w: ScoreWeights,
    moves: Seq<(usize, usize)>,
    choice: Option<(usize, usize)>,
)
    requires
        g.lists_legal_anchors(moves),
        g.is_move_choice(w, choice),
    ensures
        choice is None <==> moves.len() == 0,
{
    if moves.len() > 0 {
        assert(g.board.in_board(moves[0].0 as int, moves[0].1 as int));
        assert(g.is_legal(moves[0].0 as int, moves[0].1 as int));
    }
    if g.has_legal_anchor() {
        let (x, y) = choose|x: int, y: int| g.board.in_board(x, y) && #[trigger] g.is_legal(x, y);
        assert(exists|i: int| 0 <= i < moves.len() && #[trigger] moves[i] == (x as usize, y as usize));
    }
    if let Some(best) = choice {
        assert(g.is_legal(best.0 as int, best.1 as int));
    }
}

} // verus!
