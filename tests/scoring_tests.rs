use filler::filler_ai::FillerAi;
use filler::piece::Piece;
use filler::weights::ScoreWeights;

fn grid(rows: &[&str]) -> Vec<Vec<char>> {
    rows.iter().map(|r| r.chars().collect()).collect()
}

fn ai_with(player: u8, rows: &[&str], piece: &[&str]) -> FillerAi {
    let mut ai = FillerAi::new(player);
    let board = grid(rows);
    let height = board.len();
    let width = if height == 0 { 0 } else { board[0].len() };
    ai.update_board(width, height, board);
    let pattern = grid(piece);
    let ph = pattern.len();
    let pw = if ph == 0 { 0 } else { pattern[0].len() };
    ai.update_piece(Piece::new(pw, ph, pattern));
    ai
}

#[test]
fn heat_map_exact_values() {
    let ai = ai_with(1, &["@..$", "....", "...."], &["O"]);
    // W + H = 7; distance from (3, 1) to (3, 0) is 1, from (0, 1) it is 4.
    assert_eq!(ai.heat_map[1][3], 6);
    assert_eq!(ai.heat_map[1][0], 3);
    assert_eq!(ai.heat_map[2][0], 2);
    assert_eq!(ai.heat_map[0][0], 0);
    assert_eq!(ai.heat_map[0][3], 0);
}

#[test]
fn heat_map_all_zero_without_opponent() {
    let ai = ai_with(1, &["@...", "...."], &["O"]);
    for row in &ai.heat_map {
        for &v in row {
            assert_eq!(v, 0);
        }
    }
}

#[test]
fn heat_map_uses_nearest_opponent_cell() {
    let ai = ai_with(2, &["@....", ".....", "....@"], &["O"]);
    // Playing as player 2, the opponent owns the '@' cells; W + H = 8.
    assert_eq!(ai.heat_map[1][2], 8 - 3);
    assert_eq!(ai.heat_map[2][3], 8 - 1);
    assert_eq!(ai.heat_map[0][1], 8 - 1);
}

#[test]
fn scenario_heat_nearer_candidate_scores_higher() {
    let ai = ai_with(1, &["@..$", "...."], &["O"]);
    assert_eq!(ai.calculate_heat_score(2, 0), 5);
    assert_eq!(ai.calculate_heat_score(1, 0), 4);
    assert!(ai.calculate_heat_score(2, 0) > ai.calculate_heat_score(1, 0));
}

#[test]
fn heat_strictly_decreases_with_distance_on_empty_board() {
    let ai = ai_with(1, &["......", "......", "..$..."], &["O"]);
    let mut last = i32::MAX;
    for x in (0..2).rev() {
        let h = ai.calculate_heat_score(x, 2);
        assert!(h < last);
        last = h;
    }
    assert!(ai.calculate_heat_score(1, 1) > ai.calculate_heat_score(0, 0));
}

#[test]
fn heat_score_is_mean_rounded_down() {
    let ai = ai_with(1, &["@..$", "...."], &["OO"]);
    // Cells (1, 0) and (2, 0) have heat 4 and 5: mean 4.5 rounds to 4.
    assert_eq!(ai.calculate_heat_score(1, 0), 4);
    // Only (3, 1) is on the board at anchor (3, 1): heat 6 - 1 = 5.
    assert_eq!(ai.calculate_heat_score(3, 1), 5);
}

#[test]
fn scores_are_zero_off_the_board() {
    let ai = ai_with(1, &["@..$", "...."], &["OO", "OO"]);
    assert_eq!(ai.calculate_heat_score(10, 10), 0);
    assert_eq!(ai.calculate_blocking_score(10, 10), 0);
    assert_eq!(ai.calculate_expansion_score(10, 10), 0);
    assert_eq!(ai.calculate_piece_efficiency(10, 10), 0);
    assert_eq!(ai.calculate_piece_efficiency(usize::MAX, usize::MAX), 0);
}

#[test]
fn scores_are_zero_for_an_empty_piece() {
    let ai = ai_with(1, &["@..$", "...."], &["..", ".."]);
    assert_eq!(ai.calculate_heat_score(0, 0), 0);
    assert_eq!(ai.calculate_blocking_score(0, 0), 0);
    assert_eq!(ai.calculate_expansion_score(0, 0), 0);
    assert_eq!(ai.calculate_piece_efficiency(0, 0), 0);
    assert!(ai.find_all_valid_placements().is_empty());
    assert_eq!(ai.find_best_move(), None);
}

#[test]
fn blocking_score_exact_values() {
    let ai = ai_with(1, &["@.s.", "...."], &["O"]);
    assert_eq!(ai.calculate_blocking_score(2, 1), 5);
    assert_eq!(ai.calculate_blocking_score(1, 0), 5);
    assert_eq!(ai.calculate_blocking_score(0, 1), 0);
    // The cell itself is not its own neighbour.
    assert_eq!(ai.calculate_blocking_score(2, 0), 0);
}

#[test]
fn blocking_score_counts_each_covered_cell() {
    let ai = ai_with(1, &["$$$", "...", "..."], &["OOO"]);
    // Each of the three covered cells of row 1 sees the $ cells above it:
    // 2 + 3 + 2 opponent neighbours.
    assert_eq!(ai.calculate_blocking_score(0, 1), 35);
}

#[test]
fn expansion_score_exact_values() {
    let ai = ai_with(1, &["@...", "....", "...$"], &["O"]);
    assert_eq!(ai.calculate_expansion_score(1, 1), 7);
    assert_eq!(ai.calculate_expansion_score(0, 0), 3);
    assert_eq!(ai.calculate_expansion_score(2, 1), 7);
}

#[test]
fn efficiency_counts_cells_on_the_board() {
    let mut ai = ai_with(1, &["@...", "...."], &["OO", "OO"]);
    assert_eq!(ai.calculate_piece_efficiency(1, 0), 8);
    // At (3, 1) only one of the four cells lands on the board.
    assert_eq!(ai.calculate_piece_efficiency(3, 1), 2);
    ai.update_piece(Piece::new(1, 1, vec![vec!['O']]));
    assert_eq!(ai.calculate_piece_efficiency(1, 0), 2);
    ai.update_piece(Piece::new(3, 1, vec![vec!['O', '.', 'O']]));
    assert_eq!(ai.calculate_piece_efficiency(0, 0), 4);
}

#[test]
fn placements_touch_exactly_one_own_cell() {
    let ai = ai_with(1, &["@...", "....", "...$"], &["OO"]);
    assert_eq!(ai.find_all_valid_placements(), vec![(0, 0)]);
    let ai = ai_with(1, &["....", ".a..", "...s"], &["OO", "O."]);
    assert_eq!(ai.find_all_valid_placements(), vec![(1, 0), (0, 1), (1, 1)]);
}

#[test]
fn placements_are_in_row_major_order() {
    let ai = ai_with(1, &[".@.", "...", ".@."], &["O"]);
    assert_eq!(ai.find_all_valid_placements(), vec![(1, 0), (1, 2)]);
    let ai = ai_with(1, &["...", ".@.", "..."], &["OOO", "OOO", "OOO"]);
    assert_eq!(ai.find_all_valid_placements(), vec![(0, 0)]);
}

#[test]
fn placements_reject_two_own_cells_and_opponent_cells() {
    let ai = ai_with(1, &["@@.", "..."], &["OO"]);
    // (0, 0) covers two own cells; (1, 0) covers one.
    assert_eq!(ai.find_all_valid_placements(), vec![(1, 0)]);
    let ai = ai_with(1, &["@$.", "@.."], &["OO"]);
    // (0, 0) covers a $ cell; (0, 1) covers one own cell.
    assert_eq!(ai.find_all_valid_placements(), vec![(0, 1)]);
}

#[test]
fn no_placement_without_own_cell() {
    let ai = ai_with(1, &["....", "..$.", "...."], &["O"]);
    assert!(ai.find_all_valid_placements().is_empty());
    assert_eq!(ai.find_best_move(), None);
    let ai = ai_with(2, &["....", "..@.", "...."], &["OO"]);
    assert!(ai.find_all_valid_placements().is_empty());
}

#[test]
fn no_placement_for_a_piece_larger_than_the_board() {
    let ai = ai_with(1, &["@."], &["OOO"]);
    assert!(ai.find_all_valid_placements().is_empty());
    assert_eq!(ai.find_best_move(), None);
}

#[test]
fn no_placement_on_an_empty_board() {
    let ai = ai_with(1, &[], &["O"]);
    assert!(ai.find_all_valid_placements().is_empty());
    assert_eq!(ai.find_best_move(), None);
}

#[test]
fn scenario_enclosed_cell_blocks_pieces_of_two_cells() {
    let rows = ["$$$", "$@$", "$$$"];
    for piece in [&["OO"][..], &["O", "O"][..], &["O.", ".O"][..], &["OOO", "OOO", "OOO"][..]] {
        let ai = ai_with(1, &rows, piece);
        assert!(ai.find_all_valid_placements().is_empty());
        assert_eq!(ai.find_best_move(), None);
    }
    // A piece of one cell still fits on the bot's own cell.
    let ai = ai_with(1, &rows, &["O"]);
    assert_eq!(ai.find_all_valid_placements(), vec![(1, 1)]);
    assert_eq!(ai.find_best_move(), Some((1, 1)));
}

#[test]
fn best_move_is_none_exactly_when_no_placement() {
    let cases: [(&[&str], &[&str]); 4] = [
        (&["@..s", "...."], &["O"]),
        (&["$$$", "$@$", "$$$"], &["OO"]),
        (&["@...", "....", "...$"], &["OO"]),
        (&["....", "....", "...$"], &["OO"]),
    ];
    for (rows, piece) in cases {
        let ai = ai_with(1, rows, piece);
        assert_eq!(ai.find_best_move().is_none(), ai.find_all_valid_placements().is_empty());
    }
}

#[test]
fn best_move_exact_choice() {
    let ai = ai_with(1, &["@..s", "...."], &["O"]);
    // A piece of one cell can only go on the bot's own cell.
    assert_eq!(ai.find_best_move(), Some((0, 0)));
    let ai = ai_with(1, &["....", ".@..", "...$"], &["OO"]);
    // (1, 1) reaches (2, 1), next to the opponent and hotter than (0, 1).
    assert_eq!(ai.find_all_valid_placements(), vec![(0, 1), (1, 1)]);
    assert_eq!(ai.find_best_move(), Some((1, 1)));
}

#[test]
fn best_move_ties_go_to_the_first_in_scan_order() {
    let ai = ai_with(1, &[".@."], &["OO"]);
    assert_eq!(ai.find_all_valid_placements(), vec![(0, 0), (1, 0)]);
    assert_eq!(ai.find_best_move(), Some((0, 0)));
}

#[test]
fn best_move_follows_the_weights() {
    let ai = ai_with(1, &["....", ".@..", "...$"], &["OO"]);
    let zero = ScoreWeights { heat: 0, blocking: 0, expansion: 0, efficiency: 0 };
    assert_eq!(ai.find_best_move_with_weights(&zero), Some((0, 1)));
    let away = ScoreWeights { heat: -100, blocking: 0, expansion: 0, efficiency: 0 };
    assert_eq!(ai.find_best_move_with_weights(&away), Some((0, 1)));
    let standard = ScoreWeights::standard();
    assert_eq!(standard.heat, 100);
    assert_eq!(standard.blocking, 20);
    assert_eq!(standard.expansion, 5);
    assert_eq!(standard.efficiency, 10);
    assert_eq!(ai.find_best_move_with_weights(&standard), ai.find_best_move());
}

#[test]
fn largest_board() {
    let side = filler::model::MAX_SIDE;
    let mut board = vec![vec!['.'; side]; side];
    board[0][0] = '@';
    board[side - 1][side - 1] = '$';
    let mut ai = FillerAi::new(1);
    ai.update_board(side, side, board);
    ai.update_piece(Piece::new(1, 1, vec![vec!['O']]));
    assert_eq!(ai.heat_map[0][1], (2 * side - (2 * side - 3)) as i32);
    assert_eq!(ai.heat_map[side - 1][side - 2], (2 * side - 1) as i32);
    assert_eq!(ai.find_all_valid_placements(), vec![(0, 0)]);
    assert_eq!(ai.find_best_move(), Some((0, 0)));
}

#[test]
fn player_symbols() {
    let p = filler::player::Player::new(1);
    assert_eq!((p.number, p.territory_symbol, p.last_placed_symbol), (1, '@', 'a'));
    let p = filler::player::Player::new(2);
    assert_eq!((p.number, p.territory_symbol, p.last_placed_symbol), (2, '$', 's'));
    let p = filler::player::Player::new(7);
    assert_eq!((p.number, p.territory_symbol, p.last_placed_symbol), (2, '$', 's'));
    assert!(p.owns_cell('$') && p.owns_cell('s') && !p.owns_cell('@') && !p.owns_cell('.'));
    let ai = FillerAi::new(2);
    assert_eq!(ai.my_player.territory_symbol, '$');
    assert_eq!(ai.opponent_player.number, 1);
    assert_eq!(ai.opponent_player.last_placed_symbol, 'a');
}
