use filler::utils::{board_row_cells, chars_of, parse_board_header, parse_piece_header, player_number};
use filler::visualizer::{cell_color, VisualizerHandle};

#[test]
fn board_header_reads_dimensions() {
    assert_eq!(parse_board_header("Anfield 20 15:"), Some((20, 15)));
    assert_eq!(parse_board_header("Anfield 4 3:"), Some((4, 3)));
    assert_eq!(parse_board_header("Anfield  4\t3 :"), Some((4, 3)));
    assert_eq!(parse_board_header("Anfield +4 3:"), Some((4, 3)));
    assert_eq!(parse_board_header("Anfield 4 3: trailing"), Some((4, 3)));
}

#[test]
fn board_header_rejects_malformed_lines() {
    assert_eq!(parse_board_header("Anfield 4 3"), None);
    assert_eq!(parse_board_header("Anfield 4:"), None);
    assert_eq!(parse_board_header("Anfield 4 3 2:"), None);
    assert_eq!(parse_board_header("Anfield a 3:"), None);
    assert_eq!(parse_board_header("Anfield -4 3:"), None);
    assert_eq!(parse_board_header("Anfield + 3:"), None);
    assert_eq!(parse_board_header("Anfield 99999999999999999999999 3:"), None);
    assert_eq!(parse_board_header("Piece 4 3:"), None);
    assert_eq!(parse_board_header("anfield 4 3:"), None);
    assert_eq!(parse_board_header(""), None);
}

#[test]
fn piece_header_reads_dimensions() {
    assert_eq!(parse_piece_header("Piece 2 3:"), Some((2, 3)));
    assert_eq!(parse_piece_header("Piece 0 0:"), Some((0, 0)));
    assert_eq!(parse_piece_header("Piece 2:"), None);
    assert_eq!(parse_piece_header("Anfield 2 3:"), None);
}

#[test]
fn board_row_drops_the_row_number() {
    assert_eq!(board_row_cells("000 ..@."), Some(vec!['.', '.', '@', '.']));
    assert_eq!(board_row_cells("012 $.. s"), Some(vec!['$', '.', '.', ' ', 's']));
    assert_eq!(board_row_cells("012 "), Some(vec![]));
    assert_eq!(board_row_cells("012"), None);
}

#[test]
fn player_line_gives_number() {
    assert_eq!(player_number("$$$ exec p1 : [robots/bender]"), 1);
    assert_eq!(player_number("$$$ exec p2 : [robots/bender]"), 2);
    assert_eq!(player_number("p"), 2);
    assert_eq!(player_number(""), 2);
}

#[test]
fn chars_of_keeps_every_character() {
    assert_eq!(chars_of("a é$"), vec!['a', ' ', 'é', '$']);
    assert_eq!(chars_of(""), Vec::<char>::new());
}

#[test]
fn cell_colors() {
    assert_eq!(cell_color('.'), (200, 200, 200));
    assert_eq!(cell_color('@'), (255, 100, 100));
    assert_eq!(cell_color('a'), (255, 50, 50));
    assert_eq!(cell_color('$'), (100, 100, 255));
    assert_eq!(cell_color('s'), (50, 50, 255));
    assert_eq!(cell_color('x'), (200, 200, 200));
}

#[test]
fn viewer_channel_keeps_the_latest_board() {
    let mut handle = VisualizerHandle::new();
    assert!(handle.take_board().is_none());
    handle.update_board(1, 1, vec![vec!['@']]);
    handle.update_board(2, 1, vec![vec!['$', '.']]);
    assert_eq!(handle.take_board(), Some((2, 1, vec![vec!['$', '.']])));
    assert!(handle.take_board().is_none());
}
