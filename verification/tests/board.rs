use othello::{Board, Piece};

/// Builds a board from eight rows of eight characters: `B`, `W` or `.`.
fn board_from(rows: [&str; 8]) -> Board {
    let mut cells = Vec::new();
    for row in rows {
        assert_eq!(row.chars().count(), 8);
        for c in row.chars() {
            cells.push(match c {
                'B' => Some(Piece::Black),
                'W' => Some(Piece::White),
                '.' => None,
                _ => panic!("unknown square {c}"),
            });
        }
    }
    Board::from_cells(&cells).unwrap()
}

#[test]
fn adjacent() {
    let board = Board::new();
    assert!(!board.adjacent(0, 0).unwrap());
    assert!(board.adjacent(2, 3).unwrap());
}

#[test]
fn piece_not_swaps_the_colours() {
    assert_eq!(!Piece::Black, Piece::White);
    assert_eq!(!Piece::White, Piece::Black);
    assert_eq!(!!Piece::Black, Piece::Black);
    assert_eq!(!!Piece::White, Piece::White);
}

#[test]
fn width_is_eight() {
    assert_eq!(Board::width(), 8);
}

#[test]
fn new_board_has_the_four_central_pieces() {
    let board = Board::new();
    for y in 0..8 {
        for x in 0..8 {
            let expected = match (x, y) {
                (3, 3) | (4, 4) => Some(Piece::White),
                (4, 3) | (3, 4) => Some(Piece::Black),
                _ => None,
            };
            assert_eq!(board.get(x, y), expected, "square ({x}, {y})");
        }
    }
    assert_eq!(board.count(Piece::Black), 2);
    assert_eq!(board.count(Piece::White), 2);
}

#[test]
fn new_board_equals_its_picture() {
    let pictured = board_from([
        "........",
        "........",
        "........",
        "...WB...",
        "...BW...",
        "........",
        "........",
        "........",
    ]);
    assert_eq!(Board::new(), pictured);
}

#[test]
fn get_off_the_board_is_empty() {
    let board = Board::new();
    assert_eq!(board.get(8, 0), None);
    assert_eq!(board.get(0, 8), None);
    assert_eq!(board.get(usize::MAX, usize::MAX), None);
    // (11, 2) would fall on the index of (3, 3) if rows were not checked.
    assert_eq!(board.get(11, 2), None);
}

#[test]
fn adjacent_counts_diagonals_and_clips_at_the_edges() {
    let board = board_from([
        "B.......",
        "........",
        "........",
        "........",
        "........",
        "........",
        "........",
        ".......W",
    ]);
    assert!(board.adjacent(1, 1).unwrap());
    assert!(board.adjacent(1, 0).unwrap());
    assert!(board.adjacent(0, 1).unwrap());
    assert!(!board.adjacent(0, 0).unwrap());
    assert!(!board.adjacent(2, 2).unwrap());
    assert!(board.adjacent(6, 6).unwrap());
    assert!(!board.adjacent(7, 7).unwrap());
    // The far end of a row does not wrap round to the next one.
    assert!(!board.adjacent(7, 0).unwrap());
    assert!(!board.adjacent(0, 7).unwrap());
}

#[test]
fn adjacent_is_about_the_neighbours_not_the_square() {
    let board = board_from([
        "........",
        "........",
        "........",
        "...B....",
        "........",
        "........",
        "........",
        "........",
    ]);
    assert!(!board.adjacent(3, 3).unwrap());
    for (x, y) in [(2, 2), (3, 2), (4, 2), (2, 3), (4, 3), (2, 4), (3, 4), (4, 4)] {
        assert!(board.adjacent(x, y).unwrap(), "square ({x}, {y})");
    }
    assert!(!board.adjacent(5, 3).unwrap());
}

#[test]
fn flips_on_a_new_board() {
    let board = Board::new();
    for (x, y) in [(2, 3), (3, 2), (5, 4), (4, 5)] {
        assert_eq!(board.flips(x, y, Piece::Black), 1, "black at ({x}, {y})");
        assert_eq!(board.flips(x, y, Piece::White), 0, "white at ({x}, {y})");
    }
    for (x, y) in [(5, 3), (4, 2), (2, 4), (3, 5)] {
        assert_eq!(board.flips(x, y, Piece::White), 1, "white at ({x}, {y})");
        assert_eq!(board.flips(x, y, Piece::Black), 0, "black at ({x}, {y})");
    }
    assert_eq!(board.flips(2, 2, Piece::Black), 0);
    assert_eq!(board.flips(0, 0, Piece::Black), 0);
}

#[test]
fn flips_adds_up_all_eight_directions() {
    let board = board_from([
        "B..B..B.",
        ".W.W.W..",
        "..WWW...",
        "BWW.WWWB",
        "..WWW...",
        ".W.W.W..",
        "B..B..B.",
        "........",
    ]);
    // Two each to the upper left, up, upper right, left, lower left, down and
    // lower right, three to the right.
    assert_eq!(board.flips(3, 3, Piece::Black), 17);
    assert_eq!(board.flips(3, 3, Piece::White), 0);
}

#[test]
fn flips_needs_a_closing_piece() {
    let board = board_from([
        "........",
        "........",
        "........",
        ".WWWWWWW",
        "........",
        ".WW.B...",
        "........",
        ".WWB....",
    ]);
    // The run reaches the edge.
    assert_eq!(board.flips(0, 3, Piece::Black), 0);
    // The run ends at an empty square, with a piece of the mover behind it.
    assert_eq!(board.flips(0, 5, Piece::Black), 0);
    // The run ends at a piece of the mover.
    assert_eq!(board.flips(0, 7, Piece::Black), 2);
}

#[test]
fn flips_needs_a_run_of_opponents() {
    let board = board_from([
        "........",
        "........",
        "........",
        ".B.W....",
        "........",
        "........",
        "........",
        "........",
    ]);
    // A piece of the mover right beside the square encloses nothing.
    assert_eq!(board.flips(0, 3, Piece::Black), 0);
    assert_eq!(board.flips(2, 3, Piece::Black), 0);
    assert_eq!(board.flips(4, 3, Piece::Black), 0);
}

#[test]
fn flips_takes_the_longest_run_on_the_board() {
    let board = board_from([
        ".WWWWWWB",
        "........",
        "........",
        "........",
        "........",
        "........",
        "........",
        "........",
    ]);
    assert_eq!(board.flips(0, 0, Piece::Black), 6);
}

#[test]
fn flips_leaves_the_board_alone() {
    let board = Board::new();
    let before = board;
    for _ in 0..3 {
        assert_eq!(board.flips(2, 3, Piece::Black), 1);
    }
    assert_eq!(board, before);
    assert_eq!(board.cells(), before.cells());
}

#[test]
fn flip_turns_the_enclosed_run_only() {
    let mut board = Board::new();
    board.flip(2, 3, Piece::Black);
    let expected = board_from([
        "........",
        "........",
        "........",
        "...BB...",
        "...BW...",
        "........",
        "........",
        "........",
    ]);
    assert_eq!(board, expected);
    assert_eq!(board.get(2, 3), None);
}

#[test]
fn flip_turns_every_closed_direction() {
    let mut board = board_from([
        "B..B..B.",
        ".W.W.W..",
        "..WWW...",
        "BWW.WWWB",
        "..WWW...",
        ".W.W.W..",
        "B..B..B.",
        "........",
    ]);
    let black = board.count(Piece::Black);
    let white = board.count(Piece::White);
    let flips = board.flips(3, 3, Piece::Black);
    board.flip(3, 3, Piece::Black);
    let expected = board_from([
        "B..B..B.",
        ".B.B.B..",
        "..BBB...",
        "BBB.BBBB",
        "..BBB...",
        ".B.B.B..",
        "B..B..B.",
        "........",
    ]);
    assert_eq!(board, expected);
    assert_eq!(board.count(Piece::Black), black + flips);
    assert_eq!(board.count(Piece::White), white - flips);
}

#[test]
fn flip_turns_as_many_squares_as_flips_counts() {
    let start = board_from([
        "..B.....",
        "..W..B..",
        "..W.W...",
        "BW.WWWB.",
        ".WW.....",
        "W..W....",
        "....B...",
        "........",
    ]);
    for piece in [Piece::Black, Piece::White] {
        let mut board = start;
        let flips = board.flips(2, 3, piece);
        board.flip(2, 3, piece);
        let mut changed = 0;
        for y in 0..8 {
            for x in 0..8 {
                if board.get(x, y) != start.get(x, y) {
                    assert_eq!(start.get(x, y), Some(!piece));
                    assert_eq!(board.get(x, y), Some(piece));
                    changed += 1;
                }
            }
        }
        assert_eq!(changed, flips);
    }
    // Black closes the runs to the left, upwards and to the right. The run
    // to the lower left reaches the edge, the one below ends at an empty
    // square.
    assert_eq!(start.flips(2, 3, Piece::Black), 1 + 2 + 3);
    assert_eq!(start.flips(2, 3, Piece::White), 0);
}

#[test]
fn flip_skips_open_directions() {
    let mut board = board_from([
        "........",
        "........",
        "........",
        ".WWWWWWW",
        "........",
        ".WW.B...",
        "........",
        ".WWB....",
    ]);
    let before = board;
    board.flip(0, 3, Piece::Black);
    assert_eq!(board, before);
    board.flip(0, 5, Piece::Black);
    assert_eq!(board, before);
}

#[test]
fn flip_twice_finds_nothing_more() {
    let mut board = Board::new();
    board.flip(2, 3, Piece::Black);
    let once = board;
    assert_eq!(board.flips(2, 3, Piece::Black), 0);
    board.flip(2, 3, Piece::Black);
    assert_eq!(board, once);
}

#[test]
fn count_tells_the_colours_apart() {
    let board = board_from([
        "BBB.....",
        "W.......",
        "........",
        "........",
        "........",
        "........",
        "........",
        ".......W",
    ]);
    assert_eq!(board.count(Piece::Black), 3);
    assert_eq!(board.count(Piece::White), 2);
}

#[test]
fn can_place_follows_the_rules_of_the_board() {
    let board = Board::new();
    assert!(board.can_place(2, 3, Piece::Black));
    assert!(!board.can_place(2, 3, Piece::White));
    assert!(!board.can_place(3, 3, Piece::Black));
    assert!(!board.can_place(2, 2, Piece::Black));
    assert!(!board.can_place(0, 0, Piece::Black));
    assert!(!board.can_place(8, 3, Piece::Black));
    assert!(!board.can_place(3, 8, Piece::Black));
}

#[test]
fn has_legal_move_on_a_new_board() {
    let board = Board::new();
    assert!(board.has_legal_move(Piece::Black));
    assert!(board.has_legal_move(Piece::White));
}

#[test]
fn has_legal_move_fails_where_nothing_can_be_enclosed() {
    let board = board_from([
        "BBBBBBBB",
        "........",
        "........",
        "........",
        "........",
        "........",
        "........",
        "........",
    ]);
    assert!(!board.has_legal_move(Piece::Black));
    assert!(!board.has_legal_move(Piece::White));
    let board = board_from([
        "WB......",
        "........",
        "........",
        "........",
        "........",
        "........",
        "........",
        "........",
    ]);
    assert!(board.has_legal_move(Piece::White));
    assert!(!board.has_legal_move(Piece::Black));
}

#[test]
fn has_legal_move_finds_the_last_square() {
    let board = board_from([
        "........",
        "........",
        "........",
        "........",
        "........",
        "........",
        "........",
        ".....BW.",
    ]);
    assert!(board.can_place(7, 7, Piece::Black));
    assert!(board.has_legal_move(Piece::Black));
}

#[test]
fn cells_are_listed_row_by_row() {
    let cells = Board::new().cells();
    assert_eq!(cells.len(), 64);
    for (i, cell) in cells.iter().enumerate() {
        let expected = match i {
            27 | 36 => Some(Piece::White),
            28 | 35 => Some(Piece::Black),
            _ => None,
        };
        assert_eq!(*cell, expected, "index {i}");
    }
}

#[test]
fn from_cells_wants_64_squares() {
    assert_eq!(Board::from_cells(&vec![]), None);
    assert_eq!(Board::from_cells(&vec![None; 63]), None);
    assert_eq!(Board::from_cells(&vec![None; 65]), None);
    let empty = Board::from_cells(&vec![None; 64]).unwrap();
    assert_eq!(empty.count(Piece::Black) + empty.count(Piece::White), 0);
}

#[test]
fn cells_round_trip() {
    let mut board = Board::new();
    board.flip(2, 3, Piece::Black);
    assert_eq!(Board::from_cells(&board.cells()), Some(board));
    let mut cells = vec![None; 64];
    cells[5] = Some(Piece::Black);
    cells[63] = Some(Piece::White);
    assert_eq!(Board::from_cells(&cells).unwrap().cells(), cells);
    assert_eq!(Board::from_cells(&cells).unwrap().get(5, 0), Some(Piece::Black));
    assert_eq!(Board::from_cells(&cells).unwrap().get(7, 7), Some(Piece::White));
}

#[test]
fn render_draws_a_new_board() {
    let text = Board::new().render();
    let expected = "........\n\
                    ........\n\
                    ........\n\
                    ...●○...\n\
                    ...○●...\n\
                    ........\n\
                    ........\n\
                    ........\n";
    assert_eq!(text, expected);
}

#[test]
fn render_keeps_rows_and_columns_apart() {
    let board = board_from([
        "B.......",
        ".......W",
        "........",
        "........",
        "........",
        "........",
        "........",
        "W......B",
    ]);
    let text = board.render();
    let lines: Vec<&str> = text.lines().collect();
    assert_eq!(lines.len(), 8);
    assert_eq!(lines[0], "○.......");
    assert_eq!(lines[1], ".......●");
    assert_eq!(lines[7], "●......○");
    assert!(text.ends_with('\n'));
    assert_eq!(text.chars().count(), 72);
}
