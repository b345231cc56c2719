use rgen::board::Board;
use rgen::coord::{AbsYRG, Coords, RelYRG};
use rgen::piece::{Colors, Shape};
use rgen::pieces::Pieces;

fn rows(board: &Board) -> String {
    board.debug_string().expect("the pattern for dot runs compiles")
}

fn assert_board_overlaps(board: Board, expected: &str) {
    let actual = rows(&board);
    assert_eq!(actual.len(), expected.len());
    for (a, e) in actual.chars().zip(expected.chars()) {
        if a != 'e' {
            assert_eq!(a, e);
        }
    }
}

#[test]
fn test_board_display_empty() {
    let coord = Coords::new();
    let b = Board::new(42, &coord);

    // The signature only shows each cell color.
    assert_eq!(b.to_string(), "eeeeeeeeeeeeeeeeeeeeeeeeeeeeeeeeeeeeeeeeeeeeeeeeeeeeee");

    // The row format also adds line boundaries.
    assert_eq!(rows(&b), "eeeeeee.eeeeeeeee.eeeeeeeeeee.eeeeeeeeeee.eeeeeeeee.eeeeeee");
}

#[test]
fn test_place_piece_single() {
    let coords = Coords::new();
    let pieces = Pieces::new(&coords);

    let empty = Board::new(42, &coords);

    let piece = pieces.by_str("VB").unwrap();
    let mut shape = piece.shape(0);

    // The VB piece at its default rotation can only fit on the top line in 2 spots,
    // at 100 and 110. It's out of bounds anywhere on the first row, and at 120, 130, and 140.
    // It cannot fit on any starting position G=1 as it's oriented for G=0.

    let mut invalid = empty.place_piece(shape, piece.color, &AbsYRG::new(0, 0, 0));
    assert_eq!(invalid, None);

    let mut result = empty.place_piece(shape, piece.color, &AbsYRG::new(1, 0, 0)).unwrap();
    assert_eq!(rows(&result), "BBBBeee.BBeeeeeee.eeeeeeeeeee.eeeeeeeeeee.eeeeeeeee.eeeeeee");

    invalid = empty.place_piece(shape, piece.color, &AbsYRG::new(1, 0, 1));
    assert_eq!(invalid, None);

    result = empty.place_piece(shape, piece.color, &AbsYRG::new(1, 1, 0)).unwrap();
    assert_eq!(rows(&result), "eeBBBBe.eeBBeeeee.eeeeeeeeeee.eeeeeeeeeee.eeeeeeeee.eeeeeee");

    invalid = empty.place_piece(shape, piece.color, &AbsYRG::new(1, 1, 1));
    assert_eq!(invalid, None);

    invalid = empty.place_piece(shape, piece.color, &AbsYRG::new(1, 2, 0));
    assert_eq!(invalid, None);

    invalid = empty.place_piece(shape, piece.color, &AbsYRG::new(1, 2, 1));
    assert_eq!(invalid, None);

    invalid = empty.place_piece(shape, piece.color, &AbsYRG::new(1, 3, 0));
    assert_eq!(invalid, None);

    // Now try again with the VB piece rotated by 300 degrees.
    // This time it can only fit on cells with G=1, at locations 001 and 011,
    // it's out of bounds at 021.

    shape = piece.shape(300);

    invalid = empty.place_piece(shape, piece.color, &AbsYRG::new(0, 0, 0));
    assert_eq!(invalid, None);

    result = empty.place_piece(shape, piece.color, &AbsYRG::new(0, 0, 1)).unwrap();
    assert_eq!(rows(&result), "eBBBBee.eeeeeBBee.eeeeeeeeeee.eeeeeeeeeee.eeeeeeeee.eeeeeee");

    invalid = empty.place_piece(shape, piece.color, &AbsYRG::new(0, 1, 0));
    assert_eq!(invalid, None);

    result = empty.place_piece(shape, piece.color, &AbsYRG::new(0, 1, 1)).unwrap();
    assert_eq!(rows(&result), "eeeBBBB.eeeeeeeBB.eeeeeeeeeee.eeeeeeeeeee.eeeeeeeee.eeeeeee");

    invalid = empty.place_piece(shape, piece.color, &AbsYRG::new(0, 2, 0));
    assert_eq!(invalid, None);

    invalid = empty.place_piece(shape, piece.color, &AbsYRG::new(0, 2, 1));
    assert_eq!(invalid, None);

    invalid = empty.place_piece(shape, piece.color, &AbsYRG::new(0, 3, 0));
    assert_eq!(invalid, None);
}

#[test]
fn test_place_piece_gap() {
    let coords = Coords::new();
    let pieces = Pieces::new(&coords);

    // One of the heuristics is to detect whether placing a piece creates a gap of
    // one cell that will be impossible to fill later.

    let empty = Board::new(42, &coords);

    // HR@0:0x0x0
    let mut piece = pieces.by_str("HR").unwrap();
    let mut shape = piece.shape(0);
    let board = empty.place_piece(shape, piece.color, &AbsYRG::new(0, 0, 0)).unwrap();
    assert_eq!(rows(&board), "RRReeee.eRRReeeee.eeeeeeeeeee.eeeeeeeeeee.eeeeeeeee.eeeeeee");

    piece = pieces.by_str("TW").unwrap();
    shape = piece.shape(0);
    let invalid = board.place_piece(shape, piece.color, &AbsYRG::new(0, 2, 0));
    assert_eq!(invalid, None);
    // The board would look like this: "RRReWWW.eRRReeeee.eeeeeeeeeee.eeeeeeeeeee.eeeeeeeee.eeeeeee"
}

#[test]
fn test_place_piece_all_permutations() {
    let coords = Coords::new();
    let pieces = Pieces::new(&coords);

    // Each piece shape is recentered to start on a (0,0) relative cell, so
    // the offsets are those of the first cell of each piece.

    let empty = Board::new(156954, &coords);

    // HR@0:2x4x0
    let mut piece = pieces.by_str("HR").unwrap();
    let mut shape = piece.shape(0);
    assert!(shape.positions.contains(&AbsYRG::new(2, 4, 0)));
    let mut result = empty.place_piece(shape, piece.color, &AbsYRG::new(2, 4, 0)).unwrap();
    assert_eq!(rows(&result), "eeeeeee.eeeeeeeee.eeeeeeeeRRR.eeeeeeeeRRR.eeeeeeeee.eeeeeee");
    assert_board_overlaps(result, "BBBBBBB.BBBOOOOBB.RRRRRROORRR.OOOYYYYYRRR.YYYYRRRRR.YYYWWWR");

    // i1@0:2x1x0
    piece = pieces.by_str("i1").unwrap();
    shape = piece.shape(0);
    assert!(shape.positions.contains(&AbsYRG::new(2, 0, 0)));
    result = result.place_piece(shape, piece.color, &AbsYRG::new(2, 0, 0)).unwrap();
    assert_eq!(rows(&result), "eeeeeee.eeeeeeeee.RRRRRReeRRR.eeeeeeeeRRR.eeeeeeeee.eeeeeee");
    assert_board_overlaps(result, "BBBBBBB.BBBOOOOBB.RRRRRROORRR.OOOYYYYYRRR.YYYYRRRRR.YYYWWWR");

    // W1@0:0x0x0
    piece = pieces.by_str("W1").unwrap();
    shape = piece.shape(0);
    assert!(shape.positions.contains(&AbsYRG::new(1, 1, 0)));
    result = result.place_piece(shape, piece.color, &AbsYRG::new(1, 1, 0)).unwrap();
    assert_eq!(rows(&result), "BBBeeee.BBBeeeeee.RRRRRReeRRR.eeeeeeeeRRR.eeeeeeeee.eeeeeee");
    assert_board_overlaps(result, "BBBBBBB.BBBOOOOBB.RRRRRROORRR.OOOYYYYYRRR.YYYYRRRRR.YYYWWWR");

    // P1@0:4x3x1
    piece = pieces.by_str("P1").unwrap();
    shape = piece.shape(0);
    assert!(shape.positions.contains(&AbsYRG::new(4, 3, 1)));
    result = result.place_piece(shape, piece.color, &AbsYRG::new(4, 3, 1)).unwrap();
    assert_eq!(rows(&result), "BBBeeee.BBBeeeeee.RRRRRReeRRR.eeeeeeeeRRR.eeeeRRRRR.eeeeeeR");
    assert_board_overlaps(result, "BBBBBBB.BBBOOOOBB.RRRRRROORRR.OOOYYYYYRRR.YYYYRRRRR.YYYWWWR");

    // VB@300:0x3x0
    piece = pieces.by_str("VB").unwrap();
    shape = piece.shape(300);
    assert!(shape.positions.contains(&AbsYRG::new(0, 1, 1)));
    result = result.place_piece(shape, piece.color, &AbsYRG::new(0, 1, 1)).unwrap();
    assert_eq!(rows(&result), "BBBBBBB.BBBeeeeBB.RRRRRReeRRR.eeeeeeeeRRR.eeeeRRRRR.eeeeeeR");
    assert_board_overlaps(result, "BBBBBBB.BBBOOOOBB.RRRRRROORRR.OOOYYYYYRRR.YYYYRRRRR.YYYWWWR");

    // J1@0:1x1x1
    piece = pieces.by_str("J1").unwrap();
    shape = piece.shape(0);
    assert!(shape.positions.contains(&AbsYRG::new(1, 1, 1)));
    result = result.place_piece(shape, piece.color, &AbsYRG::new(1, 1, 1)).unwrap();
    assert_eq!(rows(&result), "BBBBBBB.BBBOOOOBB.RRRRRROORRR.eeeeeeeeRRR.eeeeRRRRR.eeeeeeR");
    assert_board_overlaps(result, "BBBBBBB.BBBOOOOBB.RRRRRROORRR.OOOYYYYYRRR.YYYYRRRRR.YYYWWWR");

    // L2@0:3x2x1
    piece = pieces.by_str("L2").unwrap();
    shape = piece.shape(0);
    assert!(shape.positions.contains(&AbsYRG::new(4, 2, 1)));
    result = result.place_piece(shape, piece.color, &AbsYRG::new(4, 2, 1)).unwrap();
    assert_eq!(rows(&result), "BBBBBBB.BBBOOOOBB.RRRRRROORRR.eeeYYYYYRRR.eeYeRRRRR.eeeeeeR");
    assert_board_overlaps(result, "BBBBBBB.BBBOOOOBB.RRRRRROORRR.OOOYYYYYRRR.YYYYRRRRR.YYYWWWR");

    // TW@0:5x4x0
    piece = pieces.by_str("TW").unwrap();
    shape = piece.shape(0);
    assert!(shape.positions.contains(&AbsYRG::new(5, 4, 0)));
    result = result.place_piece(shape, piece.color, &AbsYRG::new(5, 4, 0)).unwrap();
    assert_eq!(rows(&result), "BBBBBBB.BBBOOOOBB.RRRRRROORRR.eeeYYYYYRRR.eeYeRRRRR.eeeWWWR");
    assert_board_overlaps(result, "BBBBBBB.BBBOOOOBB.RRRRRROORRR.OOOYYYYYRRR.YYYYRRRRR.YYYWWWR");

    // TO@180:4x2x0
    piece = pieces.by_str("TO").unwrap();
    shape = piece.shape(180);
    assert!(shape.positions.contains(&AbsYRG::new(3, 1, 1)));
    result = result.place_piece(shape, piece.color, &AbsYRG::new(3, 1, 1)).unwrap();
    assert_eq!(rows(&result), "BBBBBBB.BBBOOOOBB.RRRRRROORRR.OOOYYYYYRRR.eeYeRRRRR.eeeWWWR");
    assert_board_overlaps(result, "BBBBBBB.BBBOOOOBB.RRRRRROORRR.OOOYYYYYRRR.YYYYRRRRR.YYYWWWR");

    // TY@240:5x4x0
    piece = pieces.by_str("TY").unwrap();
    shape = piece.shape(240);
    assert!(shape.positions.contains(&AbsYRG::new(4, 3, 0)));
    result = result.place_piece(shape, piece.color, &AbsYRG::new(4, 3, 0)).unwrap();
    assert_eq!(rows(&result), "BBBBBBB.BBBOOOOBB.RRRRRROORRR.OOOYYYYYRRR.eeYYRRRRR.eYYWWWR");
    assert_board_overlaps(result, "BBBBBBB.BBBOOOOBB.RRRRRROORRR.OOOYYYYYRRR.YYYYRRRRR.YYYWWWR");

    // TY@300:4x2x0
    piece = pieces.by_str("TY").unwrap();
    shape = piece.shape(300);
    assert!(shape.positions.contains(&AbsYRG::new(4, 1, 1)));
    let finalb = result.place_piece(shape, piece.color, &AbsYRG::new(4, 1, 1)).unwrap();
    assert_eq!(rows(&finalb), "BBBBBBB.BBBOOOOBB.RRRRRROORRR.OOOYYYYYRRR.YYYYRRRRR.YYYWWWR");
    assert_eq!(finalb.to_string(), "BBBBBBBBBBOOOOBBRRRRRROORRROOOYYYYYRRRYYYYRRRRRYYYWWWR");
    assert_eq!(finalb.perm_index, 156954);
}

#[test]
fn test_new_board_cells() {
    let coords = Coords::new();
    let board = Board::new(7, &coords);
    assert_eq!(board.perm_index, 7);
    assert_eq!(board.index(), 7);
    let mut valid = 0;
    for y in 0..6 {
        for r in 0..6 {
            for g in 0..=1 {
                let cell = AbsYRG::new(y, r, g);
                let on_board = coords.index_of(&cell).is_some();
                assert_eq!(board.valid(&cell), on_board);
                assert!(!board.occupied(&cell));
                let expected = if on_board { Colors::Empty } else { Colors::Invalid };
                assert_eq!(board.get_color(&cell), expected);
                if on_board {
                    valid += 1;
                }
            }
        }
    }
    assert_eq!(valid, 54);
}

#[test]
fn test_valid_and_occupied_with_any_coordinates() {
    let coords = Coords::new();
    let mut board = Board::new(0, &coords);
    board.set_color(&AbsYRG::new(2, 2, 0), Colors::Red);
    assert!(board.valid(&AbsYRG::new(2, 2, 0)));
    assert!(board.occupied(&AbsYRG::new(2, 2, 0)));
    assert_eq!(board.get_color(&AbsYRG::new(2, 2, 0)), Colors::Red);
    assert!(board.valid(&AbsYRG::new(2, 2, 1)));
    assert!(!board.occupied(&AbsYRG::new(2, 2, 1)));
    // The value that stands for a missing neighbour.
    assert!(!board.valid(&AbsYRG::new(-1, -1, -1)));
    assert!(!board.occupied(&AbsYRG::new(-1, -1, -1)));
    // Slots outside the array.
    assert!(!board.valid(&AbsYRG::new(6, 0, 0)));
    assert!(!board.valid(&AbsYRG::new(0, 0, -1)));
    assert!(!board.valid(&AbsYRG::new(127, 127, 127)));
    assert!(!board.occupied(&AbsYRG::new(127, 127, 127)));
    assert!(!board.valid(&AbsYRG::new(-128, -128, -128)));
    assert!(!board.valid(&AbsYRG::new(11, 0, 0)));
    // Slots of the array outside the board.
    assert!(!board.valid(&AbsYRG::new(0, 3, 1)));
    assert!(!board.occupied(&AbsYRG::new(5, 0, 0)));
    // Coordinates outside the hexagon are no cells, even where they would
    // fall on the slot of a cell: (0, 6, 0) has the slot of (1, 0, 0).
    assert!(board.valid(&AbsYRG::new(1, 0, 0)));
    assert!(!board.valid(&AbsYRG::new(0, 6, 0)));
    assert!(!board.valid(&AbsYRG::new(4, -1, 1)));
    assert!(!board.valid(&AbsYRG::new(1, -1, 2)));
    board.set_color(&AbsYRG::new(1, 0, 0), Colors::White);
    assert!(board.occupied(&AbsYRG::new(1, 0, 0)));
    assert!(!board.occupied(&AbsYRG::new(0, 6, 0)));
    assert!(!board.valid(&AbsYRG::new(0, 6, 0)));
}

#[test]
fn test_valid_cells_are_the_cells_of_the_hexagon() {
    let coords = Coords::new();
    let board = Board::new(0, &coords);
    let mut valid = 0;
    for y in -8i8..=14 {
        for r in -8i8..=14 {
            for g in -3i8..=4 {
                let cell = AbsYRG::new(y, r, g);
                let on_board = coords.valid_yrg.contains(&cell);
                assert_eq!(board.valid(&cell), on_board);
                assert!(!board.occupied(&cell));
                if on_board {
                    valid += 1;
                }
            }
        }
    }
    assert_eq!(valid, 54);
}

#[test]
fn test_place_piece_refuses_targets_outside_the_hexagon() {
    let coords = Coords::new();
    let mut board = Board::new(0, &coords);
    board.set_color(&AbsYRG::new(1, 0, 1), Colors::Red);
    board.set_color(&AbsYRG::new(2, 0, 1), Colors::Red);
    // One cell, with the cells around it.
    let shape = Shape::new(vec![RelYRG::new(0, 0, 0)]).precompute_positions(&coords);
    assert_eq!(shape.adjacents.len(), 3);
    // (0, 6, 0) would fall on the slot of the free cell (1, 0, 0).
    assert!(board.valid(&AbsYRG::new(1, 0, 0)));
    assert!(!board.occupied(&AbsYRG::new(1, 0, 0)));
    assert_eq!(board.place_piece(&shape, Colors::Black, &AbsYRG::new(0, 6, 0)), None);
    // So would (2, -6, 0), and (4, -1, 1) on the slot of (3, 5, 1).
    assert_eq!(board.place_piece(&shape, Colors::Black, &AbsYRG::new(2, -6, 0)), None);
    let odd = Shape::new(vec![RelYRG::new(0, 0, 1)]).precompute_positions(&coords);
    assert_eq!(board.place_piece(&odd, Colors::Black, &AbsYRG::new(4, -1, 1)), None);
    assert!(board.place_piece(&odd, Colors::Black, &AbsYRG::new(3, 5, 1)).is_some());
    // Two cells far apart: with the first on (3, 5, 0) the second comes to
    // lie on (0, 6, 0), outside the hexagon, on the slot of (1, 0, 0).
    let pair = Shape::new(vec![RelYRG::new(0, 0, 0), RelYRG::new(-3, 1, 0)])
        .precompute_positions(&coords);
    let empty = Board::new(0, &coords);
    assert_eq!(empty.place_piece(&pair, Colors::Black, &AbsYRG::new(3, 5, 0)), None);
    assert!(!pair.positions.contains(&AbsYRG::new(3, 5, 0)));
    // With the second cell on (0, 3, 0) the pair fits.
    assert!(empty.place_piece(&pair, Colors::Black, &AbsYRG::new(3, 2, 0)).is_some());
    assert!(pair.positions.contains(&AbsYRG::new(3, 2, 0)));
}

#[test]
fn test_set_color_changes_one_slot() {
    let coords = Coords::new();
    let empty = Board::new(3, &coords);
    let mut board = empty;
    board.set_color(&AbsYRG::new(4, 3, 1), Colors::Yellow);
    assert_eq!(board.perm_index, 3);
    assert_ne!(board, empty);
    assert_eq!(board.to_string().matches('Y').count(), 1);
    assert_eq!(board.to_string().matches('e').count(), 53);
    board.set_color(&AbsYRG::new(4, 3, 1), Colors::Empty);
    assert_eq!(board, empty);
}

#[test]
fn test_signature_skips_the_slots_outside_the_board() {
    let coords = Coords::new();
    let mut board = Board::new(0, &coords);
    board.set_color(&AbsYRG::new(0, 0, 0), Colors::Red);
    board.set_color(&AbsYRG::new(0, 3, 0), Colors::Yellow);
    board.set_color(&AbsYRG::new(1, 0, 0), Colors::Orange);
    board.set_color(&AbsYRG::new(3, 0, 1), Colors::Black);
    board.set_color(&AbsYRG::new(5, 5, 1), Colors::White);
    assert_eq!(board.to_string(), "ReeeeeYOeeeeeeeeeeeeeeeeeeeBeeeeeeeeeeeeeeeeeeeeeeeeeW");
    assert_eq!(board.to_string().chars().count(), 54);
    assert_eq!(rows(&board), "ReeeeeY.Oeeeeeeee.eeeeeeeeeee.Beeeeeeeeee.eeeeeeeee.eeeeeeW");
}

#[test]
fn test_place_piece_leaves_the_receiver_unchanged() {
    let coords = Coords::new();
    let pieces = Pieces::new(&coords);
    let start = Board::new(5, &coords);
    let copy = start;
    let piece = pieces.by_str("TW").unwrap();
    let shape = piece.shape(0);

    let first = start.place_piece(shape, piece.color, &AbsYRG::new(2, 1, 0)).unwrap();
    assert_eq!(start, copy);
    let second = start.place_piece(shape, piece.color, &AbsYRG::new(4, 3, 0)).unwrap();
    assert_eq!(start, copy);
    let refused = start.place_piece(shape, piece.color, &AbsYRG::new(0, 3, 0));
    assert_eq!(refused, None);
    assert_eq!(start, copy);

    assert_eq!(rows(&start), "eeeeeee.eeeeeeeee.eeeeeeeeeee.eeeeeeeeeee.eeeeeeeee.eeeeeee");
    assert_eq!(rows(&first), "eeeeeee.eeeeeeeee.eeWWWeeeeee.eeeeeeeeeee.eeeeeeeee.eeeeeee");
    assert_eq!(rows(&second), "eeeeeee.eeeeeeeee.eeeeeeeeeee.eeeeeeeeeee.eeeWWWeee.eeeeeee");
    assert_ne!(first, second);
    assert_eq!(first.perm_index, 5);
    assert_eq!(second.perm_index, 5);
    // The same call gives the same board.
    assert_eq!(start.place_piece(shape, piece.color, &AbsYRG::new(2, 1, 0)), Some(first));
    for cell in coords.valid_yrg.iter() {
        assert_eq!(start.get_color(cell), Colors::Empty);
    }
}

#[test]
fn test_place_piece_refuses_the_wrong_parity() {
    let coords = Coords::new();
    let pieces = Pieces::new(&coords);
    let empty = Board::new(0, &coords);
    let mut full = empty;
    for cell in coords.valid_yrg.iter() {
        full.set_color(cell, Colors::Red);
    }
    for key in ["HR", "i1", "W2", "VB", "TW", "TY"] {
        let piece = pieces.by_str(key).unwrap();
        for angle in [0, 60, 300] {
            if angle > piece.max_rot {
                continue;
            }
            let shape = piece.shape(angle);
            let wrong = 1 - shape.cells[0].g;
            for cell in coords.valid_yrg.iter().filter(|c| c.g == wrong) {
                assert_eq!(empty.place_piece(shape, piece.color, cell), None);
                assert_eq!(full.place_piece(shape, piece.color, cell), None);
            }
            // A parity that no cell has is refused as well.
            assert_eq!(empty.place_piece(shape, piece.color, &AbsYRG::new(2, 2, 2)), None);
        }
    }
    // The same shape at the same place with the right parity fits.
    let piece = pieces.by_str("TW").unwrap();
    assert!(empty.place_piece(piece.shape(0), piece.color, &AbsYRG::new(2, 2, 0)).is_some());
    assert_eq!(empty.place_piece(piece.shape(0), piece.color, &AbsYRG::new(2, 2, 1)), None);
}

#[test]
fn test_place_piece_refuses_occupied_cells() {
    let coords = Coords::new();
    let pieces = Pieces::new(&coords);
    let empty = Board::new(0, &coords);
    let piece = pieces.by_str("TW").unwrap();
    let shape = piece.shape(0);
    let board = empty.place_piece(shape, piece.color, &AbsYRG::new(2, 2, 0)).unwrap();
    // Each of these overlaps the piece in one cell or more.
    assert_eq!(board.place_piece(shape, Colors::Red, &AbsYRG::new(2, 2, 0)), None);
    assert_eq!(board.place_piece(shape, Colors::Red, &AbsYRG::new(2, 1, 0)), None);
    assert_eq!(board.place_piece(shape, Colors::Red, &AbsYRG::new(2, 3, 0)), None);
    // Far from the piece there is room.
    let next = board.place_piece(shape, Colors::Red, &AbsYRG::new(4, 3, 0)).unwrap();
    assert_eq!(rows(&next), "eeeeeee.eeeeeeeee.eeeeWWWeeee.eeeeeeeeeee.eeeRRReee.eeeeeee");
}

#[test]
fn test_place_piece_refuses_a_gap_beside_the_shape() {
    let coords = Coords::new();
    let pieces = Pieces::new(&coords);
    let empty = Board::new(0, &coords);
    let piece = pieces.by_str("TW").unwrap();
    let shape = piece.shape(0);

    // At (0,2,0) the piece covers the end of the top row up to its last cell
    // and leaves no gap.
    let right = empty.place_piece(shape, piece.color, &AbsYRG::new(0, 2, 0)).unwrap();
    assert_eq!(rows(&right), "eeeeWWW.eeeeeeeee.eeeeeeeeeee.eeeeeeeeeee.eeeeeeeee.eeeeeee");

    // Then, at (0,0,0) a second piece would fit, but the cell (0,1,1)
    // between the two would be free with both neighbours covered, and
    // without a cell above.
    assert!(!right.occupied(&AbsYRG::new(0, 0, 0)));
    assert!(!right.occupied(&AbsYRG::new(0, 0, 1)));
    assert!(!right.occupied(&AbsYRG::new(0, 1, 0)));
    assert_eq!(right.place_piece(shape, piece.color, &AbsYRG::new(0, 0, 0)), None);

    // The gap is found after the shape is painted: the free cell is surrounded
    // on the painted board only.
    assert!(!right.surrounded(&AbsYRG::new(0, 1, 1)));
    let mut painted = right;
    painted.set_color(&AbsYRG::new(0, 0, 0), Colors::White);
    painted.set_color(&AbsYRG::new(0, 0, 1), Colors::White);
    painted.set_color(&AbsYRG::new(0, 1, 0), Colors::White);
    assert!(painted.surrounded(&AbsYRG::new(0, 1, 1)));
    assert!(!painted.occupied(&AbsYRG::new(0, 1, 1)));

    // On the empty board the same placement leaves no gap.
    assert!(empty.place_piece(shape, piece.color, &AbsYRG::new(0, 0, 0)).is_some());
}

#[test]
fn test_surrounded() {
    let coords = Coords::new();
    let mut board = Board::new(0, &coords);
    // The corner (0,0,0) has two neighbours: (0,0,1) and (1,0,1).
    let corner = AbsYRG::new(0, 0, 0);
    assert!(!board.surrounded(&corner));
    board.set_color(&AbsYRG::new(0, 0, 1), Colors::Red);
    assert!(!board.surrounded(&corner));
    board.set_color(&AbsYRG::new(1, 0, 1), Colors::Red);
    assert!(board.surrounded(&corner));
    // A cell inside has three.
    let inside = AbsYRG::new(3, 3, 1);
    board.set_color(&AbsYRG::new(3, 3, 0), Colors::Red);
    board.set_color(&AbsYRG::new(3, 4, 0), Colors::Red);
    assert!(!board.surrounded(&inside));
    board.set_color(&AbsYRG::new(2, 3, 0), Colors::Red);
    assert!(board.surrounded(&inside));
    // A cell without neighbours on the board is surrounded.
    assert!(board.surrounded(&AbsYRG::new(-1, -1, -1)));
    assert!(board.surrounded(&AbsYRG::new(100, 100, 0)));
}

#[test]
fn test_color_codes() {
    let colors = [
        (Colors::Red, 'R'),
        (Colors::Yellow, 'Y'),
        (Colors::Orange, 'O'),
        (Colors::Black, 'B'),
        (Colors::White, 'W'),
        (Colors::Empty, 'e'),
        (Colors::Invalid, '.'),
    ];
    for (color, code) in colors {
        assert_eq!(color.to_char(), code);
        assert_eq!(color.to_string(), code.to_string());
    }
}

#[test]
fn test_gap_rule_holds_for_a_shape_without_its_surroundings() {
    let coords = Coords::new();
    let pieces = Pieces::new(&coords);
    let empty = Board::new(0, &coords);
    let hr = pieces.by_str("HR").unwrap();
    let board = empty.place_piece(hr.shape(0), hr.color, &AbsYRG::new(0, 0, 0)).unwrap();
    // The cells of TW, with neither positions nor surroundings computed.
    let bare = Shape::new(vec![RelYRG::new(0, 0, 0), RelYRG::new(0, 0, 1), RelYRG::new(0, 1, 0)]);
    assert!(bare.adjacents.is_empty());
    // At (0,2,0) it would leave (0,1,1) free between the pieces, with no
    // cell above.
    assert_eq!(board.place_piece(&bare, Colors::White, &AbsYRG::new(0, 2, 0)), None);
    // Elsewhere it is placed as the prepared shape is.
    let prepared = pieces.by_str("TW").unwrap().shape(0);
    for cell in coords.valid_yrg.iter() {
        assert_eq!(
            board.place_piece(&bare, Colors::White, cell),
            board.place_piece(prepared, Colors::White, cell)
        );
    }
    // A single cell in a corner of three covered cells closes nothing, but
    // a single cell beside a free cell that it encloses is refused.
    let one = Shape::new(vec![RelYRG::new(0, 0, 1)]);
    let mut around = Board::new(0, &coords);
    around.set_color(&AbsYRG::new(0, 0, 0), Colors::Red);
    // (0,1,0) has the neighbours (0,0,1), (0,1,1) and (1,1,1).
    around.set_color(&AbsYRG::new(0, 1, 1), Colors::Red);
    around.set_color(&AbsYRG::new(1, 1, 1), Colors::Red);
    assert_eq!(around.place_piece(&one, Colors::Black, &AbsYRG::new(0, 0, 1)), None);
    around.set_color(&AbsYRG::new(1, 1, 1), Colors::Empty);
    assert!(around.place_piece(&one, Colors::Black, &AbsYRG::new(0, 0, 1)).is_some());
}

#[test]
fn test_prepared_placement_is_the_general_placement() {
    let coords = Coords::new();
    let pieces = Pieces::new(&coords);
    let empty = Board::new(9, &coords);
    let vb = pieces.by_str("VB").unwrap();
    let base = empty.place_piece(vb.shape(60), vb.color, &vb.shape(60).positions[5]).unwrap();
    for key in ["HR", "i2", "W1", "P2", "J1", "L2", "TW", "TO", "TY"] {
        let piece = pieces.by_str(key).unwrap();
        let mut angle = 0;
        while angle <= piece.max_rot {
            let shape = piece.shape(angle);
            for board in [empty, base] {
                for cell in coords.valid_yrg.iter() {
                    assert_eq!(
                        board.place_prepared(shape, piece.color, cell),
                        board.place_piece(shape, piece.color, cell)
                    );
                }
            }
            angle += 60;
        }
    }
}
