use rgen::coord::AbsYRG;
use rgen::permutations::Permutation;
use rgen::piece::Piece;
use rgen::solutions::{BoardSolution, PieceSolution};

#[test]
fn test_piece_solution_display_empty() {
    let p = PieceSolution::new();
    assert_eq!(p.to_string(), "--@0:0x0x0");
}

#[test]
fn test_piece_solution_display() {
    let mut p = PieceSolution::new();
    p.key = Piece::to_key("HR");
    p.angle = 300;
    p.yrg = AbsYRG::new(3, 2, 1);
    assert_eq!(p.to_string(), "HR@300:3x2x1");
}

#[test]
fn test_board_solution_display_empty() {
    let b = BoardSolution::new();
    assert_eq!(
        b.to_string(),
        "--@0:0x0x0,--@0:0x0x0,--@0:0x0x0,--@0:0x0x0,--@0:0x0x0,--@0:0x0x0,--@0:0x0x0,--@0:0x0x0,--@0:0x0x0,--@0:0x0x0,--@0:0x0x0"
    );
}

#[test]
fn test_board_solution_append() {
    let mut b = BoardSolution::new();
    assert_eq!(b.size, 0);

    b = b.append(&Permutation::new(Piece::to_key("HR"), 60), &AbsYRG::new(3, 2, 1));

    assert_eq!(b.size, 1);
    assert_eq!(b.sol[0].to_string(), "HR@60:3x2x1");
    assert_eq!(
        b.to_string(),
        "HR@60:3x2x1,--@0:0x0x0,--@0:0x0x0,--@0:0x0x0,--@0:0x0x0,--@0:0x0x0,--@0:0x0x0,--@0:0x0x0,--@0:0x0x0,--@0:0x0x0,--@0:0x0x0"
    );
}
