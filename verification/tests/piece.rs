use rgen::coord::{AbsYRG, Coords, RelYRG};
use rgen::piece::{Colors, Piece};

#[test]
fn test_piece_i1_rotation() {
    let coord = Coords::new();

    let mut p = Piece::new(
        Piece::to_key("i1"),
        Colors::Red,
        120,
        vec![
            RelYRG::new(0, -1, 0),
            RelYRG::new(0, -1, 1),
            RelYRG::new(0, 0, 0),
            RelYRG::new(0, 0, 1),
            RelYRG::new(0, 1, 0),
            RelYRG::new(0, 1, 1),
        ],
    );

    p.precompute_shapes(&coord);

    // The recentered shapes always start on (0,0,0) or (0,0,1).

    let mut s = p.shape(0);
    assert_eq!(s.to_string(), "0.0.0,0.0.1,0.1.0,0.1.1,0.2.0,0.2.1");
    assert_eq!(
        s.positions,
        vec![
            AbsYRG::new(0, 0, 0),
            AbsYRG::new(1, 0, 0),
            AbsYRG::new(1, 1, 0),
            AbsYRG::new(2, 0, 0),
            AbsYRG::new(2, 1, 0),
            AbsYRG::new(2, 2, 0),
            AbsYRG::new(3, 1, 0),
            AbsYRG::new(3, 2, 0),
            AbsYRG::new(3, 3, 0),
            AbsYRG::new(4, 2, 0),
            AbsYRG::new(4, 3, 0),
            AbsYRG::new(5, 3, 0),
        ]
    );

    s = p.shape(60);
    assert_eq!(s.to_string(), "0.0.1,-1.0.0,-1.0.1,-2.0.0,-2.0.1,-3.0.0");
    assert_eq!(s.positions.len(), 1 + 2 + 3 + 3 + 2 + 1);

    s = p.shape(120);
    assert_eq!(s.to_string(), "0.0.0,0.-1.1,-1.-1.0,-1.-2.1,-2.-2.0,-2.-3.1");
    assert_eq!(s.positions.len(), 1 + 2 + 3 + 3 + 2 + 1);
}

#[test]
fn test_piece_vb_rotation() {
    let coord = Coords::new();

    let mut p = Piece::new(
        Piece::to_key("VB"),
        Colors::Black,
        300,
        vec![
            RelYRG::new(1, 0, 0),
            RelYRG::new(1, 0, 1),
            RelYRG::new(0, 0, 0),
            RelYRG::new(0, 0, 1),
            RelYRG::new(0, 1, 0),
            RelYRG::new(0, 1, 1),
        ],
    );

    p.precompute_shapes(&coord);

    let mut s = p.shape(0);
    assert_eq!(s.to_string(), "0.0.0,0.0.1,-1.0.0,-1.0.1,-1.1.0,-1.1.1");

    s = p.shape(60);
    assert_eq!(s.to_string(), "0.0.1,-1.0.0,-1.-1.1,-2.-1.0,-2.-1.1,-3.-1.0");

    s = p.shape(120);
    assert_eq!(s.to_string(), "0.0.0,0.-1.1,0.-1.0,0.-2.1,-1.-2.0,-1.-3.1");

    s = p.shape(180);
    assert_eq!(s.to_string(), "0.0.1,0.0.0,1.0.1,1.0.0,1.-1.1,1.-1.0");

    s = p.shape(240);
    assert_eq!(s.to_string(), "0.0.0,1.0.1,1.1.0,2.1.1,2.1.0,3.1.1");

    s = p.shape(300);
    assert_eq!(s.to_string(), "0.0.1,0.1.0,0.1.1,0.2.0,1.2.1,1.3.0");
}

#[test]
fn test_piece_that_is_not_rotated_need_not_be_drawn_on_the_board() {
    let coord = Coords::new();
    let mut p = Piece::new(
        Piece::to_key("TW"),
        Colors::White,
        0,
        vec![RelYRG::new(40, -70, 0), RelYRG::new(40, -70, 1), RelYRG::new(40, -69, 0)],
    );
    p.precompute_shapes(&coord);
    assert_eq!(p.shapes.len(), 1);
    let s = p.shape(0);
    assert_eq!(s.to_string(), "0.0.0,0.0.1,0.1.0");
    assert_eq!(s.positions.len(), 21);
    assert_eq!(s.adjacents.len(), 5);
    // A largest angle below 60 adds no rotation either.
    let mut q = Piece::new(Piece::to_key("TW"), Colors::White, 59, vec![RelYRG::new(9, 9, 1)]);
    q.precompute_shapes(&coord);
    assert_eq!(q.shapes.len(), 1);
    assert_eq!(q.shape(0).to_string(), "0.0.1");
    assert_eq!(q.shape(0).positions.len(), 27);
}
