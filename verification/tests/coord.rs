use rgen::coord::{AbsYRG, Coords, RelYRG, LINES_LEN, N, N2, NUM_CELLS};

fn cells(list: &[(i8, i8, i8)]) -> Vec<AbsYRG> {
    list.iter().map(|&(y, r, g)| AbsYRG::new(y, r, g)).collect()
}

fn board_cells() -> Vec<AbsYRG> {
    cells(&[
        (0, 0, 0), (0, 0, 1), (0, 1, 0), (0, 1, 1), (0, 2, 0), (0, 2, 1), (0, 3, 0),
        (1, 0, 0), (1, 0, 1), (1, 1, 0), (1, 1, 1), (1, 2, 0), (1, 2, 1), (1, 3, 0), (1, 3, 1), (1, 4, 0),
        (2, 0, 0), (2, 0, 1), (2, 1, 0), (2, 1, 1), (2, 2, 0), (2, 2, 1), (2, 3, 0), (2, 3, 1), (2, 4, 0), (2, 4, 1), (2, 5, 0),
        (3, 0, 1), (3, 1, 0), (3, 1, 1), (3, 2, 0), (3, 2, 1), (3, 3, 0), (3, 3, 1), (3, 4, 0), (3, 4, 1), (3, 5, 0), (3, 5, 1),
        (4, 1, 1), (4, 2, 0), (4, 2, 1), (4, 3, 0), (4, 3, 1), (4, 4, 0), (4, 4, 1), (4, 5, 0), (4, 5, 1),
        (5, 2, 1), (5, 3, 0), (5, 3, 1), (5, 4, 0), (5, 4, 1), (5, 5, 0), (5, 5, 1),
    ])
}

fn rotation_sources() -> Vec<AbsYRG> {
    cells(&[
        (0, 2, 1), (0, 3, 0), (1, 3, 1), (1, 4, 0), (2, 4, 1), (2, 5, 0), (3, 5, 1),
        (0, 1, 1), (0, 2, 0), (1, 2, 1), (1, 3, 0), (2, 3, 1), (2, 4, 0), (3, 4, 1), (3, 5, 0), (4, 5, 1),
        (0, 0, 1), (0, 1, 0), (1, 1, 1), (1, 2, 0), (2, 2, 1), (2, 3, 0), (3, 3, 1), (3, 4, 0), (4, 4, 1), (4, 5, 0), (5, 5, 1),
        (0, 0, 0), (1, 0, 1), (1, 1, 0), (2, 1, 1), (2, 2, 0), (3, 2, 1), (3, 3, 0), (4, 3, 1), (4, 4, 0), (5, 4, 1), (5, 5, 0),
        (1, 0, 0), (2, 0, 1), (2, 1, 0), (3, 1, 1), (3, 2, 0), (4, 2, 1), (4, 3, 0), (5, 3, 1), (5, 4, 0),
        (2, 0, 0), (3, 0, 1), (3, 1, 0), (4, 1, 1), (4, 2, 0), (5, 2, 1), (5, 3, 0),
    ])
}

#[test]
fn test_constants() {
    assert_eq!(N, 6);
    assert_eq!(N2, 3);
    assert_eq!(NUM_CELLS, 54);
    assert_eq!(LINES_LEN, [7, 9, 11, 11, 9, 7]);
    assert_eq!(LINES_LEN.iter().sum::<i32>(), 54);
}

#[test]
fn test_valid_cells_in_row_major_order() {
    let coords = Coords::new();
    assert_eq!(coords.valid_yrg, board_cells());
    for row in 0..6 {
        let in_row = coords.valid_yrg.iter().filter(|c| c.y == row).count();
        assert_eq!(in_row as i32, LINES_LEN[row as usize]);
    }
}

#[test]
fn test_index_of_every_cell() {
    let coords = Coords::new();
    assert_eq!(coords.valid_yrg_to_idx.len(), 54);
    for (i, cell) in board_cells().iter().enumerate() {
        assert_eq!(coords.index_of(cell), Some(i));
        let slot = 12 * cell.y as i32 + 2 * cell.r as i32 + cell.g as i32;
        assert_eq!(coords.valid_yrg_to_idx.get(&slot), Some(&i));
    }
}

#[test]
fn test_index_of_cells_outside_the_board() {
    let coords = Coords::new();
    assert_eq!(coords.index_of(&AbsYRG::new(0, 3, 1)), None);
    assert_eq!(coords.index_of(&AbsYRG::new(3, 0, 0)), None);
    assert_eq!(coords.index_of(&AbsYRG::new(5, 0, 0)), None);
    assert_eq!(coords.index_of(&AbsYRG::new(-1, -1, -1)), None);
    assert_eq!(coords.index_of(&AbsYRG::new(6, 0, 0)), None);
    // The slot of this cell is that of (1, 0, 0), but it is no cell.
    assert_eq!(coords.index_of(&AbsYRG::new(0, 6, 0)), None);
    assert_eq!(coords.index_of(&AbsYRG::new(127, 127, 127)), None);
    assert_eq!(coords.index_of(&AbsYRG::new(-128, -128, -128)), None);
}

#[test]
fn test_rotation_table() {
    let coords = Coords::new();
    assert_eq!(coords.rot60ccw_src, rotation_sources());
    let sources = rotation_sources();
    let targets = board_cells();
    for i in 0..54 {
        let rotated = coords.rot_60_ccw_yrg(&sources[i].to_rel());
        assert_eq!(rotated.to_abs(), targets[i]);
    }
}

#[test]
fn test_rotation_examples() {
    let coords = Coords::new();
    // (0,2,1) becomes (0,0,0).
    assert_eq!(coords.rot_60_ccw_yrg(&RelYRG::new(-3, -1, 1)), RelYRG::new(-3, -3, 0));
    // The formula: (y, r, g) becomes (y - r - g, y, 1 - g).
    assert_eq!(coords.rot_60_ccw_yrg(&RelYRG::new(0, -1, 0)), RelYRG::new(1, 0, 1));
    assert_eq!(coords.rot_60_ccw_yrg(&RelYRG::new(2, 2, 1)), RelYRG::new(-1, 2, 0));
}

#[test]
fn test_abs_rel_round_trip() {
    let coords = Coords::new();
    for cell in coords.valid_yrg.iter() {
        assert_eq!(cell.to_rel().to_abs(), *cell);
    }
    assert_eq!(AbsYRG::new(0, 0, 0).to_rel(), RelYRG::new(-3, -3, 0));
    assert_eq!(AbsYRG::new(5, 5, 1).to_rel(), RelYRG::new(2, 2, 1));
    assert_eq!(RelYRG::new(-3, 2, 1).to_abs(), AbsYRG::new(0, 5, 1));
    // The limits of the coordinates.
    assert_eq!(AbsYRG::new(-125, 127, 0).to_rel(), RelYRG::new(-128, 124, 0));
    assert_eq!(RelYRG::new(124, -128, 1).to_abs(), AbsYRG::new(127, -125, 1));
    assert_eq!(AbsYRG::new(-125, -125, 7).to_rel().to_abs(), AbsYRG::new(-125, -125, 7));
}

#[test]
fn test_six_rotations_are_the_identity() {
    let coords = Coords::new();
    for cell in coords.valid_yrg.iter() {
        let start = cell.to_rel();
        let mut turned = start;
        for step in 1..=6 {
            turned = coords.rot_60_ccw_yrg(&turned);
            assert!(coords.index_of(&turned.to_abs()).is_some());
            assert_eq!(turned.g, if step % 2 == 0 { start.g } else { 1 - start.g });
        }
        assert_eq!(turned, start);
    }
}

#[test]
fn test_three_rotations_are_the_point_reflection() {
    let coords = Coords::new();
    let start = RelYRG::new(-2, 0, 1);
    let mut turned = start;
    for _ in 0..3 {
        turned = coords.rot_60_ccw_yrg(&turned);
    }
    assert_eq!(turned, RelYRG::new(1, -1, 0));
}

#[test]
fn test_offset_by() {
    let cell = RelYRG::new(-1, 2, 1);
    assert_eq!(cell.offset_by(&AbsYRG::new(3, 1, 0)), AbsYRG::new(2, 3, 1));
    assert_eq!(cell.offset_by(&AbsYRG::new(0, 0, 0)), AbsYRG::new(-1, 2, 1));
    assert_eq!(RelYRG::new(100, -100, 0).offset_by(&AbsYRG::new(27, -28, 1)), AbsYRG::new(127, -128, 0));
}

#[test]
fn test_adjacents_inside_the_board() {
    // The cell (3,3,0): left (3,2,1), right (3,3,1), below (4,3,1).
    let around = Coords::compute_adjacents(&RelYRG::new(0, 0, 0));
    assert_eq!(
        around,
        [RelYRG::new(0, -1, 1), RelYRG::new(0, 0, 1), RelYRG::out_of_bounds(), RelYRG::new(1, 0, 1)]
    );
    // The cell (3,3,1): left (3,3,0), right (3,4,0), above (2,3,0).
    let around = Coords::compute_adjacents(&RelYRG::new(0, 0, 1));
    assert_eq!(
        around,
        [RelYRG::new(0, 0, 0), RelYRG::new(0, 1, 0), RelYRG::new(-1, 0, 0), RelYRG::out_of_bounds()]
    );
}

#[test]
fn test_adjacents_at_the_border() {
    let outside = RelYRG::out_of_bounds();
    assert_eq!(outside, RelYRG::new(-4, -4, -1));
    assert_eq!(outside.to_abs(), AbsYRG::new(-1, -1, -1));
    // The corner (0,0,0) has no cell on its left.
    let around = Coords::compute_adjacents(&AbsYRG::new(0, 0, 0).to_rel());
    assert_eq!(around, [outside, RelYRG::new(-3, -3, 1), outside, RelYRG::new(-2, -3, 1)]);
    // The cell (0,1,1) of the top row has no cell above.
    let around = Coords::compute_adjacents(&AbsYRG::new(0, 1, 1).to_rel());
    assert_eq!(around, [RelYRG::new(-3, -2, 0), RelYRG::new(-3, -1, 0), outside, outside]);
    // The last cell of row 0, (0,3,0), has no cell on its right.
    let around = Coords::compute_adjacents(&AbsYRG::new(0, 3, 0).to_rel());
    assert_eq!(around, [RelYRG::new(-3, -1, 1), outside, outside, RelYRG::new(-2, 0, 1)]);
    // The first cell of row 3, (3,0,1): its left neighbour would have the
    // slot of a cell of another row.
    let around = Coords::compute_adjacents(&AbsYRG::new(3, 0, 1).to_rel());
    assert_eq!(around, [outside, RelYRG::new(0, -2, 0), RelYRG::new(-1, -3, 0), outside]);
    // The last row has no cell below.
    let around = Coords::compute_adjacents(&AbsYRG::new(5, 5, 0).to_rel());
    assert_eq!(around, [RelYRG::new(2, 1, 1), RelYRG::new(2, 2, 1), outside, outside]);
    // A cell far outside has no neighbours at all.
    let around = Coords::compute_adjacents(&RelYRG::new(127, -128, 0));
    assert_eq!(around, [outside, outside, outside, outside]);
    assert_eq!(Coords::compute_adjacents(&RelYRG::new(0, 0, 5)), [outside; 4]);
}

#[test]
fn test_cell_texts() {
    assert_eq!(AbsYRG::new(3, 2, 1).to_string(), "3x2x1");
    assert_eq!(AbsYRG::new(-1, -1, -1).to_string(), "-1x-1x-1");
    assert_eq!(AbsYRG::new(3, 2, 1).debug_string(), "Abs 321");
    assert_eq!(RelYRG::new(-3, 0, 1).to_string(), "-3.0.1");
    assert_eq!(RelYRG::new(-3, 0, 1).debug_string(), "Rel -3.0.1");
    assert_eq!(RelYRG::new(127, -128, 10).to_string(), "127.-128.10");
}

#[test]
fn test_table_of_neighbours() {
    let coords = Coords::new();
    assert_eq!(coords.adjacents_to_yrg.len(), 54);
    let none = AbsYRG::new(-1, -1, -1);
    // The corner (0,0,0) is the first cell.
    assert_eq!(coords.adjacents_to_yrg[0], [none, AbsYRG::new(0, 0, 1), none, AbsYRG::new(1, 0, 1)]);
    // (3,3,1) inside the board.
    let at = coords.index_of(&AbsYRG::new(3, 3, 1)).unwrap();
    assert_eq!(
        coords.adjacents_to_yrg[at],
        [AbsYRG::new(3, 3, 0), AbsYRG::new(3, 4, 0), AbsYRG::new(2, 3, 0), none]
    );
    // The last cell, (5,5,1).
    assert_eq!(coords.adjacents_to_yrg[53], [AbsYRG::new(5, 5, 0), none, AbsYRG::new(4, 5, 0), none]);
    // The table holds what is computed for one cell.
    for (i, cell) in coords.valid_yrg.iter().enumerate() {
        let computed = Coords::compute_adjacents(&cell.to_rel());
        for k in 0..4 {
            assert_eq!(coords.adjacents_to_yrg[i][k], computed[k].to_abs());
            let n = coords.adjacents_to_yrg[i][k];
            assert!(n == none || coords.index_of(&n).is_some());
        }
        let present = coords.adjacents_to_yrg[i].iter().filter(|n| **n != none).count();
        assert!(present == 2 || present == 3);
    }
}
