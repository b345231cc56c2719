use rgen::board::Board;
use rgen::coord::{AbsYRG, Coords};
use rgen::permutations::{Permutation, Permutations};
use rgen::piece::Piece;
use rgen::pieces::Pieces;
use rgen::rgen::{Found, RGen, RGenResult, Selection, PROGRESS_MOD};
use rgen::solutions::{BoardSolution, PieceSolution};

fn lines(found: &[Found]) -> Vec<String> {
    found.iter().map(|f| RGenResult::new_result(&f.board, &f.solution).result).collect()
}

const UNUSED: &str = "--@0:0x0x0";

fn line_of_one(index: i32, signature: &str, record: &str) -> String {
    let mut records = vec![record.to_string()];
    for _ in 1..11 {
        records.push(UNUSED.to_string());
    }
    format!("@@ [{}] SIG {} {}", index, signature, records.join(","))
}

#[test]
fn test_selects() {
    // Before the range, in the range, behind the range.
    assert_eq!(RGen::selects(4, 5, 10, 0, 1), Selection::Skip);
    assert_eq!(RGen::selects(5, 5, 10, 0, 1), Selection::Search);
    assert_eq!(RGen::selects(10, 5, 10, 0, 1), Selection::Search);
    assert_eq!(RGen::selects(11, 5, 10, 0, 1), Selection::Stop);
    // An index before an empty range is left out, one behind it ends the run.
    assert_eq!(RGen::selects(3, 5, 4, 0, 1), Selection::Skip);
    assert_eq!(RGen::selects(5, 5, 4, 0, 1), Selection::Stop);
    // Workers share the range by the remainder of the index.
    assert_eq!(RGen::selects(6, 0, 10, 0, 3), Selection::Search);
    assert_eq!(RGen::selects(6, 0, 10, 1, 3), Selection::Skip);
    assert_eq!(RGen::selects(7, 0, 10, 1, 3), Selection::Search);
    assert_eq!(RGen::selects(8, 0, 10, 2, 3), Selection::Search);
    assert_eq!(RGen::selects(8, 0, 10, 0, 3), Selection::Skip);
    // Behind the range every worker stops.
    assert_eq!(RGen::selects(12, 0, 10, 1, 3), Selection::Stop);
    // With one worker or none the number of the worker does not count.
    assert_eq!(RGen::selects(7, 0, 10, 5, 1), Selection::Search);
    assert_eq!(RGen::selects(7, 0, 10, 5, 0), Selection::Search);
    assert_eq!(RGen::selects(7, 0, 10, 5, -2), Selection::Search);
    // The remainder of a negative index is negative, and no worker takes it.
    assert_eq!(RGen::selects(-1, -5, 10, 0, 2), Selection::Skip);
    assert_eq!(RGen::selects(-1, -5, 10, 1, 2), Selection::Skip);
    assert_eq!(RGen::selects(-2, -5, 10, 0, 2), Selection::Search);
    assert_eq!(RGen::selects(i32::MIN, i32::MIN, i32::MAX, 0, 2), Selection::Search);
    assert_eq!(RGen::selects(i32::MAX, i32::MIN, i32::MAX, 1, 2), Selection::Search);
}

#[test]
fn test_workers_share_every_index_of_the_range() {
    for workers in 1..=5 {
        for index in 0..200 {
            let takers = (0..workers)
                .filter(|w| RGen::selects(index, 20, 150, *w, workers) == Selection::Search)
                .count();
            let in_range = (20..=150).contains(&index);
            assert_eq!(takers, if in_range { 1 } else { 0 });
        }
    }
}

#[test]
fn test_progress_due() {
    assert_eq!(PROGRESS_MOD, 1024);
    assert!(RGen::progress_due(0));
    assert!(!RGen::progress_due(1));
    assert!(!RGen::progress_due(1023));
    assert!(RGen::progress_due(1024));
    assert!(RGen::progress_due(2048));
    assert!(!RGen::progress_due(i32::MAX));
    assert!(!RGen::progress_due(-1));
    assert!(RGen::progress_due(-1024));
}

#[test]
fn test_result_line() {
    let coords = Coords::new();
    let board = Board::new(42, &coords);
    let solution = BoardSolution::new();
    let res = RGenResult::new_result(&board, &solution);
    assert_eq!(res.progress, "");
    assert_eq!(
        res.result,
        line_of_one(42, "eeeeeeeeeeeeeeeeeeeeeeeeeeeeeeeeeeeeeeeeeeeeeeeeeeeeee", UNUSED)
    );
    let board = Board::new(-7, &coords);
    let solution = solution.append(&Permutation::new(['T', 'W'], 0), &AbsYRG::new(5, 4, 0));
    let res = RGenResult::new_result(&board, &solution);
    assert!(res.result.starts_with("@@ [-7] SIG eeee"));
    assert!(res.result.ends_with("e TW@0:5x4x0,--@0:0x0x0,--@0:0x0x0,--@0:0x0x0,--@0:0x0x0,--@0:0x0x0,--@0:0x0x0,--@0:0x0x0,--@0:0x0x0,--@0:0x0x0,--@0:0x0x0"));
    let note = RGenResult::new_progress("@@ perm 1".to_string());
    assert_eq!(note.progress, "@@ perm 1");
    assert_eq!(note.result, "");
}

#[test]
fn test_solution_records() {
    let mut solution = BoardSolution::new();
    for slot in 0..11 {
        assert_eq!(solution.size, slot);
        solution = solution.append(
            &Permutation::new(Piece::to_key("TY"), 60 * slot as i32),
            &AbsYRG::new(slot as i8 % 6, 1, 0),
        );
        assert_eq!(
            solution.sol[slot],
            PieceSolution { key: ['T', 'Y'], angle: 60 * slot as i32, yrg: AbsYRG::new(slot as i8 % 6, 1, 0) }
        );
        for unused in slot + 1..11 {
            assert_eq!(solution.sol[unused], PieceSolution::new());
        }
    }
    assert_eq!(solution.size, 11);
    assert!(solution.to_string().starts_with("TY@0:0x1x0,TY@60:1x1x0,"));
    assert!(solution.to_string().ends_with(",TY@600:4x1x0"));
}

#[test]
fn test_search_of_one_piece_takes_its_first_position() {
    let coords = Coords::new();
    let pieces = Pieces::new(&coords);
    let rgen = RGen::new(&pieces, &coords);
    let perms = Permutations { perms: vec![Permutation::new(['H', 'R'], 0)], index: 3 };
    let found = rgen.search(perms);
    assert_eq!(
        lines(&found),
        vec![line_of_one(3, "RRReeeeeRRReeeeeeeeeeeeeeeeeeeeeeeeeeeeeeeeeeeeeeeeeee", "HR@0:0x0x0")]
    );
    assert_eq!(found[0].solution.size, 1);
    assert_eq!(found[0].board.perm_index, 3);
    // Nothing to place, nothing found.
    assert!(rgen.search(Permutations { perms: vec![], index: 3 }).is_empty());
}

#[test]
fn test_search_tries_every_position_of_the_pieces_before_the_last() {
    let coords = Coords::new();
    let pieces = Pieces::new(&coords);
    let rgen = RGen::new(&pieces, &coords);
    let perms = Permutations {
        perms: vec![Permutation::new(['H', 'R'], 0), Permutation::new(['T', 'W'], 0)],
        index: 1,
    };
    let found = rgen.search(perms);
    // HR has 19 positions; for each of them TW is placed once, on the first
    // of its positions where it fits.
    let first_piece = pieces.by_str("HR").unwrap().shape(0);
    let last_piece = pieces.by_str("TW").unwrap().shape(0);
    let empty = Board::new(1, &coords);
    let mut expected = Vec::new();
    for at in first_piece.positions.iter() {
        let board = empty.place_piece(first_piece, pieces.by_str("HR").unwrap().color, at).unwrap();
        for next in last_piece.positions.iter() {
            if let Some(done) = board.place_piece(last_piece, pieces.by_str("TW").unwrap().color, next) {
                let records = BoardSolution::new()
                    .append(&Permutation::new(['H', 'R'], 0), at)
                    .append(&Permutation::new(['T', 'W'], 0), next);
                expected.push(Found { board: done, solution: records });
                break;
            }
        }
    }
    assert_eq!(found, expected);
    assert_eq!(found.len(), 19);
    // Beside HR at (0,0,0) the first row has no place for TW that leaves no gap.
    assert!(lines(&found)[0].starts_with("@@ [1] SIG RRReeeeeRRRWWWeee"));
    assert!(lines(&found)[0].contains(" HR@0:0x0x0,TW@0:1x2x0,--@0:0x0x0,"));
}

#[test]
fn test_search_finds_the_tiling_of_a_sequence() {
    let coords = Coords::new();
    let pieces = Pieces::new(&coords);
    let rgen = RGen::new(&pieces, &coords);
    let choices = [
        ("HR", 0), ("i1", 0), ("W1", 0), ("P1", 0), ("VB", 300), ("J1", 0),
        ("L2", 0), ("TW", 0), ("TO", 180), ("TY", 240), ("TY", 300),
    ];
    let perms = Permutations {
        perms: choices.iter().map(|(k, a)| Permutation::new(Piece::to_key(k), *a)).collect(),
        index: 156954,
    };
    let found = rgen.search(perms);
    assert_eq!(
        lines(&found),
        vec![
            "@@ [156954] SIG BBBBBBBBBBOOOOBBRRRRRROORRROOOYYYYYRRRYYYYRRRRRYYYWWWR HR@0:2x4x0,i1@0:2x0x0,W1@0:1x1x0,P1@0:4x3x1,VB@300:0x1x1,J1@0:1x1x1,L2@0:4x2x1,TW@0:5x4x0,TO@180:3x1x1,TY@240:4x3x0,TY@300:4x1x1"
        ]
    );
    assert_eq!(found[0].solution.size, 11);
    let signature = found[0].board.to_string();
    assert_eq!(signature.len(), 54);
    assert!(!signature.contains('e') && !signature.contains('.'));
    assert_eq!(
        found[0].board.debug_string().unwrap(),
        "BBBBBBB.BBBOOOOBB.RRRRRROORRR.OOOYYYYYRRR.YYYYRRRRR.YYYWWWR"
    );
}

#[test]
fn test_search_of_a_sequence_without_tiling() {
    let coords = Coords::new();
    let pieces = Pieces::new(&coords);
    let rgen = RGen::new(&pieces, &coords);
    let first = pieces.iter(-1).next().unwrap();
    assert_eq!(first.index, 1);
    assert!(rgen.search(first).is_empty());
}

#[test]
fn test_run_over_one_group() {
    let coords = Coords::new();
    let pieces = Pieces::new(&coords);
    let rgen = RGen::new(&pieces, &coords);
    let all = lines(&rgen.run(1, 0, i32::MAX, 0, 1));
    assert_eq!(all.len(), 6);
    assert_eq!(
        all[0],
        line_of_one(1, "RRRRRReeeeeeeeeeeeeeeeeeeeeeeeeeeeeeeeeeeeeeeeeeeeeeee", "i1@0:0x0x0")
    );
    assert_eq!(
        all[1],
        line_of_one(2, "ReeeeeeRReeeeeeeRReeeeeeeeeReeeeeeeeeeeeeeeeeeeeeeeeee", "i1@60:3x0x1")
    );
    assert!(all[3].starts_with("@@ [4] SIG "));
    assert!(all[3].contains(" i2@0:"));
    assert!(all[5].starts_with("@@ [6] SIG "));
    assert!(all[5].contains(" i2@120:"));

    // A range of indices.
    assert_eq!(lines(&rgen.run(1, 2, 4, 0, 1)), all[1..4].to_vec());
    assert_eq!(lines(&rgen.run(1, 6, 100, 0, 1)), all[5..].to_vec());
    assert!(rgen.run(1, 7, 100, 0, 1).is_empty());
    assert!(rgen.run(1, 4, 3, 0, 1).is_empty());
    assert!(rgen.run(1, i32::MIN, 0, 0, 1).is_empty());
}

#[test]
fn test_run_of_the_workers_together() {
    let coords = Coords::new();
    let pieces = Pieces::new(&coords);
    let rgen = RGen::new(&pieces, &coords);
    let all = lines(&rgen.run(3, 2, 11, 0, 1));
    assert_eq!(all.len(), 10);
    for workers in 2..=4 {
        let mut seen: Vec<String> = Vec::new();
        for worker in 0..workers {
            let part = lines(&rgen.run(3, 2, 11, worker, workers));
            for line in part.iter() {
                assert!(all.contains(line));
                assert!(!seen.contains(line));
                let index: i32 = line[4..line.find(']').unwrap()].parse().unwrap();
                assert_eq!(index % workers, worker);
            }
            seen.extend(part);
        }
        seen.sort();
        let mut expected = all.clone();
        expected.sort();
        assert_eq!(seen, expected);
    }
}

#[test]
fn test_run_over_the_first_sequences_of_all_groups() {
    let coords = Coords::new();
    let pieces = Pieces::new(&coords);
    let rgen = RGen::new(&pieces, &coords);
    // None of the first sequences has a tiling.
    assert!(rgen.run(-1, 1, 3, 0, 1).is_empty());
    assert!(rgen.run(-1, 0, 0, 0, 1).is_empty());
}

#[test]
fn test_found_boards_replay_their_records() {
    let coords = Coords::new();
    let pieces = Pieces::new(&coords);
    let rgen = RGen::new(&pieces, &coords);
    let choices = [Permutation::new(['T', 'W'], 0), Permutation::new(['T', 'O'], 120), Permutation::new(['i', '2'], 60)];
    let found = rgen.search(Permutations { perms: choices.to_vec(), index: 77 });
    assert!(found.len() > 100);
    for f in found.iter() {
        assert_eq!(f.solution.size, 3);
        let mut board = Board::new(77, &coords);
        for (slot, choice) in choices.iter().enumerate() {
            let record = f.solution.sol[slot];
            assert_eq!((record.key, record.angle), (choice.key, choice.angle));
            let piece = pieces.by_key(&choice.key).unwrap();
            let shape = piece.shape(choice.angle);
            assert!(shape.positions.contains(&record.yrg));
            board = board.place_piece(shape, piece.color, &record.yrg).unwrap();
        }
        assert_eq!(board, f.board);
        for slot in 3..11 {
            assert_eq!(f.solution.sol[slot], PieceSolution::new());
        }
    }
    // The positions of the pieces before the last come in their order.
    let first: Vec<AbsYRG> = found.iter().map(|f| f.solution.sol[0].yrg).collect();
    let positions = &pieces.by_str("TW").unwrap().shape(0).positions;
    let mut at = 0;
    for yrg in first.iter() {
        while positions[at] != *yrg {
            at += 1;
        }
    }
}

#[test]
fn test_next_search_gives_the_sequences_of_the_worker() {
    let coords = Coords::new();
    let pieces = Pieces::new(&coords);
    let rgen = RGen::new(&pieces, &coords);
    // Group 2 has twelve sequences; the worker 1 of 3 takes 4, 7 and 10
    // from the range 3..=10.
    let mut it = pieces.iter(2);
    let mut taken = Vec::new();
    while let Some(p) = rgen.next_search(&mut it, 3, 10, 1, 3) {
        assert_eq!(it.index, p.index);
        taken.push(p.to_string());
    }
    assert_eq!(taken, vec!["[4] W1@180", "[7] W2@0", "[10] W2@180"]);
    // The sequence behind the range was given out by the enumeration, and
    // ended the search.
    assert_eq!(it.index, 11);
    assert!(!it.done);
    // The last sequence lies behind the range as well.
    assert_eq!(rgen.next_search(&mut it, 3, 10, 1, 3), None);
    assert_eq!(it.index, 12);
    assert!(it.done);
    // All sequences are given out: the end is signalled, and the
    // enumeration is as at its start.
    assert_eq!(rgen.next_search(&mut it, 3, 10, 1, 3), None);
    assert_eq!(it.index, 0);
    assert!(!it.done);
    assert_eq!(rgen.next_search(&mut it, 3, 10, 1, 3).unwrap().to_string(), "[4] W1@180");

    // Without a range and with one worker every sequence is taken.
    let mut it = pieces.iter(1);
    let mut count = 0;
    while let Some(p) = rgen.next_search(&mut it, 0, i32::MAX, 0, 1) {
        count += 1;
        assert_eq!(p.index, count);
    }
    assert_eq!(count, 6);
    // The call that gave `None` left the enumeration as at its start.
    assert!(!it.done);
    assert_eq!(it.index, 0);

    // What is searched step by step is what a run finds.
    let mut it = pieces.iter(3);
    let mut found = Vec::new();
    while let Some(p) = rgen.next_search(&mut it, 2, 9, 0, 2) {
        found.extend(rgen.search(p));
    }
    assert_eq!(found, rgen.run(3, 2, 9, 0, 2));
    assert_eq!(found.len(), 4);
}

#[test]
fn test_found_boards_of_a_full_sequence_have_no_free_cell() {
    let coords = Coords::new();
    let pieces = Pieces::new(&coords);
    let rgen = RGen::new(&pieces, &coords);
    let choices = [
        ("HR", 0), ("i1", 0), ("W1", 0), ("P1", 0), ("VB", 300), ("J1", 0),
        ("L2", 0), ("TW", 0), ("TO", 180), ("TY", 240), ("TY", 300),
    ];
    let perms = Permutations {
        perms: choices.iter().map(|(k, a)| Permutation::new(Piece::to_key(k), *a)).collect(),
        index: 1,
    };
    for f in rgen.search(perms).iter() {
        for cell in coords.valid_yrg.iter() {
            assert!(f.board.occupied(cell));
        }
        assert_eq!(f.board.to_string().len(), 54);
        assert!(!f.board.to_string().contains('e'));
    }
}
