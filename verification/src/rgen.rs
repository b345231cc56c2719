//! The search: for one sequence of choices, the placements of its pieces,
//! one after the other, that tile the board.

use vstd::prelude::*;
use crate::board::{
    distinct, empties, empty_board, lemma_empty_board_empties, lemma_no_empties,
    lemma_placed_empties, Board, BoardView, BOARD_SIZE,
};
use crate::coord::{AbsYRG, Coords};
use crate::odometer::{
    advanced, advanced_by, lemma_advanced, lemma_value_bounds, remainder, span, Wheel,
};
use crate::permutations::{Permutation, Permutations};
use crate::piece::{
    boundary, is_step, lemma_turned_by_len, shape_at, traceable, Colors, Piece, ShapeView,
};
use crate::pieces::{
    cells_from, choices, first_wheels, from_group, group_cells, group_choices, group_members,
    groups_of, is_catalog, is_piece, lemma_cells_of_all_groups, lemma_choice_from_group,
    lemma_group_cells, lemma_group_uniform, lemma_over, lemma_pieces_distinct,
    lemma_pieces_on_board, lemma_shape_cells, lemma_wheels_ok, offered, piece_cells,
    piece_max_rot, piece_name, Pieces, PiecesIteratorState, NUM_GROUPS, NUM_PIECES,
};
use crate::solutions::{record_texts, BoardSolution, PieceSolution, MAX_PERM_SIZE};
use crate::text::{decimal, joined, push_decimal};

verus! {

/// Every how many searched sequences a progress message is due.
pub const PROGRESS_MOD: i32 = 1024;

/// A board on which the last piece of a sequence was placed, with the
/// placements that led to it.
#[derive(Copy, Clone, PartialEq, Eq, Debug)]
pub struct Found {
    pub board: Board,
    pub solution: BoardSolution,
}

/// A found board as the contracts see it.
pub struct Tiling {
    pub board: BoardView,
    pub records: Seq<PieceSolution>,
    pub size: int,
}

impl View for Found {
    type V = Tiling;

    open spec fn view(&self) -> Tiling {
        Tiling {
            board: self.board@,
            records: self.solution.sol@,
            size: self.solution.size as int,
        }
    }
}

/// The views of a list of found boards.
pub open spec fn tilings_of(found: Seq<Found>) -> Seq<Tiling> {
    Seq::new(found.len(), |i: int| found[i]@)
}

/// The record of the placement of a choice at an offset.
pub open spec fn record(perm: Permutation, offset: AbsYRG) -> PieceSolution {
    PieceSolution { key: perm.key, angle: perm.angle, yrg: offset }
}

/// The shape that the catalog has for a choice.
pub open spec fn shape_of(catalog: Map<Seq<char>, Piece>, perm: Permutation) -> ShapeView {
    catalog[perm.key@].shapes@[perm.angle]@
}

/// What the search finds for the choices `perms` on `board`, trying the
/// positions of the first choice from the `k`-th on, in order. Where the
/// first piece cannot be placed, the next position is tried. Where it can,
/// the placement is recorded; the search then goes on with the other
/// choices on the new board and, after that, with the next position. The
/// last piece is placed only once: its first placement gives a found board
/// and ends the search at that level.
pub open spec fn tilings(
    catalog: Map<Seq<char>, Piece>,
    board: BoardView,
    perms: Seq<Permutation>,
    records: Seq<PieceSolution>,
    size: int,
    k: int,
) -> Seq<Tiling>
    decreases perms.len(), shape_of(catalog, perms[0]).positions.len() - k,
{
    if perms.len() == 0 || k < 0 || k >= shape_of(catalog, perms[0]).positions.len() {
        Seq::empty()
    } else {
        let shape = shape_of(catalog, perms[0]);
        let offset = shape.positions[k];
        match board.placed(shape.cells, catalog[perms[0].key@].color, offset) {
            None => tilings(catalog, board, perms, records, size, k + 1),
            Some(next) => {
                let extended = records.update(size, record(perms[0], offset));
                if perms.len() == 1 {
                    seq![Tiling { board: next, records: extended, size: size + 1 }]
                } else {
                    tilings(catalog, next, perms.skip(1), extended, size + 1, 0) + tilings(
                        catalog,
                        board,
                        perms,
                        records,
                        size,
                        k + 1,
                    )
                }
            },
        }
    }
}

/// The board that the placements recorded in the slots from `size` on give,
/// one after the other, for the choices `perms` on `board`, if each of
/// them can be made.
pub open spec fn replayed(
    catalog: Map<Seq<char>, Piece>,
    board: BoardView,
    perms: Seq<Permutation>,
    records: Seq<PieceSolution>,
    size: int,
) -> Option<BoardView>
    decreases perms.len(),
{
    if perms.len() == 0 {
        Some(board)
    } else {
        let shape = shape_of(catalog, perms[0]);
        match board.placed(shape.cells,
            catalog[perms[0].key@].color,
            records[size].yrg,
        ) {
            None => None,
            Some(next) => replayed(catalog, next, perms.skip(1), records, size + 1),
        }
    }
}

/// Whatever the search finds has one more record for each choice, in the
/// order of the choices, behind the records that were there; each record
/// holds the piece and the angle of its choice and one of the positions of
/// the shape; and the found board is the one that these placements give,
/// one after the other.
pub proof fn lemma_found_replays(
    catalog: Map<Seq<char>, Piece>,
    board: BoardView,
    perms: Seq<Permutation>,
    records: Seq<PieceSolution>,
    size: int,
    k: int,
    i: int,
)
    requires
        0 <= size,
        size + perms.len() <= records.len(),
        0 <= i < tilings(catalog, board, perms, records, size, k).len(),
    ensures
        ({
            let t = tilings(catalog, board, perms, records, size, k)[i];
            &&& t.size == size + perms.len()
            &&& t.records.len() == records.len()
            &&& forall|j: int| 0 <= j < size ==> t.records[j] == records[j]
            &&& forall|j: int|
                0 <= j < perms.len() ==> {
                    &&& (#[trigger] t.records[size + j]).key == perms[j].key
                    &&& t.records[size + j].angle == perms[j].angle
                    &&& shape_of(catalog, perms[j]).positions.contains(t.records[size + j].yrg)
                }
            &&& replayed(catalog, board, perms, t.records, size) == Some(t.board)
        }),
    decreases perms.len(), shape_of(catalog, perms[0]).positions.len() - k,
{
    let found = tilings(catalog, board, perms, records, size, k);
    let t = found[i];
    let shape = shape_of(catalog, perms[0]);
    let offset = shape.positions[k];
    let color = catalog[perms[0].key@].color;
    match board.placed(shape.cells, color, offset) {
        None => {
            lemma_found_replays(catalog, board, perms, records, size, k + 1, i);
        },
        Some(next) => {
            let extended = records.update(size, record(perms[0], offset));
            if perms.len() == 1 {
                assert(t.records[size] == record(perms[0], offset));
                assert(replayed(catalog, next, perms.skip(1), t.records, size + 1) == Some(next));
                assert forall|j: int| 0 <= j < perms.len() implies {
                    &&& (#[trigger] t.records[size + j]).key == perms[j].key
                    &&& t.records[size + j].angle == perms[j].angle
                    &&& shape_of(catalog, perms[j]).positions.contains(t.records[size + j].yrg)
                } by {
                    assert(j == 0);
                }
            } else {
                let inner = tilings(catalog, next, perms.skip(1), extended, size + 1, 0);
                if i < inner.len() {
                    assert(t == inner[i]);
                    lemma_found_replays(catalog, next, perms.skip(1), extended, size + 1, 0, i);
                    assert(t.records[size] == extended[size]);
                    assert forall|j: int| 0 <= j < size implies t.records[j] == records[j] by {
                        assert(t.records[j] == extended[j]);
                    }
                    assert forall|j: int| 0 <= j < perms.len() implies {
                        &&& (#[trigger] t.records[size + j]).key == perms[j].key
                        &&& t.records[size + j].angle == perms[j].angle
                        &&& shape_of(catalog, perms[j]).positions.contains(
                            t.records[size + j].yrg,
                        )
                    } by {
                        if j > 0 {
                            assert(perms.skip(1)[j - 1] == perms[j]);
                            assert(t.records[size + 1 + (j - 1)].key == perms.skip(1)[j - 1].key);
                        }
                    }
                } else {
                    assert(t == tilings(catalog, board, perms, records, size, k + 1)[i
                        - inner.len()]);
                    lemma_found_replays(
                        catalog,
                        board,
                        perms,
                        records,
                        size,
                        k + 1,
                        i - inner.len(),
                    );
                }
            }
        },
    }
}

/// The board that the choices give when each is placed at its offset, one
/// after the other, if every offset is one of the positions of its shape
/// and every placement can be made.
pub open spec fn placed_in_turn(
    catalog: Map<Seq<char>, Piece>,
    board: BoardView,
    perms: Seq<Permutation>,
    offsets: Seq<AbsYRG>,
) -> Option<BoardView>
    decreases perms.len(),
{
    if perms.len() == 0 {
        Some(board)
    } else {
        let shape = shape_of(catalog, perms[0]);
        if !shape.positions.contains(offsets[0]) {
            None
        } else {
            match board.placed(shape.cells,
                catalog[perms[0].key@].color,
                offsets[0],
            ) {
                None => None,
                Some(next) => placed_in_turn(catalog, next, perms.skip(1), offsets.skip(1)),
            }
        }
    }
}

/// The offsets that the records hold in the `n` slots from `size` on.
pub open spec fn offsets_of(records: Seq<PieceSolution>, size: int, n: nat) -> Seq<AbsYRG> {
    Seq::new(n, |j: int| records[size + j].yrg)
}

/// Placements that can be replayed from the records, each at a position of
/// its shape, are placements in turn at the offsets of the records.
pub proof fn lemma_replayed_in_turn(
    catalog: Map<Seq<char>, Piece>,
    board: BoardView,
    perms: Seq<Permutation>,
    records: Seq<PieceSolution>,
    size: int,
)
    requires
        replayed(catalog, board, perms, records, size) is Some,
        forall|j: int|
            0 <= j < perms.len() ==> shape_of(catalog, perms[j]).positions.contains(
                (#[trigger] records[size + j]).yrg,
            ),
    ensures
        placed_in_turn(catalog, board, perms, offsets_of(records, size, perms.len()))
            == replayed(catalog, board, perms, records, size),
    decreases perms.len(),
{
    if perms.len() > 0 {
        let offsets = offsets_of(records, size, perms.len());
        let shape = shape_of(catalog, perms[0]);
        assert(shape.positions.contains(records[size + 0].yrg));
        assert(offsets[0] == records[size].yrg);
        let next = board.placed(shape.cells,
            catalog[perms[0].key@].color,
            offsets[0],
        )->Some_0;
        assert forall|j: int| 0 <= j < perms.skip(1).len() implies shape_of(
            catalog,
            perms.skip(1)[j],
        ).positions.contains((#[trigger] records[size + 1 + j]).yrg) by {
            assert(perms.skip(1)[j] == perms[j + 1]);
            assert(shape_of(catalog, perms[j + 1]).positions.contains(
                records[size + (j + 1)].yrg,
            ));
        }
        lemma_replayed_in_turn(catalog, next, perms.skip(1), records, size + 1);
        assert(offsets.skip(1) =~= offsets_of(records, size + 1, perms.skip(1).len()));
    }
}

/// Where the choices can be placed in turn at some offsets, the first of
/// them at the position `k0` of its shape, the search that starts at a
/// position up to `k0` finds something.
pub proof fn lemma_finds(
    catalog: Map<Seq<char>, Piece>,
    board: BoardView,
    perms: Seq<Permutation>,
    records: Seq<PieceSolution>,
    size: int,
    offsets: Seq<AbsYRG>,
    k: int,
    k0: int,
)
    requires
        perms.len() > 0,
        offsets.len() == perms.len(),
        placed_in_turn(catalog, board, perms, offsets) is Some,
        0 <= k <= k0 < shape_of(catalog, perms[0]).positions.len(),
        shape_of(catalog, perms[0]).positions[k0] == offsets[0],
    ensures
        tilings(catalog, board, perms, records, size, k).len() > 0,
    decreases perms.len(), k0 - k,
{
    let shape = shape_of(catalog, perms[0]);
    let color = catalog[perms[0].key@].color;
    let offset = shape.positions[k];
    match board.placed(shape.cells, color, offset) {
        None => {
            lemma_finds(catalog, board, perms, records, size, offsets, k + 1, k0);
        },
        Some(next) => {
            if perms.len() > 1 {
                if k == k0 {
                    let extended = records.update(size, record(perms[0], offset));
                    let rest = perms.skip(1);
                    let further = offsets.skip(1);
                    let positions = shape_of(catalog, rest[0]).positions;
                    assert(placed_in_turn(catalog, next, rest, further) is Some);
                    assert(positions.contains(further[0]));
                    let k1 = choose|k1: int|
                        0 <= k1 < positions.len() && positions[k1] == further[0];
                    lemma_finds(catalog, next, rest, extended, size + 1, further, 0, k1);
                } else {
                    lemma_finds(catalog, board, perms, records, size, offsets, k + 1, k0);
                }
            }
        },
    }
}

/// The search finds something for a sequence of choices exactly when the
/// choices can be placed one after the other, each at one of the positions
/// of its shape.
pub proof fn lemma_finds_iff(
    catalog: Map<Seq<char>, Piece>,
    board: BoardView,
    perms: Seq<Permutation>,
    records: Seq<PieceSolution>,
    size: int,
)
    requires
        perms.len() > 0,
        0 <= size,
        size + perms.len() <= records.len(),
    ensures
        tilings(catalog, board, perms, records, size, 0).len() > 0 <==> exists|
            offsets: Seq<AbsYRG>,
        |
            offsets.len() == perms.len() && #[trigger] placed_in_turn(
                catalog,
                board,
                perms,
                offsets,
            ) is Some,
{
    let found = tilings(catalog, board, perms, records, size, 0);
    if found.len() > 0 {
        let t = found[0];
        lemma_found_replays(catalog, board, perms, records, size, 0, 0);
        lemma_replayed_in_turn(catalog, board, perms, t.records, size);
        let offsets = offsets_of(t.records, size, perms.len());
        assert(offsets.len() == perms.len() && placed_in_turn(catalog, board, perms, offsets)
            is Some);
    }
    if exists|offsets: Seq<AbsYRG>|
        offsets.len() == perms.len() && #[trigger] placed_in_turn(catalog, board, perms, offsets)
            is Some {
        let offsets = choose|offsets: Seq<AbsYRG>|
            offsets.len() == perms.len() && #[trigger] placed_in_turn(
                catalog,
                board,
                perms,
                offsets,
            ) is Some;
        let positions = shape_of(catalog, perms[0]).positions;
        assert(positions.contains(offsets[0]));
        let k0 = choose|k0: int| 0 <= k0 < positions.len() && positions[k0] == offsets[0];
        lemma_finds(catalog, board, perms, records, size, offsets, 0, k0);
    }
}

/// The number of cells of the shapes of the choices.
pub open spec fn cells_of(catalog: Map<Seq<char>, Piece>, perms: Seq<Permutation>) -> nat
    decreases perms.len(),
{
    if perms.len() == 0 {
        0
    } else {
        shape_of(catalog, perms[0]).cells.len() + cells_of(catalog, perms.skip(1))
    }
}

/// No cell occurs twice in the shape of the choice, and the color of its
/// piece is not that of an empty cell.
pub open spec fn proper(catalog: Map<Seq<char>, Piece>, perm: Permutation) -> bool {
    distinct(shape_of(catalog, perm).cells) && catalog[perm.key@].color != Colors::Empty
}

/// Placements in turn take as many slots from those that hold `Empty` as
/// the shapes have cells.
pub proof fn lemma_in_turn_empties(
    catalog: Map<Seq<char>, Piece>,
    board: BoardView,
    perms: Seq<Permutation>,
    offsets: Seq<AbsYRG>,
)
    requires
        board.colors.len() == BOARD_SIZE,
        forall|j: int| 0 <= j < perms.len() ==> proper(catalog, #[trigger] perms[j]),
        placed_in_turn(catalog, board, perms, offsets) is Some,
    ensures
        empties(placed_in_turn(catalog, board, perms, offsets)->Some_0.colors) + cells_of(
            catalog,
            perms,
        ) == empties(board.colors),
    decreases perms.len(),
{
    if perms.len() > 0 {
        let shape = shape_of(catalog, perms[0]);
        let color = catalog[perms[0].key@].color;
        assert(proper(catalog, perms[0]));
        let next = board.placed(shape.cells, color, offsets[0])->Some_0;
        lemma_placed_empties(board, shape.cells, color, offsets[0]);
        assert forall|j: int| 0 <= j < perms.skip(1).len() implies proper(
            catalog,
            #[trigger] perms.skip(1)[j],
        ) by {
            assert(perms.skip(1)[j] == perms[j + 1]);
        }
        lemma_in_turn_empties(catalog, next, perms.skip(1), offsets.skip(1));
    }
}

/// A choice of a group has a shape in the catalog with the cells of the
/// group, none of them twice, in the color of a piece.
pub proof fn lemma_from_group(catalog: Map<Seq<char>, Piece>, perm: Permutation, g: int)
    requires
        is_catalog(catalog),
        0 <= g < NUM_GROUPS,
        from_group(perm, g),
    ensures
        proper(catalog, perm),
        shape_of(catalog, perm).cells.len() == group_cells(g),
        offered(perm),
{
    let j = choose|j: int|
        0 <= j < group_members(g).len() && perm.key@ == #[trigger] piece_name(group_members(g)[j])
            && is_step(perm.angle as int, piece_max_rot(group_members(g)[j]) as int);
    let m = group_members(g)[j];
    lemma_group_uniform(g, j);
    lemma_group_cells(g, j);
    lemma_shape_cells(catalog, m, perm.angle);
    lemma_pieces_distinct(m);
    assert(catalog.contains_key(piece_name(m)) && is_piece(catalog[piece_name(m)], m));
}

/// One choice from each of the groups from `g` on has as many cells as
/// the pieces of these groups.
pub proof fn lemma_cells_of_groups(
    catalog: Map<Seq<char>, Piece>,
    perms: Seq<Permutation>,
    g: nat,
)
    requires
        is_catalog(catalog),
        perms.len() == NUM_GROUPS,
        forall|j: int| 0 <= j < NUM_GROUPS ==> from_group(#[trigger] perms[j], j),
        g <= NUM_GROUPS,
    ensures
        cells_of(catalog, perms.skip(g as int)) == cells_from(g as int),
    decreases NUM_GROUPS - g,
{
    if g < NUM_GROUPS {
        let rest = perms.skip(g as int);
        assert(rest[0] == perms[g as int]);
        assert(rest.skip(1) =~= perms.skip(g as int + 1));
        lemma_from_group(catalog, perms[g as int], g as int);
        lemma_cells_of_groups(catalog, perms, g + 1);
    }
}

/// For a sequence with one choice from each group, in the order of the
/// groups, every board that the search finds from the board without any
/// piece is covered: no slot holds `Empty`, and the pieces cover all 54
/// cells.
pub proof fn lemma_found_is_tiled(
    catalog: Map<Seq<char>, Piece>,
    perms: Seq<Permutation>,
    index: i32,
    i: int,
)
    requires
        is_catalog(catalog),
        perms.len() == NUM_GROUPS,
        forall|j: int| 0 <= j < NUM_GROUPS ==> from_group(#[trigger] perms[j], j),
        0 <= i < tilings(catalog, empty_board(index), perms, no_records(), 0, 0).len(),
    ensures
        ({
            let t = tilings(catalog, empty_board(index), perms, no_records(), 0, 0)[i];
            &&& t.board.colors.len() == BOARD_SIZE
            &&& empties(t.board.colors) == 0
            &&& forall|s: int| 0 <= s < BOARD_SIZE ==> #[trigger] t.board.colors[s] != Colors::Empty
        }),
{
    let board = empty_board(index);
    let t = tilings(catalog, board, perms, no_records(), 0, 0)[i];
    lemma_found_replays(catalog, board, perms, no_records(), 0, 0, i);
    lemma_replayed_in_turn(catalog, board, perms, t.records, 0);
    let offsets = offsets_of(t.records, 0, perms.len());
    assert forall|j: int| 0 <= j < perms.len() implies proper(catalog, #[trigger] perms[j]) by {
        lemma_from_group(catalog, perms[j], j);
    }
    lemma_empty_board_empties(index);
    lemma_in_turn_empties(catalog, board, perms, offsets);
    lemma_cells_of_groups(catalog, perms, 0);
    assert(perms.skip(0) =~= perms);
    lemma_cells_of_all_groups();
    lemma_in_turn_len(catalog, board, perms, offsets);
    assert forall|s: int| 0 <= s < BOARD_SIZE implies #[trigger] t.board.colors[s]
        != Colors::Empty by {
        lemma_no_empties(t.board.colors, s);
    }
}

/// Placements in turn keep the number of slots.
pub proof fn lemma_in_turn_len(
    catalog: Map<Seq<char>, Piece>,
    board: BoardView,
    perms: Seq<Permutation>,
    offsets: Seq<AbsYRG>,
)
    requires
        placed_in_turn(catalog, board, perms, offsets) is Some,
    ensures
        placed_in_turn(catalog, board, perms, offsets)->Some_0.colors.len() == board.colors.len(),
        placed_in_turn(catalog, board, perms, offsets)->Some_0.perm_index == board.perm_index,
    decreases perms.len(),
{
    if perms.len() > 0 {
        let shape = shape_of(catalog, perms[0]);
        let color = catalog[perms[0].key@].color;
        let next = board.placed(shape.cells, color, offsets[0])->Some_0;
        lemma_in_turn_len(catalog, next, perms.skip(1), offsets.skip(1));
    }
}

/// The choices that a counter over all groups stands on are one choice
/// from each group, in the order of the groups.
pub proof fn lemma_choices_from_groups(ws: Seq<Wheel>)
    requires
        ws.len() == NUM_GROUPS,
        forall|g: int|
            0 <= g < NUM_GROUPS ==> 0 <= (#[trigger] ws[g]).digit < group_choices(g),
    ensures
        choices(groups_of(-1), ws).len() == NUM_GROUPS,
        forall|g: int|
            0 <= g < NUM_GROUPS ==> from_group(#[trigger] choices(groups_of(-1), ws)[g], g),
{
    assert forall|g: int| 0 <= g < NUM_GROUPS implies from_group(
        #[trigger] choices(groups_of(-1), ws)[g],
        g,
    ) by {
        lemma_choice_from_group(g, ws[g].digit);
    }
}

/// The records of a solution without any placement.
pub open spec fn no_records() -> Seq<PieceSolution> {
    Seq::new(MAX_PERM_SIZE as nat, |i: int| PieceSolution::unused())
}

/// A message of a search: a line for the output, or a note on the progress.
/// One of the two texts is empty.
#[derive(Clone, Debug)]
pub struct RGenResult {
    pub progress: String,
    pub result: String,
}

/// The line of the output for a found board: the index of the sequence in
/// square brackets, the signature of the board, and the placements.
pub open spec fn result_line(board: BoardView, records: Seq<PieceSolution>) -> Seq<char> {
    seq!['@', '@', ' ', '['] + decimal(board.perm_index as int) + seq![
        ']',
        ' ',
        'S',
        'I',
        'G',
        ' ',
    ] + board.signature() + seq![' '] + joined(record_texts(records), seq![','])
}

impl RGenResult {
    /// The message for a found board.
    pub fn new_result(board: &Board, sol: &BoardSolution) -> (res: RGenResult)
        ensures
            res.progress@.len() == 0,
            res.result@ == result_line(board@, sol.sol@),
    {
        let mut line = String::new();
        line.push('@');
        line.push('@');
        line.push(' ');
        line.push('[');
        push_decimal(&mut line, board.index());
        line.push(']');
        line.push(' ');
        line.push('S');
        line.push('I');
        line.push('G');
        line.push(' ');
        let signature = board.to_string();
        line.append(signature.as_str());
        line.push(' ');
        let records = sol.to_string();
        line.append(records.as_str());
        RGenResult { progress: String::new(), result: line }
    }

    /// The message for a note on the progress.
    pub fn new_progress(log: String) -> (res: RGenResult)
        ensures
            res.progress == log,
            res.result@.len() == 0,
    {
        RGenResult { progress: log, result: String::new() }
    }
}

/// What is done with the sequence of a given index.
#[derive(Copy, Clone, PartialEq, Eq, Debug, Structural)]
pub enum Selection {
    /// The sequence is left out, and the enumeration goes on.
    Skip,
    /// The sequence lies behind the range: the enumeration ends.
    Stop,
    /// The sequence is searched.
    Search,
}

/// What is done with the sequence of index `index` by the worker
/// `gen_index` of `gen_modulo`: sequences before `pmin` are left out, the
/// first one behind `pmax` ends the enumeration, and of the others each
/// worker takes those whose index leaves its number as remainder. With one
/// worker or none, the worker takes all.
pub open spec fn selection(
    index: int,
    pmin: int,
    pmax: int,
    gen_index: int,
    gen_modulo: int,
) -> Selection {
    if index < pmin {
        Selection::Skip
    } else if index > pmax {
        Selection::Stop
    } else if gen_modulo > 1 && remainder(index, gen_modulo) != gen_index {
        Selection::Skip
    } else {
        Selection::Search
    }
}

/// What a worker finds in the next `n` sequences of an enumeration over the
/// groups `gs` whose counter shows `ws`, after `index` sequences: what the
/// search finds for each sequence that the worker searches, in the order of
/// the sequences, up to the first sequence behind the range.
pub open spec fn gathered(
    catalog: Map<Seq<char>, Piece>,
    gs: Seq<int>,
    ws: Seq<Wheel>,
    index: int,
    n: nat,
    pmin: int,
    pmax: int,
    gen_index: int,
    gen_modulo: int,
) -> Seq<Tiling>
    decreases n,
{
    if n == 0 {
        Seq::empty()
    } else {
        let sel = selection(index + 1, pmin, pmax, gen_index, gen_modulo);
        let later = gathered(
            catalog,
            gs,
            advanced(ws).0,
            index + 1,
            (n - 1) as nat,
            pmin,
            pmax,
            gen_index,
            gen_modulo,
        );
        if sel == Selection::Stop {
            Seq::empty()
        } else if sel == Selection::Search {
            tilings(
                catalog,
                empty_board((index + 1) as i32),
                choices(gs, ws),
                no_records(),
                0,
                0,
            ) + later
        } else {
            later
        }
    }
}

/// What a worker still finds from the place of an enumeration over the
/// groups `gs`: nothing once all sequences have been given out, else what
/// it finds in the sequences that are left.
pub open spec fn remaining(
    catalog: Map<Seq<char>, Piece>,
    gs: Seq<int>,
    it: PiecesIteratorState,
    pmin: int,
    pmax: int,
    gen_index: int,
    gen_modulo: int,
) -> Seq<Tiling> {
    if it.done {
        Seq::empty()
    } else {
        gathered(
            catalog,
            gs,
            it.wheels(),
            it.index as int,
            (span(it.wheels()) - it.index) as nat,
            pmin,
            pmax,
            gen_index,
            gen_modulo,
        )
    }
}

/// Every sequence with an index between `from` and `to`, both left out, is
/// left out by the worker.
pub open spec fn all_skipped(
    from: int,
    to: int,
    pmin: int,
    pmax: int,
    gen_index: int,
    gen_modulo: int,
) -> bool {
    forall|i: int|
        from < i < to ==> #[trigger] selection(i, pmin, pmax, gen_index, gen_modulo)
            == Selection::Skip
}

/// Among `gen_modulo` workers, every index of a sequence that lies in the
/// range is searched by exactly one worker, and no other index is
/// searched by any.
pub proof fn lemma_shards_partition(index: int, pmin: int, pmax: int, gen_modulo: int)
    requires
        index >= 0,
        gen_modulo >= 1,
    ensures
        pmin <= index <= pmax ==> {
            &&& 0 <= remainder(index, gen_modulo) < gen_modulo
            &&& forall|w: int|
                0 <= w < gen_modulo ==> (#[trigger] selection(index, pmin, pmax, w, gen_modulo)
                    == Selection::Search <==> w == remainder(index, gen_modulo))
        },
        !(pmin <= index <= pmax) ==> forall|w: int| #[trigger]
            selection(index, pmin, pmax, w, gen_modulo) != Selection::Search,
{
}

/// The search engine: the catalog and the tables of the board.
pub struct RGen<'a> {
    pub pieces: &'a Pieces,
    pub coords: &'a Coords,
}

impl<'a> RGen<'a> {
    pub fn new(pieces: &'a Pieces, coords: &'a Coords) -> (rgen: RGen<'a>)
        ensures
            rgen.pieces == pieces,
            rgen.coords == coords,
    {
        RGen { pieces, coords }
    }

    /// Whether the catalog offers every choice, so that each can be
    /// looked up.
    pub open spec fn all_offered(perms: Seq<Permutation>) -> bool {
        forall|i: int| 0 <= i < perms.len() ==> offered(#[trigger] perms[i])
    }

    /// Places the piece of the first choice on each of its positions in
    /// turn and, where it fits, goes on with the other choices on the new
    /// board; every board on which the last piece comes to lie is appended
    /// to `found`, with its placements. The last piece is placed once.
    pub fn place_pieces(
        &self,
        board: Board,
        permutations: Permutations,
        solutions: BoardSolution,
        found: &mut Vec<Found>,
    )
        requires
            self.pieces.wf(),
            Self::all_offered(permutations@.perms),
            solutions.size + permutations@.perms.len() <= MAX_PERM_SIZE,
        ensures
            tilings_of(final(found)@) == tilings_of(old(found)@) + tilings(
                self.pieces@,
                board@,
                permutations@.perms,
                solutions.sol@,
                solutions.size as int,
                0,
            ),
        decreases permutations@.perms.len(),
    {
        let ghost catalog = self.pieces@;
        let ghost perms = permutations@.perms;
        let ghost start = tilings_of(found@);
        let split = permutations.split_first();
        if split.is_none() {
            assert(tilings_of(found@) + Seq::<Tiling>::empty() =~= tilings_of(found@));
            return;
        }
        let (first, rest) = split.unwrap();
        proof {
            assert(offered(perms[0]));
            let n = choose|n: int|
                0 <= n < NUM_PIECES && first.key@ == #[trigger] piece_name(n) && is_step(
                    first.angle as int,
                    piece_max_rot(n) as int,
                );
            assert(catalog.contains_key(piece_name(n)) && is_piece(catalog[piece_name(n)], n));
            assert(shape_at(catalog[first.key@].shapes@, piece_cells(n), first.angle));
            lemma_turned_by_len(piece_cells(n), (first.angle / 60) as nat);
            lemma_pieces_on_board(n);
            lemma_shape_cells(catalog, n, first.angle);
            assert forall|i: int| 0 <= i < rest@.perms.len() implies offered(
                #[trigger] rest@.perms[i],
            ) by {
                assert(rest@.perms[i] == perms[i + 1]);
            }
        }
        let piece = self.pieces.by_key(&first.key).unwrap();
        let shape = piece.shape(first.angle);
        let color = piece.color;
        let mut k: usize = 0;
        proof {
            assert(tilings_of(found@) =~= start);
        }
        while k < shape.positions.len()
            invariant
                k <= shape@.positions.len(),
                self.pieces.wf(),
                catalog == self.pieces@,
                catalog.contains_key(perms[0].key@),
                start == tilings_of(old(found)@),
                perms == permutations@.perms,
                perms.len() > 0,
                first == perms[0],
                rest@.perms == perms.skip(1),
                Self::all_offered(rest@.perms),
                solutions.size + perms.len() <= MAX_PERM_SIZE,
                shape@ == shape_of(catalog, perms[0]),
                shape@.cells.len() > 0,
                traceable(shape@.cells),
                shape@.adjacents == boundary(shape@.cells),
                color == catalog[perms[0].key@].color,
                start + tilings(catalog, board@, perms, solutions.sol@, solutions.size as int, 0)
                    == tilings_of(found@) + tilings(
                    catalog,
                    board@,
                    perms,
                    solutions.sol@,
                    solutions.size as int,
                    k as int,
                ),
            decreases shape@.positions.len() - k,
        {
            let yrg = shape.positions[k];
            let ghost before = tilings_of(found@);
            let ghost later = tilings(
                catalog,
                board@,
                perms,
                solutions.sol@,
                solutions.size as int,
                k + 1,
            );
            let result = board.place_prepared(shape, color, &yrg);
            match result {
                None => {},
                Some(new_board) => {
                    let new_sol = solutions.append(&first, &yrg);
                    assert(new_sol.sol@ == solutions.sol@.update(
                        solutions.size as int,
                        record(first, yrg),
                    ));
                    if rest.is_empty() {
                        found.push(Found { board: new_board, solution: new_sol });
                        proof {
                            assert(tilings_of(found@) =~= before + seq![
                                Tiling {
                                    board: new_board@,
                                    records: new_sol.sol@,
                                    size: solutions.size + 1,
                                },
                            ]);
                        }
                        return;
                    } else {
                        self.place_pieces(new_board, rest.copy(), new_sol, found);
                        proof {
                            let inner = tilings(
                                catalog,
                                new_board@,
                                perms.skip(1),
                                new_sol.sol@,
                                solutions.size + 1,
                                0,
                            );
                            assert(tilings_of(found@) == before + inner);
                            assert((before + inner) + later =~= before + (inner + later));
                        }
                    }
                },
            }
            k += 1;
        }
        proof {
            assert(tilings_of(found@) + Seq::<Tiling>::empty() =~= tilings_of(found@));
        }
    }

    /// Searches one sequence of choices from the empty board, which takes
    /// the index of the sequence.
    pub fn search(&self, permutations: Permutations) -> (found: Vec<Found>)
        requires
            self.pieces.wf(),
            self.coords.wf(),
            Self::all_offered(permutations@.perms),
            permutations@.perms.len() <= MAX_PERM_SIZE,
        ensures
            tilings_of(found@) == tilings(
                self.pieces@,
                empty_board(permutations@.index),
                permutations@.perms,
                no_records(),
                0,
                0,
            ),
    {
        let empty_board = Board::new(permutations.index, self.coords);
        let mut found: Vec<Found> = Vec::new();
        let solutions = BoardSolution::new();
        assert(solutions.sol@ =~= no_records());
        self.place_pieces(empty_board, permutations, solutions, &mut found);
        found
    }

    /// Goes on with the enumeration up to the next sequence that the worker
    /// `gen_index` of `gen_modulo` takes from the range of indices
    /// `pmin..=pmax`, and gives it out: the sequence that the enumeration
    /// stands on after the sequences in between, each of which is left
    /// out. `None` when a sequence behind the range is met, on which the
    /// enumeration then stands, or when all sequences have been given out,
    /// after which the enumeration is as at its start.
    pub fn next_search(
        &self,
        it: &mut PiecesIteratorState<'a>,
        pmin: i32,
        pmax: i32,
        gen_index: i32,
        gen_modulo: i32,
    ) -> (res: Option<Permutations>)
        requires
            old(it).wf(),
        ensures
            final(it).wf(),
            final(it).state@.len() == old(it).state@.len(),
            span(final(it).wheels()) == span(old(it).wheels()),
            old(it).listed() ==> final(it).listed(),
            forall|gs: Seq<int>| #[trigger] old(it).over(gs) ==> final(it).over(gs),
            res matches Some(p) ==> {
                &&& final(it).index > old(it).index
                &&& p@.index == final(it).index
                &&& p@.perms.len() == old(it).state@.len()
                &&& selection(
                    p@.index as int,
                    pmin as int,
                    pmax as int,
                    gen_index as int,
                    gen_modulo as int,
                ) == Selection::Search
                &&& old(it).listed() ==> Self::all_offered(p@.perms)
                &&& all_skipped(
                    old(it).index as int,
                    p@.index as int,
                    pmin as int,
                    pmax as int,
                    gen_index as int,
                    gen_modulo as int,
                )
                &&& final(it).wheels() == advanced_by(
                    old(it).wheels(),
                    (p@.index - old(it).index) as nat,
                )
                &&& forall|gs: Seq<int>| #[trigger]
                    old(it).over(gs) ==> p@.perms == choices(
                        gs,
                        advanced_by(old(it).wheels(), (p@.index - old(it).index - 1) as nat),
                    )
            },
            res is None ==> {
                ||| {
                    &&& old(it).index < final(it).index
                    &&& selection(
                        final(it).index as int,
                        pmin as int,
                        pmax as int,
                        gen_index as int,
                        gen_modulo as int,
                    ) == Selection::Stop
                    &&& all_skipped(
                        old(it).index as int,
                        final(it).index as int,
                        pmin as int,
                        pmax as int,
                        gen_index as int,
                        gen_modulo as int,
                    )
                }
                ||| {
                    &&& !final(it).done
                    &&& final(it).index == 0
                    &&& final(it).at_start()
                    &&& all_skipped(
                        old(it).index as int,
                        span(old(it).wheels()) + 1,
                        pmin as int,
                        pmax as int,
                        gen_index as int,
                        gen_modulo as int,
                    )
                }
            },
            forall|gs: Seq<int>| #[trigger]
                old(it).over(gs) ==> remaining(
                    self.pieces@,
                    gs,
                    *old(it),
                    pmin as int,
                    pmax as int,
                    gen_index as int,
                    gen_modulo as int,
                ) == match res {
                    None => Seq::<Tiling>::empty(),
                    Some(p) => tilings(
                        self.pieces@,
                        empty_board(p@.index),
                        p@.perms,
                        no_records(),
                        0,
                        0,
                    ) + remaining(
                        self.pieces@,
                        gs,
                        *final(it),
                        pmin as int,
                        pmax as int,
                        gen_index as int,
                        gen_modulo as int,
                    ),
                },
    {
        let ghost catalog = self.pieces@;
        let ghost total = span(it.wheels());
        proof {
            lemma_wheels_ok(it.state@);
            lemma_value_bounds(it.wheels());
        }
        loop
            invariant
                catalog == self.pieces@,
                it.wf(),
                it.state@.len() == old(it).state@.len(),
                span(it.wheels()) == total,
                total == span(old(it).wheels()),
                it.index >= old(it).index,
                it.index <= total,
                it.wheels() == advanced_by(old(it).wheels(), (it.index - old(it).index) as nat),
                all_skipped(
                    old(it).index as int,
                    it.index + 1,
                    pmin as int,
                    pmax as int,
                    gen_index as int,
                    gen_modulo as int,
                ),
                old(it).listed() ==> it.listed(),
                forall|gs: Seq<int>| #[trigger] old(it).over(gs) ==> it.over(gs),
                forall|gs: Seq<int>| #[trigger]
                    old(it).over(gs) ==> remaining(
                        catalog,
                        gs,
                        *old(it),
                        pmin as int,
                        pmax as int,
                        gen_index as int,
                        gen_modulo as int,
                    ) == remaining(
                        catalog,
                        gs,
                        *it,
                        pmin as int,
                        pmax as int,
                        gen_index as int,
                        gen_modulo as int,
                    ),
            decreases
                    if it.done {
                        0
                    } else {
                        total - it.index + 1
                    },
        {
            let ghost before = *it;
            proof {
                lemma_wheels_ok(it.state@);
                lemma_value_bounds(it.wheels());
                lemma_advanced(it.wheels());
            }
            match it.next() {
                None => {
                    return None;
                },
                Some(permutations) => {
                    let selected = Self::selects(
                        permutations.index,
                        pmin,
                        pmax,
                        gen_index,
                        gen_modulo,
                    );
                    proof {
                        assert forall|gs: Seq<int>| #[trigger] old(it).over(gs) implies remaining(
                            catalog,
                            gs,
                            before,
                            pmin as int,
                            pmax as int,
                            gen_index as int,
                            gen_modulo as int,
                        ) == if selected == Selection::Stop {
                            Seq::<Tiling>::empty()
                        } else if selected == Selection::Search {
                            tilings(
                                catalog,
                                empty_board(permutations@.index),
                                permutations@.perms,
                                no_records(),
                                0,
                                0,
                            ) + remaining(
                                catalog,
                                gs,
                                *it,
                                pmin as int,
                                pmax as int,
                                gen_index as int,
                                gen_modulo as int,
                            )
                        } else {
                            remaining(
                                catalog,
                                gs,
                                *it,
                                pmin as int,
                                pmax as int,
                                gen_index as int,
                                gen_modulo as int,
                            )
                        } by {
                            assert(before.over(gs));
                            lemma_over(before, gs);
                            let later = gathered(
                                catalog,
                                gs,
                                advanced(before.wheels()).0,
                                before.index + 1,
                                (total - before.index - 1) as nat,
                                pmin as int,
                                pmax as int,
                                gen_index as int,
                                gen_modulo as int,
                            );
                            if it.done {
                                assert(later =~= Seq::<Tiling>::empty());
                            }
                            let found = tilings(
                                catalog,
                                empty_board(permutations@.index),
                                permutations@.perms,
                                no_records(),
                                0,
                                0,
                            );
                            assert(found + Seq::<Tiling>::empty() =~= found);
                        }
                    }
                    proof {
                        let k = (before.index - old(it).index) as nat;
                        assert(before.wheels() == advanced_by(old(it).wheels(), k));
                        assert(advanced_by(old(it).wheels(), k + 1) == advanced(
                            advanced_by(old(it).wheels(), k),
                        ).0);
                        assert(it.wheels() == advanced_by(old(it).wheels(), k + 1));
                        assert forall|gs: Seq<int>| #[trigger]
                            old(it).over(gs) implies permutations@.perms == choices(
                            gs,
                            advanced_by(old(it).wheels(), k),
                        ) by {
                            assert(before.over(gs));
                            lemma_over(before, gs);
                        }
                        lemma_wheels_ok(it.state@);
                        lemma_value_bounds(it.wheels());
                    }
                    match selected {
                        Selection::Skip => {},
                        Selection::Stop => {
                            return None;
                        },
                        Selection::Search => {
                            return Some(permutations);
                        },
                    }
                },
            }
        }
    }

    /// Searches, one after the other, the sequences of choices that the
    /// worker `gen_index` of `gen_modulo` takes from the range of indices
    /// `pmin..=pmax`, over all groups or over the group `piece_selector`
    /// alone, and returns what was found, in that order.
    pub fn run(
        &self,
        piece_selector: i32,
        pmin: i32,
        pmax: i32,
        gen_index: i32,
        gen_modulo: i32,
    ) -> (found: Vec<Found>)
        requires
            self.pieces.wf(),
            self.coords.wf(),
            piece_selector < NUM_GROUPS,
        ensures
            tilings_of(found@) == gathered(
                self.pieces@,
                groups_of(piece_selector as int),
                first_wheels(groups_of(piece_selector as int)),
                0,
                span(first_wheels(groups_of(piece_selector as int))) as nat,
                pmin as int,
                pmax as int,
                gen_index as int,
                gen_modulo as int,
            ),
    {
        let ghost catalog = self.pieces@;
        let ghost gs = groups_of(piece_selector as int);
        let mut it = self.pieces.iter(piece_selector);
        let ghost total = span(it.wheels());
        let ghost goal = remaining(
            catalog,
            gs,
            it,
            pmin as int,
            pmax as int,
            gen_index as int,
            gen_modulo as int,
        );
        let mut found: Vec<Found> = Vec::new();
        let mut finished = false;
        proof {
            assert(tilings_of(found@) + goal =~= goal);
            lemma_wheels_ok(it.state@);
            lemma_value_bounds(it.wheels());
        }
        while !finished
            invariant
                self.pieces.wf(),
                self.coords.wf(),
                catalog == self.pieces@,
                it.wf(),
                it.listed(),
                it.over(gs),
                gs.len() <= NUM_GROUPS,
                span(it.wheels()) == total,
                it.index <= total,
                finished ==> tilings_of(found@) == goal,
                !finished ==> tilings_of(found@) + remaining(
                    catalog,
                    gs,
                    it,
                    pmin as int,
                    pmax as int,
                    gen_index as int,
                    gen_modulo as int,
                ) == goal,
            decreases
                    if finished {
                        0
                    } else {
                        total - it.index + 1
                    },
        {
            let ghost before = tilings_of(found@);
            let ghost rest = remaining(
                catalog,
                gs,
                it,
                pmin as int,
                pmax as int,
                gen_index as int,
                gen_modulo as int,
            );
            match self.next_search(&mut it, pmin, pmax, gen_index, gen_modulo) {
                None => {
                    finished = true;
                    assert(before + Seq::<Tiling>::empty() =~= before);
                },
                Some(permutations) => {
                    let ghost later = remaining(
                        catalog,
                        gs,
                        it,
                        pmin as int,
                        pmax as int,
                        gen_index as int,
                        gen_modulo as int,
                    );
                    let mut tiled = self.search(permutations);
                    let ghost more = tilings_of(tiled@);
                    found.append(&mut tiled);
                    proof {
                        assert(rest == more + later);
                        assert(tilings_of(found@) =~= before + more);
                        assert((before + more) + later =~= before + (more + later));
                    }
                },
            }
            proof {
                lemma_wheels_ok(it.state@);
                lemma_value_bounds(it.wheels());
            }
        }
        found
    }

    /// What is done with the sequence of the given index.
    pub fn selects(index: i32, pmin: i32, pmax: i32, gen_index: i32, gen_modulo: i32) -> (s:
        Selection)
        ensures
            s == selection(
                index as int,
                pmin as int,
                pmax as int,
                gen_index as int,
                gen_modulo as int,
            ),
    {
        if index < pmin {
            Selection::Skip
        } else if index > pmax {
            Selection::Stop
        } else if gen_modulo > 1 && index % gen_modulo != gen_index {
            Selection::Skip
        } else {
            Selection::Search
        }
    }

    /// Whether a progress message is due before the next search, after
    /// `perm_count` searches.
    pub fn progress_due(perm_count: i32) -> (due: bool)
        ensures
            due == (remainder(perm_count as int, PROGRESS_MOD as int) == 0),
    {
        perm_count % PROGRESS_MOD == 0
    }
}

} // verus!
