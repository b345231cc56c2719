//! Colors, shapes and pieces.

use std::collections::HashMap;
use vstd::prelude::*;
use crate::board::{distinct, empty_board, target, Board, BoardView};
use crate::coord::{board_cells, lemma_slot_unique, AbsYRG, Coords, RelYRG};
use crate::text::{join, joined, texts};

verus! {

broadcast use vstd::std_specs::hash::group_hash_axioms;

/// The color of a board cell.
#[derive(Debug, Copy, Clone, PartialEq, Eq, Structural)]
pub enum Colors {
    Red,
    Yellow,
    Orange,
    Black,
    White,
    /// A cell of the board that no piece covers yet.
    Empty,
    /// A slot of the backing array outside the board.
    Invalid,
}

impl Colors {
    /// The one-character code of the color.
    pub open spec fn code(self) -> char {
        match self {
            Colors::Red => 'R',
            Colors::Yellow => 'Y',
            Colors::Orange => 'O',
            Colors::Black => 'B',
            Colors::White => 'W',
            Colors::Empty => 'e',
            Colors::Invalid => '.',
        }
    }

    pub fn to_char(&self) -> (c: char)
        ensures
            c == self.code(),
    {
        match self {
            Colors::Red => 'R',
            Colors::Yellow => 'Y',
            Colors::Orange => 'O',
            Colors::Black => 'B',
            Colors::White => 'W',
            Colors::Empty => 'e',
            Colors::Invalid => '.',
        }
    }

    pub fn to_string(&self) -> (s: String)
        ensures
            s@ == seq![self.code()],
    {
        let mut s = String::new();
        s.push(self.to_char());
        s
    }
}

/// One piece at one rotation: its cells, relative to its first cell once
/// recentered, with the offsets at which it fits the empty board and the
/// cells around it.
#[derive(Debug, Clone, PartialEq, Eq)]
pub struct Shape {
    pub cells: Vec<RelYRG>,
    /// The offsets at which the shape can be placed on the empty board.
    pub positions: Vec<AbsYRG>,
    /// The cells that share an edge with a cell of the shape and are not
    /// cells of the shape, once they are computed, with the positions.
    /// [`Board::place_prepared`] looks for gaps among them.
    pub adjacents: Vec<RelYRG>,
}

/// A shape as the contracts see it.
pub struct ShapeView {
    pub cells: Seq<RelYRG>,
    pub positions: Seq<AbsYRG>,
    pub adjacents: Seq<RelYRG>,
}

impl View for Shape {
    type V = ShapeView;

    open spec fn view(&self) -> ShapeView {
        ShapeView { cells: self.cells@, positions: self.positions@, adjacents: self.adjacents@ }
    }
}

/// The cells moved so that the first of them has `y == 0` and `r == 0`.
pub open spec fn recentered(cells: Seq<RelYRG>) -> Seq<RelYRG> {
    Seq::new(
        cells.len(),
        |i: int|
            RelYRG {
                y: (cells[i].y - cells[0].y) as i8,
                r: (cells[i].r - cells[0].r) as i8,
                g: cells[i].g,
            },
    )
}

/// The image of each cell under the 60-degree rotation of the board.
pub open spec fn turned(cells: Seq<RelYRG>) -> Seq<RelYRG> {
    Seq::new(cells.len(), |i: int| cells[i].rotated())
}

/// The cells after `k` rotations by 60 degrees.
pub open spec fn turned_by(cells: Seq<RelYRG>, k: nat) -> Seq<RelYRG>
    decreases k,
{
    if k == 0 {
        cells
    } else {
        turned(turned_by(cells, (k - 1) as nat))
    }
}

/// Rotations keep the number of cells.
pub proof fn lemma_turned_by_len(cells: Seq<RelYRG>, k: nat)
    ensures
        turned_by(cells, k).len() == cells.len(),
    decreases k,
{
    if k > 0 {
        lemma_turned_by_len(cells, (k - 1) as nat);
    }
}

/// The rotation takes different cells of the board to different cells of
/// the board.
pub proof fn lemma_turned_distinct(cells: Seq<RelYRG>)
    requires
        all_on_board(cells),
        distinct(cells),
    ensures
        all_on_board(turned(cells)),
        distinct(turned(cells)),
        turned(cells).len() == cells.len(),
{
    assert forall|i: int| 0 <= i < turned(cells).len() implies (#[trigger] turned(
        cells,
    )[i]).on_board() by {
        assert(cells[i].on_board());
    }
    assert forall|i: int, j: int| 0 <= i < j < turned(cells).len() implies turned(cells)[i]
        != turned(cells)[j] by {
        assert(cells[i].on_board() && cells[j].on_board());
        assert(cells[i] != cells[j]);
    }
}

/// Rotations take different cells of the board to different cells of the
/// board.
pub proof fn lemma_turned_by_distinct(cells: Seq<RelYRG>, k: nat)
    requires
        all_on_board(cells),
        distinct(cells),
    ensures
        all_on_board(turned_by(cells, k)),
        distinct(turned_by(cells, k)),
        turned_by(cells, k).len() == cells.len(),
    decreases k,
{
    if k > 0 {
        lemma_turned_by_distinct(cells, (k - 1) as nat);
        lemma_turned_distinct(turned_by(cells, (k - 1) as nat));
    }
}

/// Recentering keeps different cells of the board different.
pub proof fn lemma_recentered_distinct(cells: Seq<RelYRG>)
    requires
        cells.len() > 0,
        all_on_board(cells),
        distinct(cells),
    ensures
        distinct(recentered(cells)),
        recentered(cells).len() == cells.len(),
{
    assert(cells[0].on_board());
    assert forall|i: int, j: int| 0 <= i < j < recentered(cells).len() implies recentered(
        cells,
    )[i] != recentered(cells)[j] by {
        assert(cells[i].on_board() && cells[j].on_board());
        assert(cells[i] != cells[j]);
    }
}

/// Every cell is a cell of the board, relative to its center.
pub open spec fn all_on_board(cells: Seq<RelYRG>) -> bool {
    forall|i: int| 0 <= i < cells.len() ==> (#[trigger] cells[i]).on_board()
}

/// The cells are proper cells whose neighbours have coordinates too.
pub open spec fn traceable(cells: Seq<RelYRG>) -> bool {
    forall|i: int|
        0 <= i < cells.len() ==> {
            &&& 0 <= (#[trigger] cells[i]).g <= 1
            &&& i8::MIN < cells[i].y < i8::MAX
            &&& i8::MIN < cells[i].r < i8::MAX
        }
}

/// The neighbour of a cell on side `d`: left, right, or across the
/// horizontal edge.
pub open spec fn beside(c: RelYRG, d: int) -> RelYRG {
    if d == 0 {
        RelYRG { y: c.y, r: (c.r - 1 + c.g) as i8, g: (1 - c.g) as i8 }
    } else if d == 1 {
        RelYRG { y: c.y, r: (c.r + c.g) as i8, g: (1 - c.g) as i8 }
    } else if c.g == 1 {
        RelYRG { y: (c.y - 1) as i8, r: c.r, g: 0 }
    } else {
        RelYRG { y: (c.y + 1) as i8, r: c.r, g: 1 }
    }
}

/// The cells around the shape found among the first `k` neighbours, taking
/// the three neighbours of each cell in turn: those that are no cells of
/// the shape, each once, in the order in which they are met.
pub open spec fn around(cells: Seq<RelYRG>, k: nat) -> Seq<RelYRG>
    decreases k,
{
    if k == 0 {
        Seq::empty()
    } else {
        let found = around(cells, (k - 1) as nat);
        let c = beside(cells[(k - 1) / 3], (k - 1) % 3);
        if cells.contains(c) || found.contains(c) {
            found
        } else {
            found.push(c)
        }
    }
}

/// The cells that share an edge with a cell of the shape and are not cells
/// of the shape.
pub open spec fn boundary(cells: Seq<RelYRG>) -> Seq<RelYRG> {
    around(cells, 3 * cells.len())
}

/// The cells found around a shape stay when more neighbours are looked at.
pub proof fn lemma_around_grows(cells: Seq<RelYRG>, k: nat, m: nat, c: RelYRG)
    requires
        k <= m,
        around(cells, k).contains(c),
    ensures
        around(cells, m).contains(c),
    decreases m,
{
    if k < m {
        lemma_around_grows(cells, k, (m - 1) as nat, c);
        let found = around(cells, (m - 1) as nat);
        let i = choose|i: int| 0 <= i < found.len() && found[i] == c;
        if around(cells, m) != found {
            assert(around(cells, m)[i] == c);
        }
    }
}

/// Every neighbour of a cell of a shape is a cell of the shape or one of
/// the cells around it.
pub proof fn lemma_boundary_complete(cells: Seq<RelYRG>, i: int, d: int)
    requires
        0 <= i < cells.len(),
        0 <= d < 3,
    ensures
        cells.contains(beside(cells[i], d)) || boundary(cells).contains(beside(cells[i], d)),
{
    let k = (3 * i + d + 1) as nat;
    let c = beside(cells[i], d);
    let found = around(cells, (k - 1) as nat);
    if !cells.contains(c) {
        if found.contains(c) {
            lemma_around_grows(cells, (k - 1) as nat, k, c);
        } else {
            assert(around(cells, k)[found.len() as int] == c);
        }
        lemma_around_grows(cells, k, 3 * cells.len(), c);
    }
}

/// Every cell found around a shape is a neighbour of one of its cells and
/// no cell of the shape.
pub proof fn lemma_around_sound(cells: Seq<RelYRG>, k: nat, c: RelYRG)
    requires
        k <= 3 * cells.len(),
        around(cells, k).contains(c),
    ensures
        !cells.contains(c),
        exists|i: int, d: int|
            0 <= i < cells.len() && 0 <= d < 3 && c == #[trigger] beside(cells[i], d),
    decreases k,
{
    if k > 0 {
        let found = around(cells, (k - 1) as nat);
        let i = (k - 1) / 3;
        let d = (k - 1) % 3;
        let n = beside(cells[i], d);
        if found.contains(c) {
            lemma_around_sound(cells, (k - 1) as nat, c);
        } else {
            let j = choose|j: int| 0 <= j < around(cells, k).len() && around(cells, k)[j] == c;
            assert(around(cells, k) == found.push(n));
            if j < found.len() {
                assert(found[j] == c);
            }
            assert(c == n);
            assert(0 <= i < cells.len() && 0 <= d < 3 && c == beside(cells[i], d));
        }
    }
}

/// For a shape that lies on the board, a gap beside the shape is a gap
/// among the cells around it, and the other way round.
pub proof fn lemma_gap_by_boundary(b: BoardView, cells: Seq<RelYRG>, offset: AbsYRG)
    requires
        traceable(cells),
        forall|i: int| 0 <= i < cells.len() ==> (#[trigger] target(cells[i], offset)).on_board(),
    ensures
        b.has_gap(cells, offset) <==> b.has_gap_among(boundary(cells), offset),
{
    let around = boundary(cells);
    if b.has_gap(cells, offset) {
        let (i, d) = choose|i: int, d: int|
            0 <= i < cells.len() && 0 <= d < 3 && b.gap_at(
                cells,
                offset,
                #[trigger] target(cells[i], offset).edge(d),
            );
        let n = target(cells[i], offset).edge(d);
        let c = beside(cells[i], d);
        assert(target(cells[i], offset).on_board());
        assert(target(c, offset) == n);
        if cells.contains(c) {
            let w = choose|w: int| 0 <= w < cells.len() && cells[w] == c;
            assert(target(cells[w], offset).slot() == n.slot());
        }
        lemma_boundary_complete(cells, i, d);
        let j = choose|j: int| 0 <= j < around.len() && around[j] == c;
        assert(b.free(target(around[j], offset)) && b.surrounded(target(around[j], offset)));
    }
    if b.has_gap_among(around, offset) {
        let j = choose|j: int|
            0 <= j < around.len() && b.free(#[trigger] target(around[j], offset))
                && b.surrounded(target(around[j], offset));
        let c = around[j];
        lemma_around_sound(cells, 3 * cells.len(), c);
        let (i, d) = choose|i: int, d: int|
            0 <= i < cells.len() && 0 <= d < 3 && c == #[trigger] beside(cells[i], d);
        let n = target(cells[i], offset).edge(d);
        assert(target(cells[i], offset).on_board());
        assert(target(c, offset) == n);
        if BoardView::covers(cells, offset, cells.len() as int, n.slot()) {
            let w = choose|w: int|
                0 <= w < cells.len() && #[trigger] target(cells[w], offset).slot() == n.slot();
            assert(target(cells[w], offset).on_board());
            lemma_slot_unique(target(cells[w], offset), n);
            assert(cells[w]@ == c@);
            assert(cells[w] == c);
        }
        assert(b.gap_at(cells, offset, target(cells[i], offset).edge(d)));
    }
}

/// Those of the offsets, in order, at which the shape can be placed on the
/// empty board.
pub open spec fn legal(offsets: Seq<AbsYRG>, cells: Seq<RelYRG>) -> Seq<AbsYRG>
    decreases offsets.len(),
{
    if offsets.len() == 0 {
        Seq::empty()
    } else if empty_board(0).placed(cells, Colors::Black, offsets.last()) is Some {
        legal(offsets.drop_last(), cells).push(offsets.last())
    } else {
        legal(offsets.drop_last(), cells)
    }
}

/// An offset is among the legal ones exactly when it is one of the offsets
/// and the shape can be placed there on the empty board.
pub proof fn lemma_legal(offsets: Seq<AbsYRG>, cells: Seq<RelYRG>, offset: AbsYRG)
    ensures
        legal(offsets, cells).contains(offset) <==> offsets.contains(offset)
            && empty_board(0).placed(cells, Colors::Black, offset) is Some,
    decreases offsets.len(),
{
    if offsets.len() > 0 {
        let rest = offsets.drop_last();
        let last = offsets.last();
        let found = legal(rest, cells);
        lemma_legal(rest, cells, offset);
        if offsets.contains(offset) {
            let i = choose|i: int| 0 <= i < offsets.len() && offsets[i] == offset;
            if i < rest.len() {
                assert(rest[i] == offset);
            }
        }
        if rest.contains(offset) {
            let i = choose|i: int| 0 <= i < rest.len() && rest[i] == offset;
            assert(offsets[i] == offset);
        }
        if empty_board(0).placed(cells, Colors::Black, last) is Some {
            assert(found.push(last)[found.len() as int] == last);
            if found.contains(offset) {
                let i = choose|i: int| 0 <= i < found.len() && found[i] == offset;
                assert(found.push(last)[i] == offset);
            }
            if found.push(last).contains(offset) {
                let i = choose|i: int|
                    0 <= i < found.push(last).len() && found.push(last)[i] == offset;
                if i < found.len() {
                    assert(found[i] == offset);
                }
            }
        }
        assert(offsets[offsets.len() - 1] == last);
    }
}

/// The shape with the given cells, with the cells around it and the cells
/// of the board, in order, on which it can be placed on the empty board.
pub open spec fn prepared(cells: Seq<RelYRG>) -> ShapeView {
    ShapeView {
        cells,
        positions: legal(board_cells(), cells),
        adjacents: boundary(cells),
    }
}

/// The texts of the cells.
pub open spec fn cell_texts(cells: Seq<RelYRG>) -> Seq<Seq<char>> {
    Seq::new(cells.len(), |i: int| cells[i].text())
}

fn has_cell(list: &Vec<RelYRG>, c: &RelYRG) -> (b: bool)
    ensures
        b == list@.contains(*c),
{
    let mut i: usize = 0;
    while i < list.len()
        invariant
            i <= list@.len(),
            forall|j: int| 0 <= j < i ==> list@[j] != *c,
        decreases list@.len() - i,
    {
        if list[i] == *c {
            return true;
        }
        i += 1;
    }
    false
}

fn copy_cells(cells: &Vec<RelYRG>) -> (copy: Vec<RelYRG>)
    ensures
        copy@ == cells@,
{
    let mut copy: Vec<RelYRG> = Vec::new();
    let mut i: usize = 0;
    while i < cells.len()
        invariant
            i <= cells@.len(),
            copy@ == cells@.take(i as int),
        decreases cells@.len() - i,
    {
        copy.push(cells[i]);
        i += 1;
    }
    copy
}

/// The neighbour of a cell on side `d`.
fn neighbour(c: &RelYRG, d: u8) -> (n: RelYRG)
    requires
        0 <= c.g <= 1,
        i8::MIN < c.y < i8::MAX,
        i8::MIN < c.r < i8::MAX,
    ensures
        n == beside(*c, d as int),
{
    if d == 0 {
        RelYRG { y: c.y, r: c.r - 1 + c.g, g: 1 - c.g }
    } else if d == 1 {
        RelYRG { y: c.y, r: c.r + c.g, g: 1 - c.g }
    } else if c.g == 1 {
        RelYRG { y: c.y - 1, r: c.r, g: 0 }
    } else {
        RelYRG { y: c.y + 1, r: c.r, g: 1 }
    }
}

impl Shape {
    pub fn new(cells: Vec<RelYRG>) -> (shape: Shape)
        ensures
            shape@.cells == cells@,
            shape@.positions.len() == 0,
            shape@.adjacents.len() == 0,
    {
        Shape { cells, positions: Vec::new(), adjacents: Vec::new() }
    }

    /// The same shape.
    pub fn copy(&self) -> (shape: Shape)
        ensures
            shape@ == self@,
    {
        let mut positions: Vec<AbsYRG> = Vec::new();
        let mut i: usize = 0;
        while i < self.positions.len()
            invariant
                i <= self.positions@.len(),
                positions@ == self.positions@.take(i as int),
            decreases self.positions@.len() - i,
        {
            positions.push(self.positions[i]);
            i += 1;
        }
        assert(self.positions@.take(self.positions@.len() as int) =~= self.positions@);
        Shape { cells: copy_cells(&self.cells), positions, adjacents: copy_cells(&self.adjacents) }
    }

    /// The shape moved so that its first cell has `y == 0` and `r == 0`.
    /// The half-cells are kept. Positions and surroundings are not computed.
    pub fn recenter(&self) -> (shape: Shape)
        requires
            self@.cells.len() > 0,
            forall|i: int|
                0 <= i < self@.cells.len() ==> {
                    &&& i8::MIN <= (#[trigger] self@.cells[i]).y - self@.cells[0].y <= i8::MAX
                    &&& i8::MIN <= self@.cells[i].r - self@.cells[0].r <= i8::MAX
                },
        ensures
            shape@.cells == recentered(self@.cells),
            shape@.positions.len() == 0,
            shape@.adjacents.len() == 0,
    {
        let y_offset = self.cells[0].y;
        let r_offset = self.cells[0].r;
        let mut new_cells: Vec<RelYRG> = Vec::new();
        let mut i: usize = 0;
        while i < self.cells.len()
            invariant
                i <= self.cells@.len(),
                self@.cells.len() > 0,
                y_offset == self.cells@[0].y,
                r_offset == self.cells@[0].r,
                forall|j: int|
                    0 <= j < self@.cells.len() ==> {
                        &&& i8::MIN <= (#[trigger] self@.cells[j]).y - self@.cells[0].y <= i8::MAX
                        &&& i8::MIN <= self@.cells[j].r - self@.cells[0].r <= i8::MAX
                    },
                new_cells@ == recentered(self@.cells).take(i as int),
            decreases self.cells@.len() - i,
        {
            let src = self.cells[i];
            let dst = RelYRG { y: src.y - y_offset, r: src.r - r_offset, g: src.g };
            new_cells.push(dst);
            i += 1;
        }
        Shape::new(new_cells)
    }

    /// The shape rotated by 60 degrees with the board. Positions and
    /// surroundings are not computed.
    pub fn rotate_60_ccw(&self, coords: &Coords) -> (shape: Shape)
        requires
            coords.wf(),
            all_on_board(self@.cells),
        ensures
            shape@.cells == turned(self@.cells),
            all_on_board(shape@.cells),
            shape@.positions.len() == 0,
            shape@.adjacents.len() == 0,
    {
        let mut rot_cells: Vec<RelYRG> = Vec::new();
        let mut i: usize = 0;
        while i < self.cells.len()
            invariant
                i <= self.cells@.len(),
                coords.wf(),
                all_on_board(self@.cells),
                rot_cells@ == turned(self@.cells).take(i as int),
                all_on_board(rot_cells@),
            decreases self.cells@.len() - i,
        {
            let dst = coords.rot_60_ccw_yrg(&self.cells[i]);
            rot_cells.push(dst);
            i += 1;
        }
        Shape::new(rot_cells)
    }

    /// The cells as text, with commas between them.
    pub fn to_string(&self) -> (s: String)
        ensures
            s@ == joined(cell_texts(self@.cells), seq![',']),
    {
        let mut parts: Vec<String> = Vec::new();
        let mut i: usize = 0;
        while i < self.cells.len()
            invariant
                i <= self.cells@.len(),
                texts(parts@) == cell_texts(self@.cells).take(i as int),
            decreases self.cells@.len() - i,
        {
            let ghost before = parts@;
            parts.push(self.cells[i].to_string());
            assert(texts(parts@) =~= texts(before).push(self@.cells[i as int].text()));
            i += 1;
        }
        proof {
            assert(cell_texts(self@.cells).take(self@.cells.len() as int) =~= cell_texts(
                self@.cells,
            ));
            reveal_strlit(",");
            assert(","@ =~= seq![',']);
        }
        join(&parts, ",")
    }

    /// The cells around the shape.
    fn surroundings(&self) -> (adjacents: Vec<RelYRG>)
        requires
            traceable(self@.cells),
        ensures
            adjacents@ == boundary(self@.cells),
    {
        let mut adjacents: Vec<RelYRG> = Vec::new();
        let mut i: usize = 0;
        while i < self.cells.len()
            invariant
                i <= self.cells@.len(),
                traceable(self@.cells),
                adjacents@ == around(self@.cells, (3 * i) as nat),
            decreases self.cells@.len() - i,
        {
            let mut d: u8 = 0;
            while d < 3
                invariant
                    d <= 3,
                    i < self.cells@.len(),
                    traceable(self@.cells),
                    adjacents@ == around(self@.cells, (3 * i + d) as nat),
                decreases 3 - d,
            {
                let c = neighbour(&self.cells[i], d);
                if !has_cell(&self.cells, &c) && !has_cell(&adjacents, &c) {
                    adjacents.push(c);
                }
                d += 1;
            }
            i += 1;
        }
        adjacents
    }

    /// The shape with the cells around it and with the offsets, among the
    /// cells of the board in order, at which it can be placed on the empty
    /// board.
    pub fn precompute_positions(&self, coords: &Coords) -> (shape: Shape)
        requires
            coords.wf(),
            self@.cells.len() > 0,
            traceable(self@.cells),
        ensures
            shape@ == prepared(self@.cells),
    {
        proof {
            coords.lemma_cells();
        }
        let adjacents = self.surroundings();
        let mut shape = Shape { cells: copy_cells(&self.cells), positions: Vec::new(), adjacents };
        let board = Board::new(0, coords);
        let mut positions: Vec<AbsYRG> = Vec::new();
        let mut i: usize = 0;
        while i < coords.valid_yrg.len()
            invariant
                i <= coords.valid_yrg@.len(),
                shape@.cells == self@.cells,
                shape@.cells.len() > 0,
                traceable(shape@.cells),
                shape@.adjacents == boundary(shape@.cells),
                board@ == empty_board(0),
                positions@ == legal(coords.valid_yrg@.take(i as int), self@.cells),
            decreases coords.valid_yrg@.len() - i,
        {
            let yrg = coords.valid_yrg[i];
            assert(coords.valid_yrg@.take(i + 1).drop_last() =~= coords.valid_yrg@.take(i as int));
            assert(coords.valid_yrg@.take(i + 1).last() == yrg);
            let result = board.place_prepared(&shape, Colors::Black, &yrg);
            match result {
                None => {},
                Some(_) => {
                    positions.push(yrg);
                },
            }
            i += 1;
        }
        assert(coords.valid_yrg@.take(coords.valid_yrg@.len() as int) =~= coords.valid_yrg@);
        shape.positions = positions;
        shape
    }
}

/// The name of a piece: two characters.
pub type PieceKey = [char; 2];

/// A piece: its name, its color, the largest angle by which it is rotated,
/// and its shape at each angle.
#[derive(Debug, Clone, PartialEq, Eq)]
pub struct Piece {
    pub key: PieceKey,
    pub color: Colors,
    pub max_rot: i32,
    pub shapes: HashMap<i32, Shape>,
}

/// Whether the shapes hold, at `angle`, the prepared shape of the cells
/// `base` rotated by that angle and recentered.
pub open spec fn shape_at(shapes: Map<i32, Shape>, base: Seq<RelYRG>, angle: i32) -> bool {
    &&& shapes.contains_key(angle)
    &&& shapes[angle]@ == prepared(recentered(turned_by(base, (angle / 60) as nat)))
}

/// Whether a piece with the given largest angle has a shape at `angle`: at
/// 0, and at every multiple of 60 up to the largest angle.
pub open spec fn is_step(angle: int, max_rot: int) -> bool {
    angle == 0 || (60 <= angle <= max_rot && angle % 60 == 0)
}

/// The cells can be recentered, and the recentered cells are proper cells
/// whose neighbours have coordinates too.
pub open spec fn preparable(cells: Seq<RelYRG>) -> bool {
    &&& forall|i: int|
        0 <= i < cells.len() ==> {
            &&& i8::MIN <= (#[trigger] cells[i]).y - cells[0].y <= i8::MAX
            &&& i8::MIN <= cells[i].r - cells[0].r <= i8::MAX
        }
    &&& traceable(recentered(cells))
}

/// Cells of the board, relative to its center, can be recentered, and the
/// recentered cells have neighbours with coordinates.
pub proof fn lemma_on_board_recenters(cells: Seq<RelYRG>)
    requires
        cells.len() > 0,
        all_on_board(cells),
    ensures
        preparable(cells),
        forall|i: int|
            0 <= i < cells.len() ==> {
                &&& i8::MIN <= (#[trigger] cells[i]).y - cells[0].y <= i8::MAX
                &&& i8::MIN <= cells[i].r - cells[0].r <= i8::MAX
            },
        traceable(recentered(cells)),
        recentered(cells).len() == cells.len(),
{
    assert(cells[0].on_board());
    assert forall|i: int| 0 <= i < cells.len() implies {
        &&& -5 <= (#[trigger] cells[i]).y - cells[0].y <= 5
        &&& -5 <= cells[i].r - cells[0].r <= 5
        &&& 0 <= cells[i].g <= 1
    } by {
        assert(cells[i].on_board());
    }
    assert forall|i: int| 0 <= i < recentered(cells).len() implies {
        &&& 0 <= (#[trigger] recentered(cells)[i]).g <= 1
        &&& i8::MIN < recentered(cells)[i].y < i8::MAX
        &&& i8::MIN < recentered(cells)[i].r < i8::MAX
    } by {
        assert(-5 <= cells[i].y - cells[0].y <= 5);
    }
}

impl Piece {
    /// The key made of the first two characters of the name.
    pub fn to_key(name: &str) -> (key: PieceKey)
        requires
            name@.len() >= 2,
        ensures
            key@ == seq![name@[0], name@[1]],
    {
        let key = [name.get_char(0), name.get_char(1)];
        key
    }

    /// A piece that has, so far, only its cells at angle 0.
    pub fn new(key: PieceKey, color: Colors, max_rot: i32, cells: Vec<RelYRG>) -> (piece: Piece)
        ensures
            piece.key == key,
            piece.color == color,
            piece.max_rot == max_rot,
            piece.shapes@.dom() == set![0i32],
            piece.shapes@[0]@.cells == cells@,
            piece.shapes@[0]@.positions.len() == 0,
            piece.shapes@[0]@.adjacents.len() == 0,
    {
        let mut map: HashMap<i32, Shape> = HashMap::new();
        map.insert(0, Shape::new(cells));
        Piece { key, color, max_rot, shapes: map }
    }

    /// The piece has a prepared shape at every angle that it takes, each
    /// the recentered rotation of the cells `base`.
    pub open spec fn ready(&self, base: Seq<RelYRG>) -> bool {
        forall|a: i32|
            is_step(a as int, self.max_rot as int) ==> #[trigger] shape_at(self.shapes@, base, a)
    }

    /// Replaces the shape at angle 0 by its recentered form, adds the
    /// recentered rotations at each multiple of 60 up to `max_rot`, and
    /// prepares each of these shapes for placement. A piece that is rotated
    /// has to be drawn on the board; one that is not only has to be such
    /// that it can be recentered.
    pub fn precompute_shapes(&mut self, coords: &Coords)
        requires
            coords.wf(),
            old(self).shapes@.contains_key(0),
            old(self).shapes@[0]@.cells.len() > 0,
            old(self).max_rot >= 60 ==> all_on_board(old(self).shapes@[0]@.cells),
            old(self).max_rot < 60 ==> preparable(old(self).shapes@[0]@.cells),
        ensures
            final(self).key == old(self).key,
            final(self).color == old(self).color,
            final(self).max_rot == old(self).max_rot,
            final(self).ready(old(self).shapes@[0]@.cells),
            forall|a: i32|
                #[trigger] final(self).shapes@.contains_key(a) <==> old(self).shapes@.contains_key(
                    a,
                ) || is_step(a as int, old(self).max_rot as int),
            forall|a: i32|
                old(self).shapes@.contains_key(a) && !is_step(a as int, old(self).max_rot as int)
                    ==> #[trigger] final(self).shapes@[a] == old(self).shapes@[a],
    {
        let max_rot = self.max_rot;
        add_rotations(&mut self.shapes, max_rot, coords);
    }

    /// The shape of the piece at the given angle.
    pub fn shape(&self, angle: i32) -> (shape: &Shape)
        requires
            self.shapes@.contains_key(angle),
        ensures
            *shape == self.shapes@[angle],
    {
        self.shapes.get(&angle).unwrap()
    }
}

/// Replaces the shape at angle 0 by its recentered form, adds the recentered
/// rotations at each multiple of 60 up to `max_rot`, and prepares each of
/// these shapes for placement.
fn add_rotations(shapes: &mut HashMap<i32, Shape>, max_rot: i32, coords: &Coords)
    requires
        coords.wf(),
        old(shapes)@.contains_key(0),
        old(shapes)@[0]@.cells.len() > 0,
        max_rot >= 60 ==> all_on_board(old(shapes)@[0]@.cells),
        max_rot < 60 ==> preparable(old(shapes)@[0]@.cells),
    ensures
        forall|a: i32|
            is_step(a as int, max_rot as int) ==> #[trigger] shape_at(
                final(shapes)@,
                old(shapes)@[0]@.cells,
                a,
            ),
        forall|a: i32|
            #[trigger] final(shapes)@.contains_key(a) <==> old(shapes)@.contains_key(a) || is_step(
                a as int,
                max_rot as int,
            ),
        forall|a: i32|
            old(shapes)@.contains_key(a) && !is_step(a as int, max_rot as int)
                ==> #[trigger] final(shapes)@[a] == old(shapes)@[a],
{
    let ghost base = shapes@[0]@.cells;
    let ghost before = shapes@;
    let mut shape = shapes.get(&0).unwrap().copy();
    proof {
        if max_rot >= 60 {
            lemma_on_board_recenters(base);
        }
    }
    let first = shape.recenter().precompute_positions(coords);
    shapes.insert(0, first);
    let mut angle: i32 = 0;
    let ghost mut k: nat = 0;
    proof {
        assert(shape_at(shapes@, base, 0));
    }
    while max_rot >= 60 && angle <= max_rot - 60
        invariant
            coords.wf(),
            before == old(shapes)@,
            base == before[0]@.cells,
            base.len() > 0,
            shape@.cells.len() == base.len(),
            angle == 60 * k,
            0 <= angle,
            angle == 0 || angle <= max_rot,
            shape@.cells == turned_by(base, k),
            max_rot >= 60 ==> all_on_board(shape@.cells),
            forall|a: i32|
                0 <= a <= angle && a % 60 == 0 ==> #[trigger] shape_at(shapes@, base, a),
            forall|a: i32|
                #[trigger] shapes@.contains_key(a) <==> before.contains_key(a) || (0 <= a <= angle
                    && a % 60 == 0),
            forall|a: i32|
                before.contains_key(a) && !(0 <= a <= angle && a % 60 == 0)
                    ==> #[trigger] shapes@[a] == before[a],
        decreases max_rot - angle,
    {
        angle += 60;
        let new_shape = shape.rotate_60_ccw(coords);
        proof {
            lemma_on_board_recenters(new_shape@.cells);
            k = k + 1;
            assert(new_shape@.cells == turned_by(base, k));
            assert(angle / 60 == k);
        }
        let ready = new_shape.recenter().precompute_positions(coords);
        let ghost held = shapes@;
        shapes.insert(angle, ready);
        shape = new_shape;
        proof {
            assert forall|a: i32| 0 <= a <= angle && a % 60 == 0 implies #[trigger] shape_at(
                shapes@,
                base,
                a,
            ) by {
                if a != angle {
                    assert(a <= angle - 60);
                    assert(shape_at(held, base, a));
                    assert(shapes@[a] == held[a]);
                } else {
                    assert(shapes@[a] == ready);
                    assert(a / 60 == k);
                }
            }
        }
    }
    proof {
        assert forall|a: i32| is_step(a as int, max_rot as int) implies 0 <= a <= angle && a % 60
            == 0 by {
            if a != 0 {
                let q = a as int / 60;
                assert(a == 60 * q);
                if q > k {
                    assert(a >= 60 * k + 60);
                }
            }
        }
        assert forall|a: i32| is_step(a as int, max_rot as int) implies #[trigger] shape_at(
            shapes@,
            base,
            a,
        ) by {
            assert(0 <= a <= angle && a % 60 == 0);
        }
    }
}

} // verus!
