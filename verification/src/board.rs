//! The board: one color for each slot of the backing array, with the
//! placement of a shape and the rule that refuses unfillable gaps.

use vstd::prelude::*;
use crate::coord::{
    cells_below, is_on_board, lemma_at_slot, lemma_cells_below_step, lemma_number_unique,
    lemma_slot_unique, slot_of, AbsYRG, Cell, Coords, RelYRG, N2, NUM_CELLS,
};
use crate::piece::{boundary, lemma_gap_by_boundary, traceable, Colors, Shape};
use crate::text::{join, joined, regex_accepts, regex_replaced, replace_all, texts};

verus! {

/// Number of slots of the backing array.
pub const BOARD_SIZE: usize = 72;

/// A board: the color of every slot, and the index of the permutation
/// sequence that it belongs to.
#[derive(Copy, Clone, PartialEq, Eq, Debug)]
pub struct Board {
    colors: [Colors; BOARD_SIZE],
    pub perm_index: i32,
}

/// A board as the contracts see it.
pub struct BoardView {
    pub colors: Seq<Colors>,
    pub perm_index: i32,
}

/// The absolute cell that a cell of a shape covers with the shape at `offset`.
pub open spec fn target(cell: RelYRG, offset: AbsYRG) -> Cell {
    cell@.shifted(offset.y as int, offset.r as int)
}

impl BoardView {
    /// The coordinates are those of a cell of the hexagon, and the slot of
    /// the cell does not hold `Invalid`. Coordinates outside the hexagon
    /// are never valid, whatever slot they would fall on.
    pub open spec fn valid(self, c: Cell) -> bool {
        c.on_board() && self.colors[c.slot()] != Colors::Invalid
    }

    /// The cell is valid and a piece covers it.
    pub open spec fn occupied(self, c: Cell) -> bool {
        self.valid(c) && self.colors[c.slot()] != Colors::Empty
    }

    /// The cell is valid and no piece covers it.
    pub open spec fn free(self, c: Cell) -> bool {
        self.valid(c) && !self.occupied(c)
    }

    /// Every slot outside the board holds `Invalid`, and no other slot does.
    pub open spec fn wf(self) -> bool {
        &&& self.colors.len() == BOARD_SIZE
        &&& forall|s: int|
            0 <= s < BOARD_SIZE ==> (#[trigger] self.colors[s] == Colors::Invalid
                <==> !Cell::at_slot(s).on_board())
    }

    /// None of the cells that share an edge with the absolute cell `c` is
    /// free: not the one on its left, not the one on its right, and not the
    /// one above, for a cell with `g == 1`, or below, for one with `g == 0`.
    pub open spec fn surrounded(self, c: Cell) -> bool {
        &&& !self.free(c.left())
        &&& !self.free(c.right())
        &&& c.g == 1 ==> !self.free(c.up())
        &&& c.g == 0 ==> !self.free(c.down())
    }

    /// Some cell among the first `n` of `cells`, moved by `offset`, has slot `s`.
    pub open spec fn covers(cells: Seq<RelYRG>, offset: AbsYRG, n: int, s: int) -> bool {
        exists|i: int| 0 <= i < n && #[trigger] target(cells[i], offset).slot() == s
    }

    /// The parity of the offset is that of the first cell, and every cell
    /// of the shape comes to lie on a free cell.
    pub open spec fn fits(self, cells: Seq<RelYRG>, offset: AbsYRG) -> bool {
        &&& cells.len() > 0
        &&& offset.g == cells[0].g
        &&& forall|i: int| 0 <= i < cells.len() ==> self.free(#[trigger] target(cells[i], offset))
    }

    /// The board with `color` on every slot that the cells cover.
    pub open spec fn painted(self, cells: Seq<RelYRG>, offset: AbsYRG, color: Colors) -> BoardView {
        BoardView {
            colors: Seq::new(
                self.colors.len(),
                |s: int|
                    if Self::covers(cells, offset, cells.len() as int, s) {
                        color
                    } else {
                        self.colors[s]
                    },
            ),
            perm_index: self.perm_index,
        }
    }

    /// The cell `n` is a gap beside the shape: it is free, no cell of the
    /// shape lies on it, and none of its neighbours is free.
    pub open spec fn gap_at(self, cells: Seq<RelYRG>, offset: AbsYRG, n: Cell) -> bool {
        &&& self.free(n)
        &&& !Self::covers(cells, offset, cells.len() as int, n.slot())
        &&& self.surrounded(n)
    }

    /// One of the cells that share an edge with a cell of the shape is a
    /// gap.
    pub open spec fn has_gap(self, cells: Seq<RelYRG>, offset: AbsYRG) -> bool {
        exists|i: int, d: int|
            0 <= i < cells.len() && 0 <= d < 3 && self.gap_at(
                cells,
                offset,
                #[trigger] target(cells[i], offset).edge(d),
            )
    }

    /// One of the given cells, at `offset`, is free and has no free
    /// neighbour.
    pub open spec fn has_gap_among(self, around: Seq<RelYRG>, offset: AbsYRG) -> bool {
        exists|j: int|
            0 <= j < around.len() && self.free(#[trigger] target(around[j], offset))
                && self.surrounded(target(around[j], offset))
    }

    /// The signature of the board: the codes of its cells, row by row.
    pub open spec fn signature(self) -> Seq<char> {
        codes(self.colors, true)
    }

    /// The codes of all slots after the replacement of every match of the
    /// pattern for dot runs by one dot.
    pub open spec fn rows(self) -> Seq<char> {
        regex_replaced(dot_runs(), codes(self.colors, false), seq!['.'])
    }

    /// The result of placing a shape with the given cells: the painted
    /// board, unless the shape does not fit or the painted board has a gap
    /// beside the shape.
    pub open spec fn placed(self, cells: Seq<RelYRG>, color: Colors, offset: AbsYRG) -> Option<
        BoardView,
    > {
        if self.fits(cells, offset) && !self.painted(cells, offset, color).has_gap(cells, offset) {
            Some(self.painted(cells, offset, color))
        } else {
            None
        }
    }
}

/// Each neighbour that is reported for a cell is that neighbour, if it is a
/// cell of the board, and else no cell of the board.
pub proof fn lemma_neighbours(c: Cell)
    ensures
        forall|k: int|
            0 <= k < 4 ==> {
                let n = (#[trigger] Coords::neighbours_of(c)[k])@.shifted(N2 as int, N2 as int);
                let m = if k == 0 {
                    c.left()
                } else if k == 1 {
                    c.right()
                } else if k == 2 {
                    c.up()
                } else {
                    c.down()
                };
                if m.on_board() && (k == 2 ==> c.g == 1) && (k == 3 ==> c.g == 0) {
                    n == m
                } else {
                    !n.on_board()
                }
            },
{
}

/// A placement changes no slot that the shape does not cover, and keeps the
/// permutation index.
pub proof fn lemma_placed_elsewhere(
    b: BoardView,
    cells: Seq<RelYRG>,
    color: Colors,
    offset: AbsYRG,
    s: int,
)
    requires
        b.placed(cells, color, offset) is Some,
        0 <= s < b.colors.len(),
        !BoardView::covers(cells, offset, cells.len() as int, s),
    ensures
        b.placed(cells, color, offset)->Some_0.colors[s] == b.colors[s],
        b.placed(cells, color, offset)->Some_0.perm_index == b.perm_index,
{
}

/// A placement paints exactly the cells of the shape, which were free.
pub proof fn lemma_placed_cells(
    b: BoardView,
    cells: Seq<RelYRG>,
    color: Colors,
    offset: AbsYRG,
    i: int,
)
    requires
        b.placed(cells, color, offset) is Some,
        0 <= i < cells.len(),
        b.colors.len() == BOARD_SIZE,
    ensures
        b.free(target(cells[i], offset)),
        b.placed(cells, color, offset)->Some_0.colors[target(cells[i], offset).slot()]
            == color,
{
}

/// An offset whose parity is not that of the first cell is refused, whatever
/// the board holds.
pub proof fn lemma_parity_mismatch(
    b: BoardView,
    cells: Seq<RelYRG>,
    color: Colors,
    offset: AbsYRG,
)
    requires
        cells.len() > 0,
        offset.g != cells[0].g,
    ensures
        b.placed(cells, color, offset) is None,
{
}

/// A shape that fits is refused all the same, in the color of a piece, if
/// it leaves a free cell without a free neighbour beside one of its cells:
/// a cell that shares an edge with a cell of the shape, that was free
/// before, on which no cell of the shape lies, and whose neighbours are
/// all covered, by the shape or before, or no cells of the board.
pub proof fn lemma_gap_refused(
    b: BoardView,
    cells: Seq<RelYRG>,
    color: Colors,
    offset: AbsYRG,
    i: int,
    d: int,
)
    requires
        b.colors.len() == BOARD_SIZE,
        b.fits(cells, offset),
        color != Colors::Empty,
        0 <= i < cells.len(),
        0 <= d < 3,
        b.painted(cells, offset, color).free(target(cells[i], offset).edge(d)),
        b.painted(cells, offset, color).surrounded(target(cells[i], offset).edge(d)),
    ensures
        b.placed(cells, color, offset) is None,
{
    let n = target(cells[i], offset).edge(d);
    let painted = b.painted(cells, offset, color);
    lemma_at_slot(n);
    assert(painted.gap_at(cells, offset, n));
}

/// The same with the free cell told from the board before the placement:
/// a cell that is free there, on which no cell of the shape comes to lie,
/// and of whose neighbours each is covered there or by the shape, or is
/// no cell of the board.
pub proof fn lemma_gap_refused_before(
    b: BoardView,
    cells: Seq<RelYRG>,
    color: Colors,
    offset: AbsYRG,
    i: int,
    d: int,
)
    requires
        b.colors.len() == BOARD_SIZE,
        b.fits(cells, offset),
        color != Colors::Empty,
        0 <= i < cells.len(),
        0 <= d < 3,
        b.free(target(cells[i], offset).edge(d)),
        !BoardView::covers(
            cells,
            offset,
            cells.len() as int,
            target(cells[i], offset).edge(d).slot(),
        ),
        forall|e: int|
            0 <= e < 3 ==> {
                let m = #[trigger] target(cells[i], offset).edge(d).edge(e);
                !b.free(m) || BoardView::covers(cells, offset, cells.len() as int, m.slot())
            },
    ensures
        b.placed(cells, color, offset) is None,
{
    let n = target(cells[i], offset).edge(d);
    let painted = b.painted(cells, offset, color);
    lemma_at_slot(n);
    assert(painted.free(n));
    assert forall|e: int| 0 <= e < 3 implies !painted.free(#[trigger] n.edge(e)) by {
        let m = n.edge(e);
        if m.on_board() {
            lemma_at_slot(m);
        }
    }
    assert(n.edge(0) == n.left() && n.edge(1) == n.right());
    assert(n.g == 1 ==> n.edge(2) == n.up());
    assert(n.g == 0 ==> n.edge(2) == n.down());
    assert(painted.surrounded(n));
    lemma_gap_refused(b, cells, color, offset, i, d);
}

/// A placement in a color other than `Invalid` keeps the cells of the board.
pub proof fn lemma_placed_wf(
    b: BoardView,
    cells: Seq<RelYRG>,
    color: Colors,
    offset: AbsYRG,
)
    requires
        b.wf(),
        color != Colors::Invalid,
        b.placed(cells, color, offset) is Some,
    ensures
        b.placed(cells, color, offset)->Some_0.wf(),
{
    let p = b.painted(cells, offset, color);
    assert forall|s: int| 0 <= s < BOARD_SIZE implies (#[trigger] p.colors[s] == Colors::Invalid
        <==> !Cell::at_slot(s).on_board()) by {
        if BoardView::covers(cells, offset, cells.len() as int, s) {
            let i = choose|i: int|
                0 <= i < cells.len() && #[trigger] target(cells[i], offset).slot() == s;
        }
    }
}

/// The number of slots that hold `Empty`.
pub open spec fn empties(colors: Seq<Colors>) -> nat
    decreases colors.len(),
{
    if colors.len() == 0 {
        0
    } else {
        empties(colors.drop_last()) + if colors.last() == Colors::Empty {
            1nat
        } else {
            0nat
        }
    }
}

/// No cell is free where no slot holds `Empty`.
pub proof fn lemma_no_empties(colors: Seq<Colors>, s: int)
    requires
        empties(colors) == 0,
        0 <= s < colors.len(),
    ensures
        colors[s] != Colors::Empty,
    decreases colors.len(),
{
    if s < colors.len() - 1 {
        lemma_no_empties(colors.drop_last(), s);
    }
}

/// A color of a piece on a slot that held `Empty` leaves one `Empty` less.
pub proof fn lemma_empties_update(colors: Seq<Colors>, s: int, color: Colors)
    requires
        0 <= s < colors.len(),
        colors[s] == Colors::Empty,
        color != Colors::Empty,
    ensures
        empties(colors.update(s, color)) + 1 == empties(colors),
    decreases colors.len(),
{
    if s == colors.len() - 1 {
        assert(colors.update(s, color).drop_last() =~= colors.drop_last());
    } else {
        lemma_empties_update(colors.drop_last(), s, color);
        assert(colors.update(s, color).drop_last() =~= colors.drop_last().update(s, color));
    }
}

/// No cell occurs twice among the cells.
pub open spec fn distinct(cells: Seq<RelYRG>) -> bool {
    forall|i: int, j: int| 0 <= i < j < cells.len() ==> cells[i] != cells[j]
}

/// The colors with `color` on every slot that the first `n` cells cover.
pub open spec fn painted_first(
    colors: Seq<Colors>,
    cells: Seq<RelYRG>,
    offset: AbsYRG,
    color: Colors,
    n: int,
) -> Seq<Colors> {
    Seq::new(
        colors.len(),
        |s: int|
            if BoardView::covers(cells, offset, n, s) {
                color
            } else {
                colors[s]
            },
    )
}

/// Painting the first `n` cells of a shape that fits, in a color of a
/// piece, takes `n` away from the slots that hold `Empty`, if no cell
/// occurs twice in the shape.
pub proof fn lemma_painted_first(
    b: BoardView,
    cells: Seq<RelYRG>,
    offset: AbsYRG,
    color: Colors,
    n: nat,
)
    requires
        b.colors.len() == BOARD_SIZE,
        b.fits(cells, offset),
        distinct(cells),
        color != Colors::Empty,
        n <= cells.len(),
    ensures
        empties(painted_first(b.colors, cells, offset, color, n as int)) + n == empties(b.colors),
    decreases n,
{
    if n == 0 {
        assert(painted_first(b.colors, cells, offset, color, 0) =~= b.colors);
    } else {
        lemma_painted_first(b, cells, offset, color, (n - 1) as nat);
        let prev = painted_first(b.colors, cells, offset, color, n - 1);
        let t = target(cells[n - 1], offset);
        let s = t.slot();
        assert(b.free(t));
        lemma_at_slot(t);
        if BoardView::covers(cells, offset, n - 1, s) {
            let i = choose|i: int|
                0 <= i < n - 1 && #[trigger] target(cells[i], offset).slot() == s;
            assert(b.free(target(cells[i], offset)));
            lemma_slot_unique(target(cells[i], offset), t);
            assert(cells[i]@ == cells[n - 1]@);
            assert(cells[i] == cells[n - 1]);
        }
        assert forall|x: int| 0 <= x < BOARD_SIZE implies painted_first(
            b.colors,
            cells,
            offset,
            color,
            n as int,
        )[x] == prev.update(s, color)[x] by {
            if BoardView::covers(cells, offset, n as int, x) {
                let w = choose|w: int|
                    0 <= w < n && #[trigger] target(cells[w], offset).slot() == x;
                assert(w < n - 1 || x == s);
            } else if BoardView::covers(cells, offset, n - 1, x) {
                let w = choose|w: int|
                    0 <= w < n - 1 && #[trigger] target(cells[w], offset).slot() == x;
                assert(0 <= w < n);
            }
        }
        assert(painted_first(b.colors, cells, offset, color, n as int) =~= prev.update(s, color));
        lemma_empties_update(prev, s, color);
    }
}

/// A placement, in a color of a piece, of a shape in which no cell occurs
/// twice takes as many slots from those that hold `Empty` as the shape has
/// cells.
pub proof fn lemma_placed_empties(
    b: BoardView,
    cells: Seq<RelYRG>,
    color: Colors,
    offset: AbsYRG,
)
    requires
        b.colors.len() == BOARD_SIZE,
        distinct(cells),
        color != Colors::Empty,
        b.placed(cells, color, offset) is Some,
    ensures
        empties(b.placed(cells, color, offset)->Some_0.colors) + cells.len() == empties(
            b.colors,
        ),
        b.placed(cells, color, offset)->Some_0.colors.len() == BOARD_SIZE,
{
    lemma_painted_first(b, cells, offset, color, cells.len());
    assert(b.painted(cells, offset, color).colors =~= painted_first(
        b.colors,
        cells,
        offset,
        color,
        cells.len() as int,
    ));
}

/// On the board without any piece, the first `n` slots hold `Empty` as
/// often as there are cells of the board among them.
pub proof fn lemma_empty_board_count(perm_index: i32, n: nat)
    requires
        n <= BOARD_SIZE,
    ensures
        empties(empty_board(perm_index).colors.take(n as int)) == cells_below(n as int),
    decreases n,
{
    let colors = empty_board(perm_index).colors;
    if n > 0 {
        lemma_empty_board_count(perm_index, (n - 1) as nat);
        lemma_cells_below_step(n - 1);
        assert(colors.take(n as int).drop_last() =~= colors.take(n - 1));
        assert(colors.take(n as int).last() == colors[n - 1]);
    }
}

/// The board without any piece has 54 slots that hold `Empty`.
pub proof fn lemma_empty_board_empties(perm_index: i32)
    ensures
        empties(empty_board(perm_index).colors) == NUM_CELLS,
        empty_board(perm_index).colors.len() == BOARD_SIZE,
{
    lemma_empty_board_count(perm_index, BOARD_SIZE as nat);
    assert(empty_board(perm_index).colors.take(BOARD_SIZE as int) =~= empty_board(
        perm_index,
    ).colors);
}

/// On a board with its cells in place, the first `n` slots give as many
/// codes of the signature as there are cells of the board among them.
pub proof fn lemma_codes_len(b: BoardView, n: nat)
    requires
        b.wf(),
        n <= BOARD_SIZE,
    ensures
        codes(b.colors.take(n as int), true).len() == cells_below(n as int),
    decreases n,
{
    if n > 0 {
        lemma_codes_len(b, (n - 1) as nat);
        lemma_cells_below_step(n - 1);
        assert(b.colors.take(n as int).drop_last() =~= b.colors.take(n - 1));
        assert(b.colors.take(n as int).last() == b.colors[n - 1]);
    }
}

/// The signature of a board with its cells in place has one code for each
/// of the 54 cells.
pub proof fn lemma_signature_len(b: BoardView)
    requires
        b.wf(),
    ensures
        b.signature().len() == NUM_CELLS,
{
    lemma_codes_len(b, BOARD_SIZE as nat);
    assert(b.colors.take(BOARD_SIZE as int) =~= b.colors);
}

/// The codes of the colors in order, without those of `Invalid` slots if
/// `skip_invalid` is set.
pub open spec fn codes(colors: Seq<Colors>, skip_invalid: bool) -> Seq<char>
    decreases colors.len(),
{
    if colors.len() == 0 {
        Seq::empty()
    } else if skip_invalid && colors.last() == Colors::Invalid {
        codes(colors.drop_last(), skip_invalid)
    } else {
        codes(colors.drop_last(), skip_invalid).push(colors.last().code())
    }
}

/// The pattern that matches a run of dots.
pub open spec fn dot_runs() -> Seq<char> {
    seq!['\\', '.', '+']
}

/// The board without any piece.
pub open spec fn empty_board(perm_index: i32) -> BoardView {
    BoardView {
        colors: Seq::new(
            BOARD_SIZE as nat,
            |s: int|
                if Cell::at_slot(s).on_board() {
                    Colors::Empty
                } else {
                    Colors::Invalid
                },
        ),
        perm_index,
    }
}

impl View for Board {
    type V = BoardView;

    closed spec fn view(&self) -> BoardView {
        BoardView { colors: self.colors@, perm_index: self.perm_index }
    }
}

impl Board {
    pub fn new(perm_index: i32, coords: &Coords) -> (board: Board)
        requires
            coords.wf(),
        ensures
            board@ == empty_board(perm_index),
            board@.wf(),
    {
        let mut board = Board { colors: [Colors::Invalid;BOARD_SIZE], perm_index };
        let mut i: usize = 0;
        proof {
            coords.lemma_cells();
        }
        while i < coords.valid_yrg.len()
            invariant
                i <= coords.valid_yrg@.len() == 54,
                board.perm_index == perm_index,
                forall|j: int|
                    0 <= j < 54 ==> (#[trigger] coords.valid_yrg@[j])@.on_board()
                        && coords.valid_yrg@[j]@.number() == j,
                forall|s: int|
                    0 <= s < BOARD_SIZE ==> #[trigger] board.colors@[s] == if Cell::at_slot(
                        s,
                    ).on_board() && Cell::at_slot(s).number() < i {
                        Colors::Empty
                    } else {
                        Colors::Invalid
                    },
            decreases 54 - i,
        {
            let yrg = coords.valid_yrg[i];
            proof {
                lemma_at_slot(yrg@);
            }
            board.set_color(&yrg, Colors::Empty);
            assert forall|s: int| 0 <= s < BOARD_SIZE implies #[trigger] board.colors@[s]
                == if Cell::at_slot(s).on_board() && Cell::at_slot(s).number() < i + 1 {
                Colors::Empty
            } else {
                Colors::Invalid
            } by {
                if Cell::at_slot(s).on_board() && Cell::at_slot(s).number() == i {
                    lemma_number_unique(Cell::at_slot(s), yrg@);
                }
            }
            i += 1;
        }
        assert(board@.colors =~= empty_board(perm_index).colors) by {
            assert forall|s: int| 0 <= s < BOARD_SIZE implies board.colors@[s] == empty_board(
                perm_index,
            ).colors[s] by {
                if Cell::at_slot(s).on_board() {
                    lemma_at_slot(Cell::at_slot(s));
                }
            }
        }
        board
    }

    /// The view of a board has one color for each slot of the array.
    pub proof fn lemma_slots(&self)
        ensures
            self@.colors.len() == BOARD_SIZE,
    {
    }

    /// The permutation index of the board.
    pub fn index(&self) -> (i: i32)
        ensures
            i == self@.perm_index,
            self@.colors.len() == BOARD_SIZE,
    {
        self.perm_index
    }

    fn valid_at(&self, y: i32, r: i32, g: i32) -> (b: bool)
        ensures
            b == self@.valid(Cell { y: y as int, r: r as int, g: g as int }),
    {
        if is_on_board(y, r, g) {
            let idx: i32 = 12 * y + 2 * r + g;
            self.colors[idx as usize] != Colors::Invalid
        } else {
            false
        }
    }

    fn occupied_at(&self, y: i32, r: i32, g: i32) -> (b: bool)
        ensures
            b == self@.occupied(Cell { y: y as int, r: r as int, g: g as int }),
    {
        if is_on_board(y, r, g) {
            let idx: i32 = 12 * y + 2 * r + g;
            let c = self.colors[idx as usize];
            c != Colors::Invalid && c != Colors::Empty
        } else {
            false
        }
    }

    /// Whether the cell is a cell of this board. Any coordinates are
    /// accepted; those outside the hexagon give `false`.
    pub fn valid(&self, yrg: &AbsYRG) -> (b: bool)
        ensures
            b == self@.valid(yrg@),
            self@.colors.len() == BOARD_SIZE,
    {
        self.valid_at(yrg.y as i32, yrg.r as i32, yrg.g as i32)
    }

    /// Whether the cell is a cell of this board that a piece covers. Any
    /// coordinates are accepted; those outside the hexagon give `false`.
    pub fn occupied(&self, yrg: &AbsYRG) -> (b: bool)
        ensures
            b == self@.occupied(yrg@),
            self@.colors.len() == BOARD_SIZE,
    {
        self.occupied_at(yrg.y as i32, yrg.r as i32, yrg.g as i32)
    }

    /// The color at the slot of the cell. The coordinates are not checked:
    /// it is for the caller to pass a cell of the backing grid.
    pub fn get_color(&self, yrg: &AbsYRG) -> (c: Colors)
        requires
            0 <= yrg@.slot() < BOARD_SIZE,
        ensures
            c == self@.colors[yrg@.slot()],
            self@.colors.len() == BOARD_SIZE,
    {
        let idx: i32 = slot_of(yrg);
        self.colors[idx as usize]
    }

    fn surrounded_at(&self, y: i32, r: i32, g: i32) -> (b: bool)
        requires
            -1000 <= y <= 1000,
            -1000 <= r <= 1000,
            -1000 <= g <= 1000,
        ensures
            b == self@.surrounded(Cell { y: y as int, r: r as int, g: g as int }),
    {
        let adjacents = Coords::adjacents_at(y, r, g);
        let ghost c = Cell { y: y as int, r: r as int, g: g as int };
        let mut k: usize = 0;
        while k < 4
            invariant
                k <= 4,
                c == (Cell { y: y as int, r: r as int, g: g as int }),
                adjacents@ == Coords::neighbours_of(c),
                forall|l: int|
                    0 <= l < k ==> !self@.free(
                        (#[trigger] Coords::neighbours_of(c)[l])@.shifted(N2 as int, N2 as int),
                    ),
            decreases 4 - k,
        {
            let adj = adjacents[k];
            let abs_adj = adj.to_abs();
            if self.valid(&abs_adj) && !self.occupied(&abs_adj) {
                proof {
                    lemma_neighbours(c);
                }
                return false;
            }
            k += 1;
        }
        proof {
            lemma_neighbours(c);
        }
        true
    }

    /// Whether none of the neighbours of the cell is a free cell of the board.
    pub fn surrounded(&self, abs_yrg: &AbsYRG) -> (b: bool)
        ensures
            b == self@.surrounded(abs_yrg@),
            self@.colors.len() == BOARD_SIZE,
    {
        self.surrounded_at(abs_yrg.y as i32, abs_yrg.r as i32, abs_yrg.g as i32)
    }

    /// Whether a cell of the shape at `offset` lies on the slot of the
    /// cell `(y, r, g)` of the board.
    fn covered_at(&self, shape: &Shape, offset: &AbsYRG, y: i32, r: i32, g: i32) -> (b: bool)
        requires
            (Cell { y: y as int, r: r as int, g: g as int }).on_board(),
        ensures
            b == BoardView::covers(
                shape@.cells,
                *offset,
                shape@.cells.len() as int,
                (Cell { y: y as int, r: r as int, g: g as int }).slot(),
            ),
    {
        let slot: i32 = 12 * y + 2 * r + g;
        let mut i: usize = 0;
        while i < shape.cells.len()
            invariant
                i <= shape@.cells.len(),
                slot == (Cell { y: y as int, r: r as int, g: g as int }).slot(),
                forall|j: int|
                    0 <= j < i ==> (#[trigger] target(shape@.cells[j], *offset)).slot() != slot,
            decreases shape@.cells.len() - i,
        {
            let cell = shape.cells[i];
            let at: i32 = 12 * (cell.y as i32 + offset.y as i32) + 2 * (cell.r as i32
                + offset.r as i32) + cell.g as i32;
            if at == slot {
                assert(target(shape@.cells[i as int], *offset).slot() == slot);
                return true;
            }
            i += 1;
        }
        false
    }

    /// Paints the cells of the shape at `offset` in `color`, if the shape
    /// fits there.
    fn paint(&self, shape: &Shape, color: Colors, offset: &AbsYRG) -> (res: Option<Board>)
        requires
            shape@.cells.len() > 0,
        ensures
            match res {
                Some(b) => self@.fits(shape@.cells, *offset) && b@ == self@.painted(
                    shape@.cells,
                    *offset,
                    color,
                ),
                None => !self@.fits(shape@.cells, *offset),
            },
    {
        if offset.g != shape.cells[0].g {
            return None;
        }
        let oy: i32 = offset.y as i32;
        let or: i32 = offset.r as i32;
        let mut board: Board = *self;
        let ghost cells = shape@.cells;
        let mut i: usize = 0;
        while i < shape.cells.len()
            invariant
                i <= cells.len(),
                cells == shape@.cells,
                oy == offset.y,
                or == offset.r,
                board.perm_index == self.perm_index,
                forall|j: int| 0 <= j < i ==> self@.free(#[trigger] target(cells[j], *offset)),
                forall|s: int|
                    0 <= s < BOARD_SIZE ==> #[trigger] board.colors@[s] == if BoardView::covers(
                        cells,
                        *offset,
                        i as int,
                        s,
                    ) {
                        color
                    } else {
                        self.colors@[s]
                    },
            decreases cells.len() - i,
        {
            let cell = shape.cells[i];
            let y: i32 = cell.y as i32 + oy;
            let r: i32 = cell.r as i32 + or;
            let g: i32 = cell.g as i32;
            assert(Cell { y: y as int, r: r as int, g: g as int } == target(
                cells[i as int],
                *offset,
            ));
            if !self.valid_at(y, r, g) {
                return None;
            }
            if self.occupied_at(y, r, g) {
                return None;
            }
            let idx: i32 = 12 * y + 2 * r + g;
            board.colors[idx as usize] = color;
            assert forall|s: int| 0 <= s < BOARD_SIZE implies #[trigger] board.colors@[s]
                == if BoardView::covers(cells, *offset, i + 1, s) {
                color
            } else {
                self.colors@[s]
            } by {
                if BoardView::covers(cells, *offset, i + 1, s) {
                    let w = choose|w: int|
                        0 <= w < i + 1 && #[trigger] target(cells[w], *offset).slot() == s;
                    assert(w < i || s == idx);
                } else if BoardView::covers(cells, *offset, i as int, s) {
                    let w = choose|w: int|
                        0 <= w < i && #[trigger] target(cells[w], *offset).slot() == s;
                    assert(0 <= w < i + 1);
                }
            }
            i += 1;
        }
        assert(board@.colors =~= self@.painted(cells, *offset, color).colors);
        Some(board)
    }

    /// Places the shape with its origin on `offset`, in `color`. The shape
    /// fits if the offset has the parity of its first cell and each of its
    /// cells comes to lie on a free cell. The placement is refused if it
    /// leaves, among the cells that share an edge with a cell of the shape,
    /// a free cell without a free neighbour. This holds for every shape:
    /// the cells beside the shape are told from its cells. The receiver is
    /// not changed.
    pub fn place_piece(&self, shape: &Shape, color: Colors, offset: &AbsYRG) -> (res: Option<Board>)
        requires
            shape@.cells.len() > 0,
        ensures
            match res {
                Some(b) => self@.placed(shape@.cells, color, *offset) == Some(b@),
                None => self@.placed(shape@.cells, color, *offset) is None,
            },
            offset.g != shape@.cells[0].g ==> res is None,
            self@.wf() && color != Colors::Invalid && res is Some ==> res->Some_0@.wf(),
            self@.colors.len() == BOARD_SIZE,
            res is Some ==> res->Some_0@.colors.len() == BOARD_SIZE,
    {
        proof {
            if self@.wf() && color != Colors::Invalid && self@.placed(
                shape@.cells,
                color,
                *offset,
            ) is Some {
                lemma_placed_wf(self@, shape@.cells, color, *offset);
            }
        }
        let board = match self.paint(shape, color, offset) {
            None => {
                return None;
            },
            Some(board) => board,
        };
        let oy: i32 = offset.y as i32;
        let or: i32 = offset.r as i32;
        let ghost cells = shape@.cells;
        let mut a: usize = 0;
        while a < shape.cells.len()
            invariant
                a <= cells.len(),
                cells == shape@.cells,
                self@.fits(cells, *offset),
                board@ == self@.painted(cells, *offset, color),
                board@.colors.len() == BOARD_SIZE,
                oy == offset.y,
                or == offset.r,
                forall|k: int, e: int|
                    0 <= k < a && 0 <= e < 3 ==> !board@.gap_at(
                        cells,
                        *offset,
                        #[trigger] target(cells[k], *offset).edge(e),
                    ),
            decreases cells.len() - a,
        {
            let cell = shape.cells[a];
            let y: i32 = cell.y as i32 + oy;
            let r: i32 = cell.r as i32 + or;
            let g: i32 = cell.g as i32;
            let ghost t = target(cells[a as int], *offset);
            assert(t == Cell { y: y as int, r: r as int, g: g as int });
            assert(self@.free(t));
            let mut d: u8 = 0;
            while d < 3
                invariant
                    d <= 3,
                    a < cells.len(),
                    cells == shape@.cells,
                    self@.fits(cells, *offset),
                    board@ == self@.painted(cells, *offset, color),
                    board@.colors.len() == BOARD_SIZE,
                    oy == offset.y,
                    or == offset.r,
                    t == target(cells[a as int], *offset),
                    t == (Cell { y: y as int, r: r as int, g: g as int }),
                    t.on_board(),
                    forall|k: int, e: int|
                        0 <= k < a && 0 <= e < 3 ==> !board@.gap_at(
                            cells,
                            *offset,
                            #[trigger] target(cells[k], *offset).edge(e),
                        ),
                    forall|e: int|
                        0 <= e < d ==> !board@.gap_at(cells, *offset, #[trigger] t.edge(e)),
                decreases 3 - d,
            {
                let ny: i32 = if d == 2 {
                    if g == 1 {
                        y - 1
                    } else {
                        y + 1
                    }
                } else {
                    y
                };
                let nr: i32 = if d == 0 {
                    r - 1 + g
                } else if d == 1 {
                    r + g
                } else {
                    r
                };
                let ng: i32 = 1 - g;
                assert(t.edge(d as int) == Cell { y: ny as int, r: nr as int, g: ng as int });
                if board.valid_at(ny, nr, ng) {
                    if !board.occupied_at(ny, nr, ng) {
                        if color != Colors::Empty || !self.covered_at(shape, offset, ny, nr, ng) {
                            proof {
                                if color != Colors::Empty {
                                    lemma_at_slot(t.edge(d as int));
                                }
                            }
                            if board.surrounded_at(ny, nr, ng) {
                                assert(board@.gap_at(cells, *offset, t.edge(d as int)));
                                return None;
                            }
                        }
                    }
                }
                d += 1;
            }
            a += 1;
        }
        Some(board)
    }

    /// Places a shape that has the cells around it computed: the same as
    /// [`Board::place_piece`], looking for a gap among these cells only.
    pub fn place_prepared(&self, shape: &Shape, color: Colors, offset: &AbsYRG) -> (res: Option<
        Board,
    >)
        requires
            shape@.cells.len() > 0,
            traceable(shape@.cells),
            shape@.adjacents == boundary(shape@.cells),
        ensures
            match res {
                Some(b) => self@.placed(shape@.cells, color, *offset) == Some(b@),
                None => self@.placed(shape@.cells, color, *offset) is None,
            },
            offset.g != shape@.cells[0].g ==> res is None,
            self@.wf() && color != Colors::Invalid && res is Some ==> res->Some_0@.wf(),
            self@.colors.len() == BOARD_SIZE,
            res is Some ==> res->Some_0@.colors.len() == BOARD_SIZE,
    {
        proof {
            if self@.wf() && color != Colors::Invalid && self@.placed(
                shape@.cells,
                color,
                *offset,
            ) is Some {
                lemma_placed_wf(self@, shape@.cells, color, *offset);
            }
        }
        let board = match self.paint(shape, color, offset) {
            None => {
                return None;
            },
            Some(board) => board,
        };
        let oy: i32 = offset.y as i32;
        let or: i32 = offset.r as i32;
        let ghost cells = shape@.cells;
        let ghost around = shape@.adjacents;
        proof {
            assert forall|i: int| 0 <= i < cells.len() implies (#[trigger] target(
                cells[i],
                *offset,
            )).on_board() by {
                assert(self@.free(target(cells[i], *offset)));
            }
            lemma_gap_by_boundary(board@, cells, *offset);
        }
        let mut j: usize = 0;
        while j < shape.adjacents.len()
            invariant
                j <= around.len(),
                around == shape@.adjacents,
                around == boundary(cells),
                cells == shape@.cells,
                self@.fits(cells, *offset),
                board@ == self@.painted(cells, *offset, color),
                board@.has_gap(cells, *offset) <==> board@.has_gap_among(around, *offset),
                oy == offset.y,
                or == offset.r,
                forall|k: int|
                    0 <= k < j ==> !(board@.free(#[trigger] target(around[k], *offset))
                        && board@.surrounded(target(around[k], *offset))),
            decreases around.len() - j,
        {
            let yrg = shape.adjacents[j];
            let y: i32 = yrg.y as i32 + oy;
            let r: i32 = yrg.r as i32 + or;
            let g: i32 = yrg.g as i32;
            assert(Cell { y: y as int, r: r as int, g: g as int } == target(
                around[j as int],
                *offset,
            ));
            if board.valid_at(y, r, g) {
                if !board.occupied_at(y, r, g) {
                    if board.surrounded_at(y, r, g) {
                        assert(board@.free(target(around[j as int], *offset)));
                        assert(board@.has_gap_among(around, *offset));
                        return None;
                    }
                }
            }
            j += 1;
        }
        Some(board)
    }

    /// The codes of the slots as one string, joined without a separator.
    fn joined_codes(&self, skip_invalid: bool) -> (s: String)
        ensures
            s@ == codes(self@.colors, skip_invalid),
    {
        let mut parts: Vec<String> = Vec::new();
        let mut i: usize = 0;
        proof {
            reveal_strlit("");
        }
        while i < BOARD_SIZE
            invariant
                i <= BOARD_SIZE,
                ""@.len() == 0,
                joined(texts(parts@), ""@) == codes(self.colors@.take(i as int), skip_invalid),
            decreases BOARD_SIZE - i,
        {
            let c = self.colors[i];
            assert(self.colors@.take(i + 1).drop_last() =~= self.colors@.take(i as int));
            if !(skip_invalid && c == Colors::Invalid) {
                let ghost before = parts@;
                parts.push(c.to_string());
                assert(texts(parts@).drop_last() =~= texts(before));
            }
            i += 1;
        }
        assert(self.colors@.take(BOARD_SIZE as int) =~= self.colors@);
        join(&parts, "")
    }

    /// The signature of the board: one code for each cell, row by row.
    pub fn to_string(&self) -> (s: String)
        ensures
            s@ == self@.signature(),
            self@.wf() ==> s@.len() == NUM_CELLS,
    {
        proof {
            if self@.wf() {
                lemma_signature_len(self@);
            }
        }
        self.joined_codes(true)
    }

    /// The text of a board from what the replacement of the dot runs gave.
    pub fn rows_from(replaced: Result<String, regex::Error>) -> (text: Option<String>)
        ensures
            text == match replaced {
                Ok(s) => Some(s),
                Err(_) => None::<String>,
            },
    {
        match replaced {
            Ok(s) => Some(s),
            Err(_) => None,
        }
    }

    /// The codes of all slots, where every match of the pattern for dot
    /// runs is replaced by one dot, so that a single dot stands between the
    /// rows of the board. `None` if the pattern does not compile.
    pub fn debug_string(&self) -> (text: Option<String>)
        ensures
            text is Some <==> regex_accepts(dot_runs()),
            text matches Some(s) ==> s@ == self@.rows(),
    {
        let repr = self.joined_codes(false);
        proof {
            reveal_strlit("\\.+");
            reveal_strlit(".");
            assert("\\.+"@ =~= dot_runs());
            assert("."@ =~= seq!['.']);
        }
        Self::rows_from(replace_all("\\.+", repr.as_str(), "."))
    }

    /// Writes the color at the slot of the cell. The coordinates are not
    /// checked: it is for the caller to pass a cell of the board.
    pub fn set_color(&mut self, yrg: &AbsYRG, c: Colors)
        requires
            0 <= yrg@.slot() < BOARD_SIZE,
        ensures
            final(self)@.colors == old(self)@.colors.update(yrg@.slot(), c),
            final(self)@.perm_index == old(self)@.perm_index,
            old(self)@.colors.len() == BOARD_SIZE,
            final(self)@.colors.len() == BOARD_SIZE,
    {
        let idx: i32 = slot_of(yrg);
        self.colors[idx as usize] = c;
    }
}

} // verus!
