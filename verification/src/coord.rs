//! Cell addressing: absolute and center-relative coordinates, the set of cells
//! that make up the board, the 60-degree rotation and the neighbour relation.

use std::collections::HashMap;
use vstd::prelude::*;
use crate::text::{decimal, push_decimal};

verus! {

broadcast use vstd::std_specs::hash::group_hash_axioms;

/// Number of rows of the backing grid, and of positions in each row.
pub const N: i8 = 6;

/// Offset between the absolute and the center-relative frame.
pub const N2: i8 = 3;

/// Number of cells in each row of the board, top to bottom.
pub const LINES_LEN: [i32; 6] = [7, 9, 11, 11, 9, 7];

/// Number of cells of the board.
pub const NUM_CELLS: usize = 54;

/// A cell of the unbounded triangular grid, as the contracts see it.
pub struct Cell {
    pub y: int,
    pub r: int,
    pub g: int,
}

impl Cell {
    /// Position of an absolute cell in the backing array of a board.
    pub open spec fn slot(self) -> int {
        12 * self.y + 2 * self.r + self.g
    }

    /// Whether an absolute cell belongs to the hexagonal board.
    pub open spec fn on_board(self) -> bool {
        &&& 0 <= self.y < N
        &&& 0 <= self.r < N
        &&& 0 <= self.g <= 1
        &&& self.y - 2 <= self.r + self.g <= self.y + 3
    }

    /// The cell moved by `dy` rows and `dr` positions.
    pub open spec fn shifted(self, dy: int, dr: int) -> Cell {
        Cell { y: self.y + dy, r: self.r + dr, g: self.g }
    }

    /// Image of a center-relative cell under the 60-degree rotation of the board.
    pub open spec fn rotated(self) -> Cell {
        Cell { y: self.y - self.r - self.g, r: self.y, g: 1 - self.g }
    }

    /// The cell that shares the left edge.
    pub open spec fn left(self) -> Cell {
        Cell { y: self.y, r: self.r - 1 + self.g, g: 1 - self.g }
    }

    /// The cell that shares the right edge.
    pub open spec fn right(self) -> Cell {
        Cell { y: self.y, r: self.r + self.g, g: 1 - self.g }
    }

    /// The cell that shares the horizontal edge of a cell with `g == 1`.
    pub open spec fn up(self) -> Cell {
        Cell { y: self.y - 1, r: self.r, g: 0 }
    }

    /// The cell that shares the horizontal edge of a cell with `g == 0`.
    pub open spec fn down(self) -> Cell {
        Cell { y: self.y + 1, r: self.r, g: 1 }
    }

    /// The cell across the edge on side `d`: the left edge for 0, the right
    /// edge for 1, else the horizontal edge, which lies above a cell with
    /// `g == 1` and below the others.
    pub open spec fn edge(self, d: int) -> Cell {
        if d == 0 {
            self.left()
        } else if d == 1 {
            self.right()
        } else if self.g == 1 {
            self.up()
        } else {
            self.down()
        }
    }
}

/// An absolute cell address: `y` and `r` in `0..N`, `g` in `0..=1`.
#[derive(Copy, Clone, PartialEq, Eq, Hash, Debug, Structural)]
pub struct AbsYRG {
    pub y: i8,
    pub r: i8,
    pub g: i8,
}

/// A center-relative cell address: `y` and `r` in `-N/2..N/2`, `g` in `0..=1`.
#[derive(Copy, Clone, PartialEq, Eq, Hash, Debug, Structural)]
pub struct RelYRG {
    pub y: i8,
    pub r: i8,
    pub g: i8,
}

impl View for AbsYRG {
    type V = Cell;

    open spec fn view(&self) -> Cell {
        Cell { y: self.y as int, r: self.r as int, g: self.g as int }
    }
}

impl View for RelYRG {
    type V = Cell;

    open spec fn view(&self) -> Cell {
        Cell { y: self.y as int, r: self.r as int, g: self.g as int }
    }
}

impl AbsYRG {
    pub fn new(y: i8, r: i8, g: i8) -> (c: AbsYRG)
        ensures
            c == (AbsYRG { y, r, g }),
    {
        AbsYRG { y, r, g }
    }

    /// Whether the cell belongs to the board.
    pub open spec fn on_board(self) -> bool {
        self@.on_board()
    }

    /// The cell as text: the three coordinates with `x` between them.
    pub open spec fn text(self) -> Seq<char> {
        decimal(self.y as int) + seq!['x'] + decimal(self.r as int) + seq!['x'] + decimal(
            self.g as int,
        )
    }

    /// The cell as text for diagnostics: `Abs` and the three coordinates.
    pub open spec fn debug_text(self) -> Seq<char> {
        seq!['A', 'b', 's', ' '] + decimal(self.y as int) + decimal(self.r as int) + decimal(
            self.g as int,
        )
    }

    pub fn to_string(&self) -> (s: String)
        ensures
            s@ == self.text(),
    {
        let mut s = String::new();
        push_decimal(&mut s, self.y as i32);
        s.push('x');
        push_decimal(&mut s, self.r as i32);
        s.push('x');
        push_decimal(&mut s, self.g as i32);
        s
    }

    pub fn debug_string(&self) -> (s: String)
        ensures
            s@ == self.debug_text(),
    {
        let mut s = String::new();
        s.push('A');
        s.push('b');
        s.push('s');
        s.push(' ');
        push_decimal(&mut s, self.y as i32);
        push_decimal(&mut s, self.r as i32);
        push_decimal(&mut s, self.g as i32);
        s
    }

    /// The same cell in the center-relative frame.
    pub fn to_rel(&self) -> (c: RelYRG)
        requires
            i8::MIN <= self.y - N2,
            i8::MIN <= self.r - N2,
        ensures
            c@ == self@.shifted(-N2, -N2),
    {
        RelYRG { y: self.y - N2, r: self.r - N2, g: self.g }
    }
}

impl RelYRG {
    pub fn new(y: i8, r: i8, g: i8) -> (c: RelYRG)
        ensures
            c == (RelYRG { y, r, g }),
    {
        RelYRG { y, r, g }
    }

    /// Whether the cell, taken relative to the center, belongs to the board.
    pub open spec fn on_board(self) -> bool {
        self@.shifted(N2 as int, N2 as int).on_board()
    }

    /// The image of the cell under the 60-degree rotation of the board.
    pub open spec fn rotated(self) -> RelYRG {
        RelYRG { y: (self.y - self.r - self.g) as i8, r: self.y, g: (1 - self.g) as i8 }
    }

    /// The cell as text: the three coordinates with dots between them.
    pub open spec fn text(self) -> Seq<char> {
        decimal(self.y as int) + seq!['.'] + decimal(self.r as int) + seq!['.'] + decimal(
            self.g as int,
        )
    }

    /// The cell as text for diagnostics: `Rel` and the text of the cell.
    pub open spec fn debug_text(self) -> Seq<char> {
        seq!['R', 'e', 'l', ' '] + self.text()
    }

    fn push_text(&self, s: &mut String)
        ensures
            final(s)@ == old(s)@ + self.text(),
    {
        push_decimal(s, self.y as i32);
        s.push('.');
        push_decimal(s, self.r as i32);
        s.push('.');
        push_decimal(s, self.g as i32);
    }

    pub fn to_string(&self) -> (s: String)
        ensures
            s@ == self.text(),
    {
        let mut s = String::new();
        self.push_text(&mut s);
        s
    }

    pub fn debug_string(&self) -> (s: String)
        ensures
            s@ == self.debug_text(),
    {
        let mut s = String::new();
        s.push('R');
        s.push('e');
        s.push('l');
        s.push(' ');
        self.push_text(&mut s);
        s
    }

    /// The value that stands for a neighbour outside the board.
    pub open spec fn outside() -> RelYRG {
        RelYRG { y: -4i8, r: -4i8, g: -1i8 }
    }

    pub fn out_of_bounds() -> (c: RelYRG)
        ensures
            c == Self::outside(),
    {
        RelYRG { y: -4, r: -4, g: -1 }
    }

    /// The same cell in the absolute frame.
    pub fn to_abs(&self) -> (c: AbsYRG)
        requires
            self.y + N2 <= i8::MAX,
            self.r + N2 <= i8::MAX,
        ensures
            c@ == self@.shifted(N2 as int, N2 as int),
    {
        AbsYRG { y: self.y + N2, r: self.r + N2, g: self.g }
    }

    /// The absolute cell that this cell of a shape covers when the shape's
    /// origin is put on `offset`. The half-cell is that of the shape's cell.
    pub fn offset_by(&self, offset: &AbsYRG) -> (c: AbsYRG)
        requires
            i8::MIN <= self.y + offset.y <= i8::MAX,
            i8::MIN <= self.r + offset.r <= i8::MAX,
        ensures
            c@ == self@.shifted(offset.y as int, offset.r as int),
    {
        AbsYRG { y: self.y + offset.y, r: self.r + offset.r, g: self.g }
    }
}

/// Number of board cells in the rows above row `y`.
pub open spec fn row_start(y: int) -> int {
    if y <= 0 {
        0
    } else if y == 1 {
        7
    } else if y == 2 {
        16
    } else if y == 3 {
        27
    } else if y == 4 {
        38
    } else if y == 5 {
        47
    } else {
        54
    }
}

/// In row `y`, the least value of `2 * r + g` over the cells of the board.
pub open spec fn row_first(y: int) -> int {
    if y <= 2 {
        0
    } else {
        2 * y - 5
    }
}

impl Cell {
    /// Position of a cell of the board in the row-major list of its cells.
    pub open spec fn number(self) -> int {
        row_start(self.y) + 2 * self.r + self.g - row_first(self.y)
    }

    /// The absolute cell at a slot of the backing array.
    pub open spec fn at_slot(s: int) -> Cell {
        Cell { y: s / 12, r: (s % 12) / 2, g: s % 2 }
    }

    /// Image of an absolute cell under the 60-degree rotation of the board.
    pub open spec fn turned(self) -> Cell {
        self.shifted(-N2, -N2).rotated().shifted(N2 as int, N2 as int)
    }

    /// The absolute cell that the rotation maps to this one.
    pub open spec fn turned_from(self) -> Cell {
        Cell { y: self.r, r: self.r + 2 + self.g - self.y, g: 1 - self.g }
    }
}

/// Number of board cells whose slot is below `s`.
pub open spec fn cells_below(s: int) -> int {
    let y = s / 12;
    let t = s % 12;
    let first = row_first(y);
    let len = row_start(y + 1) - row_start(y);
    row_start(y) + if t <= first {
        0
    } else if t - first >= len {
        len
    } else {
        t - first
    }
}

/// The cell of the board with the given number.
pub open spec fn cell_numbered(i: int) -> AbsYRG {
    choose|c: AbsYRG| c@.on_board() && c@.number() == i
}

/// The cells of the board in row-major order.
pub open spec fn board_cells() -> Seq<AbsYRG> {
    Seq::new(NUM_CELLS as nat, |i: int| cell_numbered(i))
}

/// Whether `index` gives, for every cell of the board, its position in `cells`.
pub open spec fn indexes(index: Map<i32, usize>, cells: Seq<AbsYRG>) -> bool {
    forall|c: AbsYRG|
        #![trigger c@.on_board()]
        c@.on_board() ==> {
            &&& index.contains_key(c@.slot() as i32)
            &&& index[c@.slot() as i32] < cells.len()
            &&& cells[index[c@.slot() as i32] as int] == c
        }
}

/// Whether every key of `index` is the slot of a cell of the board.
pub open spec fn only_cells(index: Map<i32, usize>) -> bool {
    forall|k: i32| #[trigger]
        index.contains_key(k) ==> 0 <= k < 72 && Cell::at_slot(k as int).on_board()
}

/// Position of a cell in the backing array of a board.
pub fn slot_of(c: &AbsYRG) -> (s: i32)
    ensures
        s == c@.slot(),
{
    12 * (c.y as i32) + 2 * (c.r as i32) + (c.g as i32)
}

/// Whether the absolute cell `(y, r, g)` belongs to the board.
pub fn is_on_board(y: i32, r: i32, g: i32) -> (b: bool)
    ensures
        b == (Cell { y: y as int, r: r as int, g: g as int }).on_board(),
{
    0 <= y && y < 6 && 0 <= r && r < 6 && 0 <= g && g <= 1 && y - 2 <= r + g && r + g <= y + 3
}

/// The four neighbours of a cell: left, right, up and down.
pub type YRGAdjacents = [AbsYRG; 4];

/// The fixed tables of the coordinate system: the cells of the board in
/// row-major order, the position of each cell in that list, the table of
/// the 60-degree rotation, and the neighbours of each cell.
pub struct Coords {
    pub valid_yrg: Vec<AbsYRG>,
    /// Position in `valid_yrg` of each cell, keyed by the cell's slot.
    pub valid_yrg_to_idx: HashMap<i32, usize>,
    /// `rot60ccw_src[i]` is the cell that the rotation maps to `valid_yrg[i]`.
    pub rot60ccw_src: Vec<AbsYRG>,
    /// Position in `rot60ccw_src` of each cell, keyed by the cell's slot.
    pub rot60ccw_src_to_idx: HashMap<i32, usize>,
    /// The neighbours of `valid_yrg[i]`, in absolute coordinates: left,
    /// right, up and down. A neighbour that the board does not have is
    /// `(-1, -1, -1)`.
    pub adjacents_to_yrg: Vec<YRGAdjacents>,
}

impl Coords {
    /// The tables are those of the board: `valid_yrg` lists its 54 cells in
    /// row-major order, `rot60ccw_src` lists the cells that the rotation
    /// maps to them, each lookup has the position of every cell of the
    /// board in its list, under the slot of the cell, and no other key, and
    /// `adjacents_to_yrg` lists the neighbours of each cell.
    pub open spec fn wf(&self) -> bool {
        &&& self.valid_yrg@.len() == NUM_CELLS
        &&& self.rot60ccw_src@.len() == NUM_CELLS
        &&& forall|i: int|
            0 <= i < NUM_CELLS ==> (#[trigger] self.valid_yrg@[i])@.on_board()
                && self.valid_yrg@[i]@.number() == i
        &&& indexes(self.valid_yrg_to_idx@, self.valid_yrg@)
        &&& indexes(self.rot60ccw_src_to_idx@, self.rot60ccw_src@)
        &&& only_cells(self.valid_yrg_to_idx@)
        &&& only_cells(self.rot60ccw_src_to_idx@)
        &&& forall|i: int|
            0 <= i < NUM_CELLS ==> (#[trigger] self.rot60ccw_src@[i])@.turned()
                == self.valid_yrg@[i]@
        &&& self.adjacents_to_yrg@.len() == NUM_CELLS
        &&& forall|i: int|
            0 <= i < NUM_CELLS ==> (#[trigger] self.adjacents_to_yrg@[i])@ == Self::adjacents_of(
                self.valid_yrg@[i]@,
            )
    }

    pub fn new() -> (coords: Coords)
        ensures
            coords.wf(),
    {
        let (valid_yrg, valid_yrg_to_idx) = list_cells();
        let (rot60ccw_src, rot60ccw_src_to_idx) = rotation_sources(&valid_yrg);
        let adjacents_to_yrg = adjacents_table(&valid_yrg);
        Coords {
            valid_yrg,
            valid_yrg_to_idx,
            rot60ccw_src,
            rot60ccw_src_to_idx,
            adjacents_to_yrg,
        }
    }

    /// What the public tables hold.
    pub proof fn lemma_cells(&self)
        requires
            self.wf(),
        ensures
            self.valid_yrg@.len() == NUM_CELLS,
            forall|i: int|
                0 <= i < NUM_CELLS ==> (#[trigger] self.valid_yrg@[i])@.on_board()
                    && self.valid_yrg@[i]@.number() == i,
            forall|c: AbsYRG|
                #![trigger c@.on_board()]
                c@.on_board() ==> 0 <= c@.number() < NUM_CELLS && self.valid_yrg@[c@.number()] == c,
            indexes(self.valid_yrg_to_idx@, self.valid_yrg@),
            self.valid_yrg@ == board_cells(),
    {
        assert forall|i: int| 0 <= i < NUM_CELLS implies self.valid_yrg@[i] == cell_numbered(
            i,
        ) by {
            let c = self.valid_yrg@[i];
            lemma_number_unique(c@, cell_numbered(i)@);
        }
        assert forall|c: AbsYRG|
            #![trigger c@.on_board()]
            c@.on_board() implies 0 <= c@.number() < NUM_CELLS && self.valid_yrg@[c@.number()]
            == c by {
            lemma_at_slot(c@);
            let d = self.valid_yrg@[c@.number()];
            lemma_number_unique(c@, d@);
        }
    }

    /// Position of a cell in `valid_yrg`, if the cell is on the board.
    pub fn index_of(&self, cell: &AbsYRG) -> (at: Option<usize>)
        requires
            self.wf(),
        ensures
            cell@.on_board() ==> at == Some(cell@.number() as usize),
            !cell@.on_board() ==> at is None,
    {
        if is_on_board(cell.y as i32, cell.r as i32, cell.g as i32) {
            proof {
                self.lemma_cells();
                lemma_at_slot(cell@);
            }
            let at = self.valid_yrg_to_idx.get(&slot_of(cell));
            match at {
                Some(i) => {
                    proof {
                        lemma_number_unique(cell@, self.valid_yrg@[*i as int]@);
                    }
                    Some(*i)
                },
                None => None,
            }
        } else {
            None
        }
    }

    /// The image of a cell of the board under the 60-degree rotation.
    pub fn rot_60_ccw_yrg(&self, yrg: &RelYRG) -> (dst: RelYRG)
        requires
            self.wf(),
            yrg.on_board(),
        ensures
            dst == yrg.rotated(),
            dst@ == yrg@.rotated(),
            dst.on_board(),
    {
        let abs = yrg.to_abs();
        proof {
            lemma_at_slot(abs@);
            lemma_turned(abs@);
        }
        let index = self.rot60ccw_src_to_idx.get(&slot_of(&abs)).unwrap();
        let yrg_dst = self.valid_yrg[*index];
        yrg_dst.to_rel()
    }

    /// What stands for the absolute cell `n` among the neighbours of a cell:
    /// the cell itself, relative to the center, if it is on the board.
    pub open spec fn reported(n: Cell) -> RelYRG {
        if n.on_board() {
            RelYRG { y: (n.y - N2) as i8, r: (n.r - N2) as i8, g: n.g as i8 }
        } else {
            RelYRG::outside()
        }
    }

    /// The neighbours of an absolute cell: left, right, up and down. A cell
    /// with `g == 1` has no neighbour below, one with `g == 0` none above; a
    /// neighbour outside the board is reported as [`RelYRG::outside`], the
    /// others relative to the center.
    pub open spec fn neighbours_of(c: Cell) -> Seq<RelYRG> {
        seq![
            Self::reported(c.left()),
            Self::reported(c.right()),
            if c.g == 1 {
                Self::reported(c.up())
            } else {
                RelYRG::outside()
            },
            if c.g == 0 {
                Self::reported(c.down())
            } else {
                RelYRG::outside()
            },
        ]
    }

    /// The neighbours of an absolute cell in absolute coordinates, with
    /// `(-1, -1, -1)` for a neighbour outside the board.
    pub open spec fn adjacents_of(c: Cell) -> Seq<AbsYRG> {
        Seq::new(
            4,
            |k: int|
                AbsYRG {
                    y: (Self::neighbours_of(c)[k].y + N2) as i8,
                    r: (Self::neighbours_of(c)[k].r + N2) as i8,
                    g: Self::neighbours_of(c)[k].g,
                },
        )
    }

    /// The neighbours of a center-relative cell.
    pub open spec fn neighbours(cell: Cell) -> Seq<RelYRG> {
        Self::neighbours_of(cell.shifted(N2 as int, N2 as int))
    }

    /// The neighbours of the absolute cell `(y, r, g)`.
    pub(crate) fn adjacents_at(y: i32, r: i32, g: i32) -> (adjacents: [RelYRG; 4])
        requires
            -1000 <= y <= 1000,
            -1000 <= r <= 1000,
            -1000 <= g <= 1000,
        ensures
            adjacents@ == Self::neighbours_of(Cell { y: y as int, r: r as int, g: g as int }),
    {
        let gl: i32 = 1 - g;
        let left = report(y, r - 1 + g, gl);
        let right = report(y, r + g, gl);
        let up = if g == 1 {
            report(y - 1, r, 0)
        } else {
            RelYRG::out_of_bounds()
        };
        let down = if g == 0 {
            report(y + 1, r, 1)
        } else {
            RelYRG::out_of_bounds()
        };
        let adjacents = [left, right, up, down];
        adjacents
    }

    /// The neighbours of a center-relative cell, computed for this one
    /// cell: left, right, up and down, relative to the center, with
    /// [`RelYRG::outside`] for a neighbour that the board does not have.
    /// `adjacents_to_yrg` holds the same for every cell of the board, in
    /// absolute coordinates.
    pub fn compute_adjacents(cell: &RelYRG) -> (adjacents: [RelYRG; 4])
        ensures
            adjacents@ == Self::neighbours(cell@),
    {
        Self::adjacents_at(cell.y as i32 + 3, cell.r as i32 + 3, cell.g as i32)
    }
}

/// The absolute cell `(y, r, g)` as a neighbour: relative to the center if it
/// is on the board.
fn report(y: i32, r: i32, g: i32) -> (c: RelYRG)
    ensures
        c == Coords::reported(Cell { y: y as int, r: r as int, g: g as int }),
{
    if is_on_board(y, r, g) {
        RelYRG { y: (y - 3) as i8, r: (r - 3) as i8, g: g as i8 }
    } else {
        RelYRG::out_of_bounds()
    }
}

/// Two cells of the board with the same slot are the same cell.
pub proof fn lemma_slot_unique(c: Cell, d: Cell)
    requires
        c.on_board(),
        d.on_board(),
        c.slot() == d.slot(),
    ensures
        c == d,
{
}

/// A cell of the board is the cell at its slot, and its slot is in the array.
pub proof fn lemma_at_slot(c: Cell)
    requires
        c.on_board(),
    ensures
        0 <= c.slot() < 72,
        Cell::at_slot(c.slot()) == c,
        0 <= c.number() < 54,
{
}

/// Going one slot further counts the cell at that slot if it is on the board.
pub proof fn lemma_cells_below_step(s: int)
    requires
        0 <= s < 72,
    ensures
        Cell::at_slot(s).slot() == s,
        Cell::at_slot(s).on_board() ==> Cell::at_slot(s).number() == cells_below(s),
        cells_below(s + 1) == cells_below(s) + if Cell::at_slot(s).on_board() {
            1int
        } else {
            0int
        },
{
    let y = s / 12;
    let t = s % 12;
    assert(0 <= y < 6 && 0 <= t < 12);
    assert(s == 12 * y + t);
    assert(t % 2 == s % 2) by {
        assert(s == 2 * (6 * y + t / 2) + t % 2);
    }
    if t == 11 {
        assert((s + 1) / 12 == y + 1 && (s + 1) % 12 == 0);
    } else {
        assert((s + 1) / 12 == y && (s + 1) % 12 == t + 1);
    }
}

/// The rotation and its inverse map the board onto itself and undo each other.
pub proof fn lemma_turned(c: Cell)
    requires
        c.on_board(),
    ensures
        c.turned().on_board(),
        c.turned_from().on_board(),
        c.turned().turned_from() == c,
        c.turned_from().turned() == c,
{
}

/// The cells of the board in row-major order, and the position of each by slot.
fn list_cells() -> (res: (Vec<AbsYRG>, HashMap<i32, usize>))
    ensures
        res.0@.len() == NUM_CELLS,
        forall|i: int|
            0 <= i < NUM_CELLS ==> (#[trigger] res.0@[i])@.on_board() && res.0@[i]@.number() == i,
        forall|c: AbsYRG|
            #![trigger c@.on_board()]
            c@.on_board() ==> {
                &&& res.1@.contains_key(c@.slot() as i32)
                &&& res.1@[c@.slot() as i32] == c@.number()
                &&& res.0@[c@.number()] == c
            },
        only_cells(res.1@),
{
    let mut cells: Vec<AbsYRG> = Vec::new();
    let mut index: HashMap<i32, usize> = HashMap::new();
    let mut s: i32 = 0;
    while s < 72
        invariant
            0 <= s <= 72,
            cells@.len() == cells_below(s as int),
            only_cells(index@),
            forall|i: int|
                0 <= i < cells@.len() ==> (#[trigger] cells@[i])@.on_board() && cells@[i]@.number()
                    == i,
            forall|c: AbsYRG|
                #![trigger c@.on_board()]
                c@.on_board() && c@.slot() < s ==> {
                    &&& index@.contains_key(c@.slot() as i32)
                    &&& index@[c@.slot() as i32] == c@.number()
                    &&& c@.number() < cells@.len()
                    &&& cells@[c@.number()] == c
                },
        decreases 72 - s,
    {
        let y: i32 = s / 12;
        let r: i32 = (s % 12) / 2;
        let g: i32 = s % 2;
        proof {
            lemma_cells_below_step(s as int);
        }
        let ghost before = cells@;
        if is_on_board(y, r, g) {
            let cell = AbsYRG { y: y as i8, r: r as i8, g: g as i8 };
            assert(cell@ == Cell::at_slot(s as int));
            index.insert(s, cells.len());
            cells.push(cell);
            assert forall|c: AbsYRG|
                #![trigger c@.on_board()]
                c@.on_board() && c@.slot() < s + 1 implies {
                &&& index@.contains_key(c@.slot() as i32)
                &&& index@[c@.slot() as i32] == c@.number()
                &&& c@.number() < cells@.len()
                &&& cells@[c@.number()] == c
            } by {
                lemma_at_slot(c@);
                if c@.slot() == s {
                    lemma_slot_unique(c@, cell@);
                } else {
                    assert(before[c@.number()] == c);
                }
            }
        } else {
            assert forall|c: AbsYRG|
                #![trigger c@.on_board()]
                c@.on_board() && c@.slot() < s + 1 implies c@.slot() < s by {
                lemma_at_slot(c@);
            }
        }
        s += 1;
    }
    (cells, index)
}

/// For each cell of `cells`, in order, the cell that the rotation maps to it,
/// and the position of each of these by slot.
fn rotation_sources(cells: &Vec<AbsYRG>) -> (res: (Vec<AbsYRG>, HashMap<i32, usize>))
    requires
        cells@.len() == NUM_CELLS,
        forall|i: int|
            0 <= i < NUM_CELLS ==> (#[trigger] cells@[i])@.on_board() && cells@[i]@.number() == i,
    ensures
        res.0@.len() == NUM_CELLS,
        forall|i: int| 0 <= i < NUM_CELLS ==> (#[trigger] res.0@[i])@.turned() == cells@[i]@,
        indexes(res.1@, res.0@),
        only_cells(res.1@),
{
    let mut sources: Vec<AbsYRG> = Vec::new();
    let mut index: HashMap<i32, usize> = HashMap::new();
    let mut i: usize = 0;
    while i < cells.len()
        invariant
            i <= NUM_CELLS,
            cells@.len() == NUM_CELLS,
            sources@.len() == i,
            only_cells(index@),
            forall|j: int|
                0 <= j < NUM_CELLS ==> (#[trigger] cells@[j])@.on_board() && cells@[j]@.number()
                    == j,
            forall|j: int|
                0 <= j < i ==> (#[trigger] sources@[j])@ == cells@[j]@.turned_from(),
            forall|c: AbsYRG|
                #![trigger c@.on_board()]
                c@.on_board() && c@.turned().number() < i ==> {
                    &&& index@.contains_key(c@.slot() as i32)
                    &&& index@[c@.slot() as i32] == c@.turned().number()
                    &&& sources@[c@.turned().number()] == c
                },
        decreases NUM_CELLS - i,
    {
        let cell = cells[i];
        proof {
            lemma_turned(cell@);
            lemma_at_slot(cell@.turned_from());
        }
        let src = AbsYRG { y: cell.r, r: cell.r + 2 + cell.g - cell.y, g: 1 - cell.g };
        let ghost before = sources@;
        index.insert(slot_of(&src), i);
        sources.push(src);
        assert forall|c: AbsYRG|
            #![trigger c@.on_board()]
            c@.on_board() && c@.turned().number() < i + 1 implies {
            &&& index@.contains_key(c@.slot() as i32)
            &&& index@[c@.slot() as i32] == c@.turned().number()
            &&& sources@[c@.turned().number()] == c
        } by {
            lemma_turned(c@);
            lemma_at_slot(c@);
            lemma_at_slot(c@.turned());
            if c@.slot() == src@.slot() {
                lemma_slot_unique(c@, src@);
            } else {
                if c@.turned().number() == i {
                    lemma_number_unique(c@.turned(), cell@);
                }
                assert(before[c@.turned().number()] == c);
            }
        }
        i += 1;
    }
    proof {
        assert forall|j: int| 0 <= j < NUM_CELLS implies (#[trigger] sources@[j])@.turned()
            == cells@[j]@ by {
            lemma_turned(cells@[j]@);
        }
        assert forall|c: AbsYRG|
            #![trigger c@.on_board()]
            c@.on_board() implies {
            &&& index@.contains_key(c@.slot() as i32)
            &&& index@[c@.slot() as i32] < sources@.len()
            &&& sources@[index@[c@.slot() as i32] as int] == c
        } by {
            lemma_turned(c@);
            lemma_at_slot(c@.turned());
        }
    }
    (sources, index)
}

/// The neighbours of each of the cells, in absolute coordinates.
fn adjacents_table(cells: &Vec<AbsYRG>) -> (table: Vec<YRGAdjacents>)
    ensures
        table@.len() == cells@.len(),
        forall|i: int|
            0 <= i < cells@.len() ==> (#[trigger] table@[i])@ == Coords::adjacents_of(cells@[i]@),
{
    let mut table: Vec<YRGAdjacents> = Vec::new();
    let mut i: usize = 0;
    while i < cells.len()
        invariant
            i <= cells@.len(),
            table@.len() == i,
            forall|j: int|
                0 <= j < i ==> (#[trigger] table@[j])@ == Coords::adjacents_of(cells@[j]@),
        decreases cells@.len() - i,
    {
        let yrg = cells[i];
        let around = Coords::adjacents_at(yrg.y as i32, yrg.r as i32, yrg.g as i32);
        let left = around[0].to_abs();
        let right = around[1].to_abs();
        let up = around[2].to_abs();
        let down = around[3].to_abs();
        let entry = [left, right, up, down];
        assert(entry@ =~= Coords::adjacents_of(yrg@));
        table.push(entry);
        i += 1;
    }
    table
}

/// Two cells of the board with the same number are the same cell.
pub proof fn lemma_number_unique(c: Cell, d: Cell)
    requires
        c.on_board(),
        d.on_board(),
        c.number() == d.number(),
    ensures
        c == d,
{
}

/// Converting an absolute cell to the relative frame and back gives the cell.
pub proof fn lemma_abs_rel_round_trip(c: Cell)
    ensures
        c.shifted(-N2, -N2).shifted(N2 as int, N2 as int) == c,
{
}

/// Six rotations by 60 degrees give the cell back.
pub proof fn lemma_six_rotations(c: Cell)
    ensures
        c.rotated().rotated().rotated().rotated().rotated().rotated() == c,
{
}

/// The rotation maps the board onto itself.
pub proof fn lemma_rotation_stays_on_board(c: Cell)
    requires
        c.shifted(N2 as int, N2 as int).on_board(),
    ensures
        c.rotated().shifted(N2 as int, N2 as int).on_board(),
{
}

} // verus!
