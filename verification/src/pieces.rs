//! The catalog of pieces, and the enumeration of the sequences of choices.

use indexmap::IndexMap;
use vstd::prelude::*;
use crate::coord::{Coords, RelYRG};
use crate::odometer::{
    advanced, advanced_by, lemma_advanced, lemma_advanced_by, lemma_counts, lemma_value_bounds,
    lemma_value_zero, remainder, span, value, wheels_ok, Wheel,
};
use crate::permutations::{Permutation, Permutations};
use crate::board::distinct;
use crate::piece::{
    all_on_board, is_step, lemma_on_board_recenters, lemma_recentered_distinct,
    lemma_turned_by_distinct, shape_at, traceable, turned_by, boundary, Colors, Piece,
    PieceKey,
};

verus! {

/// `indexmap::IndexMap`, taken as it is: nothing of its inside is seen.
#[verifier::external_type_specification]
#[verifier::external_body]
#[verifier::reject_recursive_types(K)]
#[verifier::reject_recursive_types(V)]
#[verifier::reject_recursive_types(S)]
pub struct ExIndexMap<K, V, S>(IndexMap<K, V, S>);

/// The entries of an `IndexMap` of pieces: the piece stored for each key,
/// the key taken as its two characters.
pub uninterp spec fn entries(m: IndexMap<PieceKey, Piece>) -> Map<Seq<char>, Piece>;

/// `IndexMap::new`: a map without entries.
#[verifier::external_body]
fn map_new() -> (map: IndexMap<PieceKey, Piece>)
    ensures
        forall|k: Seq<char>| !entries(map).contains_key(k),
{
    IndexMap::new()
}

/// `IndexMap::insert`: the map holds the value for the key, in place of the
/// value that it held for an equal key, if any. The other entries stay.
#[verifier::external_body]
fn map_insert(m: &mut IndexMap<PieceKey, Piece>, key: PieceKey, piece: Piece)
    ensures
        entries(*final(m)) == entries(*old(m)).insert(key@, piece),
{
    m.insert(key, piece);
}

/// `IndexMap::get`: the value stored for an equal key, if there is one.
#[verifier::external_body]
fn map_get<'a>(m: &'a IndexMap<PieceKey, Piece>, key: &PieceKey) -> (found: Option<&'a Piece>)
    ensures
        found == if entries(*m).contains_key(key@) {
            Some(&entries(*m)[key@])
        } else {
            None
        },
{
    m.get(key)
}

/// Number of pieces in the catalog.
pub const NUM_PIECES: usize = 15;

/// The center-relative cell with the given coordinates.
pub open spec fn rel(y: int, r: int, g: int) -> RelYRG {
    RelYRG { y: y as i8, r: r as i8, g: g as i8 }
}

/// The name of the piece with number `i`.
pub open spec fn piece_name(i: int) -> Seq<char> {
    if i == 0 {
        seq!['H', 'R']
    } else if i == 1 {
        seq!['i', '1']
    } else if i == 2 {
        seq!['i', '2']
    } else if i == 3 {
        seq!['W', '1']
    } else if i == 4 {
        seq!['W', '2']
    } else if i == 5 {
        seq!['P', '1']
    } else if i == 6 {
        seq!['P', '2']
    } else if i == 7 {
        seq!['V', 'B']
    } else if i == 8 {
        seq!['J', '1']
    } else if i == 9 {
        seq!['J', '2']
    } else if i == 10 {
        seq!['L', '1']
    } else if i == 11 {
        seq!['L', '2']
    } else if i == 12 {
        seq!['T', 'W']
    } else if i == 13 {
        seq!['T', 'O']
    } else {
        seq!['T', 'Y']
    }
}

/// The color of the piece with number `i`.
pub open spec fn piece_color(i: int) -> Colors {
    if i == 0 {
        Colors::Red
    } else if i == 1 {
        Colors::Red
    } else if i == 2 {
        Colors::Red
    } else if i == 3 {
        Colors::Black
    } else if i == 4 {
        Colors::Black
    } else if i == 5 {
        Colors::Red
    } else if i == 6 {
        Colors::Red
    } else if i == 7 {
        Colors::Black
    } else if i == 8 {
        Colors::Orange
    } else if i == 9 {
        Colors::Orange
    } else if i == 10 {
        Colors::Yellow
    } else if i == 11 {
        Colors::Yellow
    } else if i == 12 {
        Colors::White
    } else if i == 13 {
        Colors::Orange
    } else {
        Colors::Yellow
    }
}

/// The largest angle of the piece with number `i`.
pub open spec fn piece_max_rot(i: int) -> i32 {
    if i == 0 {
        0
    } else if i == 1 {
        120
    } else if i == 2 {
        120
    } else if i == 3 {
        300
    } else if i == 4 {
        300
    } else if i == 5 {
        300
    } else if i == 6 {
        300
    } else if i == 7 {
        300
    } else if i == 8 {
        300
    } else if i == 9 {
        300
    } else if i == 10 {
        300
    } else if i == 11 {
        300
    } else if i == 12 {
        0
    } else if i == 13 {
        300
    } else {
        300
    }
}

/// The cells of the piece with number `i` as it is drawn on the board,
/// relative to the center of the board.
pub open spec fn piece_cells(i: int) -> Seq<RelYRG> {
    if i == 0 {
        seq![rel(0, 0, 0), rel(0, 0, 1), rel(0, 1, 0), rel(1, 1, 1), rel(1, 1, 0), rel(1, 0, 1)]
    } else if i == 1 {
        seq![rel(0, -1, 0), rel(0, -1, 1), rel(0, 0, 0), rel(0, 0, 1), rel(0, 1, 0), rel(0, 1, 1)]
    } else if i == 2 {
        seq![rel(0, -1, 1), rel(0, 0, 0), rel(0, 0, 1), rel(0, 1, 0), rel(0, 1, 1), rel(0, 2, 0)]
    } else if i == 3 {
        seq![rel(1, 1, 0), rel(1, 0, 1), rel(1, 0, 0), rel(0, 0, 0), rel(0, 0, 1), rel(0, 1, 0)]
    } else if i == 4 {
        seq![rel(0, 0, 0), rel(0, 0, 1), rel(0, 1, 0), rel(1, 2, 0), rel(1, 1, 1), rel(1, 1, 0)]
    } else if i == 5 {
        seq![rel(0, 0, 1), rel(0, 1, 0), rel(0, 1, 1), rel(0, 2, 0), rel(0, 2, 1), rel(1, 2, 1)]
    } else if i == 6 {
        seq![rel(1, 1, 1), rel(0, 0, 1), rel(0, 1, 0), rel(0, 1, 1), rel(0, 2, 0), rel(0, 2, 1)]
    } else if i == 7 {
        seq![rel(1, 0, 0), rel(1, 0, 1), rel(0, 0, 0), rel(0, 0, 1), rel(0, 1, 0), rel(0, 1, 1)]
    } else if i == 8 {
        seq![rel(0, 0, 1), rel(0, 1, 0), rel(0, 1, 1), rel(0, 2, 0), rel(1, 2, 1), rel(1, 2, 0)]
    } else if i == 9 {
        seq![rel(1, 1, 0), rel(1, 0, 1), rel(0, 0, 0), rel(0, 0, 1), rel(0, 1, 0), rel(0, 1, 1)]
    } else if i == 10 {
        seq![rel(0, 0, 0), rel(0, 0, 1), rel(0, 1, 0), rel(0, 1, 1), rel(0, 2, 0), rel(1, 2, 1)]
    } else if i == 11 {
        seq![rel(1, 0, 1), rel(0, 0, 0), rel(0, 0, 1), rel(0, 1, 0), rel(0, 1, 1), rel(0, 2, 0)]
    } else if i == 12 {
        seq![rel(0, 0, 0), rel(0, 0, 1), rel(0, 1, 0)]
    } else if i == 13 {
        seq![rel(0, 0, 0), rel(0, 0, 1), rel(0, 1, 0)]
    } else {
        seq![rel(0, 0, 0), rel(0, 0, 1), rel(0, 1, 0)]
    }
}

/// The piece with number `i`, with its cells as drawn and no shape prepared.
fn definition(i: usize) -> (piece: Piece)
    requires
        i < NUM_PIECES,
    ensures
        piece.key@ == piece_name(i as int),
        piece.color == piece_color(i as int),
        piece.max_rot == piece_max_rot(i as int),
        piece.shapes@.dom() == set![0i32],
        piece.shapes@[0]@.cells == piece_cells(i as int),
{
    if i == 0 {
        proof {
            reveal_strlit("HR");
        }
        Piece::new(
            Piece::to_key("HR"),
            Colors::Red,
            0,
            vec![
                RelYRG { y: 0, r: 0, g: 0 },
                RelYRG { y: 0, r: 0, g: 1 },
                RelYRG { y: 0, r: 1, g: 0 },
                RelYRG { y: 1, r: 1, g: 1 },
                RelYRG { y: 1, r: 1, g: 0 },
                RelYRG { y: 1, r: 0, g: 1 },
            ],
        )
    } else if i == 1 {
        proof {
            reveal_strlit("i1");
        }
        Piece::new(
            Piece::to_key("i1"),
            Colors::Red,
            120,
            vec![
                RelYRG { y: 0, r: -1, g: 0 },
                RelYRG { y: 0, r: -1, g: 1 },
                RelYRG { y: 0, r: 0, g: 0 },
                RelYRG { y: 0, r: 0, g: 1 },
                RelYRG { y: 0, r: 1, g: 0 },
                RelYRG { y: 0, r: 1, g: 1 },
            ],
        )
    } else if i == 2 {
        proof {
            reveal_strlit("i2");
        }
        Piece::new(
            Piece::to_key("i2"),
            Colors::Red,
            120,
            vec![
                RelYRG { y: 0, r: -1, g: 1 },
                RelYRG { y: 0, r: 0, g: 0 },
                RelYRG { y: 0, r: 0, g: 1 },
                RelYRG { y: 0, r: 1, g: 0 },
                RelYRG { y: 0, r: 1, g: 1 },
                RelYRG { y: 0, r: 2, g: 0 },
            ],
        )
    } else if i == 3 {
        proof {
            reveal_strlit("W1");
        }
        Piece::new(
            Piece::to_key("W1"),
            Colors::Black,
            300,
            vec![
                RelYRG { y: 1, r: 1, g: 0 },
                RelYRG { y: 1, r: 0, g: 1 },
                RelYRG { y: 1, r: 0, g: 0 },
                RelYRG { y: 0, r: 0, g: 0 },
                RelYRG { y: 0, r: 0, g: 1 },
                RelYRG { y: 0, r: 1, g: 0 },
            ],
        )
    } else if i == 4 {
        proof {
            reveal_strlit("W2");
        }
        Piece::new(
            Piece::to_key("W2"),
            Colors::Black,
            300,
            vec![
                RelYRG { y: 0, r: 0, g: 0 },
                RelYRG { y: 0, r: 0, g: 1 },
                RelYRG { y: 0, r: 1, g: 0 },
                RelYRG { y: 1, r: 2, g: 0 },
                RelYRG { y: 1, r: 1, g: 1 },
                RelYRG { y: 1, r: 1, g: 0 },
            ],
        )
    } else if i == 5 {
        proof {
            reveal_strlit("P1");
        }
        Piece::new(
            Piece::to_key("P1"),
            Colors::Red,
            300,
            vec![
                RelYRG { y: 0, r: 0, g: 1 },
                RelYRG { y: 0, r: 1, g: 0 },
                RelYRG { y: 0, r: 1, g: 1 },
                RelYRG { y: 0, r: 2, g: 0 },
                RelYRG { y: 0, r: 2, g: 1 },
                RelYRG { y: 1, r: 2, g: 1 },
            ],
        )
    } else if i == 6 {
        proof {
            reveal_strlit("P2");
        }
        Piece::new(
            Piece::to_key("P2"),
            Colors::Red,
            300,
            vec![
                RelYRG { y: 1, r: 1, g: 1 },
                RelYRG { y: 0, r: 0, g: 1 },
                RelYRG { y: 0, r: 1, g: 0 },
                RelYRG { y: 0, r: 1, g: 1 },
                RelYRG { y: 0, r: 2, g: 0 },
                RelYRG { y: 0, r: 2, g: 1 },
            ],
        )
    } else if i == 7 {
        proof {
            reveal_strlit("VB");
        }
        Piece::new(
            Piece::to_key("VB"),
            Colors::Black,
            300,
            vec![
                RelYRG { y: 1, r: 0, g: 0 },
                RelYRG { y: 1, r: 0, g: 1 },
                RelYRG { y: 0, r: 0, g: 0 },
                RelYRG { y: 0, r: 0, g: 1 },
                RelYRG { y: 0, r: 1, g: 0 },
                RelYRG { y: 0, r: 1, g: 1 },
            ],
        )
    } else if i == 8 {
        proof {
            reveal_strlit("J1");
        }
        Piece::new(
            Piece::to_key("J1"),
            Colors::Orange,
            300,
            vec![
                RelYRG { y: 0, r: 0, g: 1 },
                RelYRG { y: 0, r: 1, g: 0 },
                RelYRG { y: 0, r: 1, g: 1 },
                RelYRG { y: 0, r: 2, g: 0 },
                RelYRG { y: 1, r: 2, g: 1 },
                RelYRG { y: 1, r: 2, g: 0 },
            ],
        )
    } else if i == 9 {
        proof {
            reveal_strlit("J2");
        }
        Piece::new(
            Piece::to_key("J2"),
            Colors::Orange,
            300,
            vec![
                RelYRG { y: 1, r: 1, g: 0 },
                RelYRG { y: 1, r: 0, g: 1 },
                RelYRG { y: 0, r: 0, g: 0 },
                RelYRG { y: 0, r: 0, g: 1 },
                RelYRG { y: 0, r: 1, g: 0 },
                RelYRG { y: 0, r: 1, g: 1 },
            ],
        )
    } else if i == 10 {
        proof {
            reveal_strlit("L1");
        }
        Piece::new(
            Piece::to_key("L1"),
            Colors::Yellow,
            300,
            vec![
                RelYRG { y: 0, r: 0, g: 0 },
                RelYRG { y: 0, r: 0, g: 1 },
                RelYRG { y: 0, r: 1, g: 0 },
                RelYRG { y: 0, r: 1, g: 1 },
                RelYRG { y: 0, r: 2, g: 0 },
                RelYRG { y: 1, r: 2, g: 1 },
            ],
        )
    } else if i == 11 {
        proof {
            reveal_strlit("L2");
        }
        Piece::new(
            Piece::to_key("L2"),
            Colors::Yellow,
            300,
            vec![
                RelYRG { y: 1, r: 0, g: 1 },
                RelYRG { y: 0, r: 0, g: 0 },
                RelYRG { y: 0, r: 0, g: 1 },
                RelYRG { y: 0, r: 1, g: 0 },
                RelYRG { y: 0, r: 1, g: 1 },
                RelYRG { y: 0, r: 2, g: 0 },
            ],
        )
    } else if i == 12 {
        proof {
            reveal_strlit("TW");
        }
        Piece::new(
            Piece::to_key("TW"),
            Colors::White,
            0,
            vec![
                RelYRG { y: 0, r: 0, g: 0 },
                RelYRG { y: 0, r: 0, g: 1 },
                RelYRG { y: 0, r: 1, g: 0 },
            ],
        )
    } else if i == 13 {
        proof {
            reveal_strlit("TO");
        }
        Piece::new(
            Piece::to_key("TO"),
            Colors::Orange,
            300,
            vec![
                RelYRG { y: 0, r: 0, g: 0 },
                RelYRG { y: 0, r: 0, g: 1 },
                RelYRG { y: 0, r: 1, g: 0 },
            ],
        )
    } else {
        proof {
            reveal_strlit("TY");
        }
        Piece::new(
            Piece::to_key("TY"),
            Colors::Yellow,
            300,
            vec![
                RelYRG { y: 0, r: 0, g: 0 },
                RelYRG { y: 0, r: 0, g: 1 },
                RelYRG { y: 0, r: 1, g: 0 },
            ],
        )
    }
}

/// Every piece of the catalog is drawn on the board.
pub proof fn lemma_pieces_on_board(i: int)
    requires
        0 <= i < NUM_PIECES,
    ensures
        piece_cells(i).len() > 0,
        all_on_board(piece_cells(i)),
{
}

/// No cell occurs twice in a piece of the catalog, and no piece has the
/// color of an empty cell.
pub proof fn lemma_pieces_distinct(i: int)
    requires
        0 <= i < NUM_PIECES,
    ensures
        distinct(piece_cells(i)),
        piece_color(i) != Colors::Empty,
        piece_color(i) != Colors::Invalid,
{
    let cells = piece_cells(i);
    assert forall|a: int, b: int| 0 <= a < b < cells.len() implies cells[a] != cells[b] by {
        assert(cells[a]@ != cells[b]@);
    }
}

/// Every shape of a piece of the catalog has the cells of the piece, none
/// of them twice, and the cells around them.
pub proof fn lemma_shape_cells(catalog: Map<Seq<char>, Piece>, i: int, angle: i32)
    requires
        is_catalog(catalog),
        0 <= i < NUM_PIECES,
        is_step(angle as int, piece_max_rot(i) as int),
    ensures
        catalog[piece_name(i)].shapes@.contains_key(angle),
        catalog[piece_name(i)].shapes@[angle]@.cells.len() == piece_cells(i).len(),
        distinct(catalog[piece_name(i)].shapes@[angle]@.cells),
        traceable(catalog[piece_name(i)].shapes@[angle]@.cells),
        catalog[piece_name(i)].shapes@[angle]@.adjacents == boundary(
            catalog[piece_name(i)].shapes@[angle]@.cells,
        ),
{
    let piece = catalog[piece_name(i)];
    assert(catalog.contains_key(piece_name(i)) && is_piece(piece, i));
    assert(shape_at(piece.shapes@, piece_cells(i), angle));
    let k = (angle / 60) as nat;
    lemma_pieces_on_board(i);
    lemma_pieces_distinct(i);
    lemma_turned_by_distinct(piece_cells(i), k);
    lemma_recentered_distinct(turned_by(piece_cells(i), k));
    lemma_on_board_recenters(turned_by(piece_cells(i), k));
}

/// Different numbers give pieces with different names.
pub proof fn lemma_names_differ(i: int, j: int)
    requires
        0 <= i < NUM_PIECES,
        0 <= j < NUM_PIECES,
        i != j,
    ensures
        piece_name(i) != piece_name(j),
{
}

/// The catalog: every piece by its name, with its shapes prepared.
#[derive(Debug)]
pub struct Pieces {
    pieces: IndexMap<PieceKey, Piece>,
}

impl View for Pieces {
    type V = Map<Seq<char>, Piece>;

    closed spec fn view(&self) -> Map<Seq<char>, Piece> {
        entries(self.pieces)
    }
}

/// Whether `piece` is the piece with number `i` of the catalog, with a
/// prepared shape at each of its angles and at no other.
pub open spec fn is_piece(piece: Piece, i: int) -> bool {
    &&& piece.key@ == piece_name(i)
    &&& piece.color == piece_color(i)
    &&& piece.max_rot == piece_max_rot(i)
    &&& piece.ready(piece_cells(i))
    &&& forall|a: i32| #[trigger]
        piece.shapes@.contains_key(a) <==> is_step(a as int, piece.max_rot as int)
}

/// The map holds the fifteen pieces, each under its name, and nothing else.
pub open spec fn is_catalog(catalog: Map<Seq<char>, Piece>) -> bool {
    &&& forall|i: int|
        0 <= i < NUM_PIECES ==> catalog.contains_key(#[trigger] piece_name(i)) && is_piece(
            catalog[piece_name(i)],
            i,
        )
    &&& forall|k: Seq<char>| #[trigger]
        catalog.contains_key(k) ==> exists|i: int|
            0 <= i < NUM_PIECES && #[trigger] piece_name(i) == k
}

impl Pieces {
    /// The catalog holds the fifteen pieces, each under its name, and
    /// nothing else.
    pub open spec fn wf(&self) -> bool {
        is_catalog(self@)
    }

    pub fn new(coords: &Coords) -> (pieces: Pieces)
        requires
            coords.wf(),
        ensures
            pieces.wf(),
    {
        let mut p_map = map_new();
        let mut i: usize = 0;
        while i < NUM_PIECES
            invariant
                i <= NUM_PIECES,
                coords.wf(),
                forall|j: int|
                    0 <= j < i ==> entries(p_map).contains_key(#[trigger] piece_name(j))
                        && is_piece(entries(p_map)[piece_name(j)], j),
                forall|k: Seq<char>| #[trigger]
                    entries(p_map).contains_key(k) ==> exists|j: int|
                        0 <= j < i && #[trigger] piece_name(j) == k,
            decreases NUM_PIECES - i,
        {
            let mut item = definition(i);
            proof {
                lemma_pieces_on_board(i as int);
                lemma_on_board_recenters(piece_cells(i as int));
            }
            item.precompute_shapes(coords);
            let ghost held = entries(p_map);
            map_insert(&mut p_map, item.key, item);
            proof {
                assert forall|j: int| 0 <= j < i + 1 implies entries(p_map).contains_key(
                    #[trigger] piece_name(j),
                ) && is_piece(entries(p_map)[piece_name(j)], j) by {
                    if j < i {
                        lemma_names_differ(j, i as int);
                        assert(held.contains_key(piece_name(j)));
                    }
                }
                assert forall|k: Seq<char>| #[trigger]
                    entries(p_map).contains_key(k) implies exists|j: int|
                    0 <= j < i + 1 && #[trigger] piece_name(j) == k by {
                    if k != piece_name(i as int) {
                        assert(held.contains_key(k));
                        let j = choose|j: int| 0 <= j < i && #[trigger] piece_name(j) == k;
                        assert(0 <= j < i + 1 && piece_name(j) == k);
                    }
                }
            }
            i += 1;
        }
        Pieces { pieces: p_map }
    }

    /// The piece with the given key, if the catalog has one.
    pub fn by_key(&self, key: &PieceKey) -> (found: Option<&Piece>)
        ensures
            found == if self@.contains_key(key@) {
                Some(&self@[key@])
            } else {
                None
            },
    {
        map_get(&self.pieces, key)
    }

    /// The piece whose key is the first two characters of `key`, if the
    /// catalog has one.
    pub fn by_str(&self, key: &str) -> (found: Option<&Piece>)
        requires
            key@.len() >= 2,
        ensures
            found == if self@.contains_key(seq![key@[0], key@[1]]) {
                Some(&self@[seq![key@[0], key@[1]]])
            } else {
                None
            },
    {
        let k = Piece::to_key(key);
        map_get(&self.pieces, &k)
    }

    /// The pieces of the group with number `g`, in their order, if there
    /// is such a group.
    pub fn by_group(&self, g: usize) -> (group: Option<Vec<&Piece>>)
        requires
            self.wf(),
        ensures
            g >= NUM_GROUPS ==> group is None,
            g < NUM_GROUPS ==> group is Some && group->Some_0@.len() == group_members(
                g as int,
            ).len() && group->Some_0@.len() > 0 && forall|j: int|
                0 <= j < group->Some_0@.len() ==> is_piece(
                    *#[trigger] group->Some_0@[j],
                    group_members(g as int)[j],
                ),
    {
        if g == 0 {
            Some(vec![member(self, 0)])
        } else if g == 1 {
            Some(vec![member(self, 1), member(self, 2)])
        } else if g == 2 {
            Some(vec![member(self, 3), member(self, 4)])
        } else if g == 3 {
            Some(vec![member(self, 5), member(self, 6)])
        } else if g == 4 {
            Some(vec![member(self, 7)])
        } else if g == 5 {
            Some(vec![member(self, 8), member(self, 9)])
        } else if g == 6 {
            Some(vec![member(self, 10), member(self, 11)])
        } else if g == 7 {
            Some(vec![member(self, 12)])
        } else if g == 8 {
            Some(vec![member(self, 13)])
        } else if g == 9 || g == 10 {
            Some(vec![member(self, 14)])
        } else {
            None
        }
    }

    /// The enumeration of the sequences of choices, at its start.
    pub fn iter(&self, piece_selector: i32) -> (it: PiecesIteratorState<'_>)
        requires
            self.wf(),
            piece_selector < NUM_GROUPS,
        ensures
            it.wf(),
            it.listed(),
            it.index == 0,
            !it.done,
            it.over(groups_of(piece_selector as int)),
            it.wheels() == first_wheels(groups_of(piece_selector as int)),
            piece_selector < 0 ==> span(it.wheels()) == NUM_SEQUENCES,
    {
        PiecesIteratorState::new(self, piece_selector)
    }
}

/// The name of the piece with number `n`.
fn name_of(n: usize) -> (name: &'static str)
    requires
        n < NUM_PIECES,
    ensures
        name@ == piece_name(n as int),
{
    if n == 0 {
        proof {
            reveal_strlit("HR");
        }
        "HR"
    } else if n == 1 {
        proof {
            reveal_strlit("i1");
        }
        "i1"
    } else if n == 2 {
        proof {
            reveal_strlit("i2");
        }
        "i2"
    } else if n == 3 {
        proof {
            reveal_strlit("W1");
        }
        "W1"
    } else if n == 4 {
        proof {
            reveal_strlit("W2");
        }
        "W2"
    } else if n == 5 {
        proof {
            reveal_strlit("P1");
        }
        "P1"
    } else if n == 6 {
        proof {
            reveal_strlit("P2");
        }
        "P2"
    } else if n == 7 {
        proof {
            reveal_strlit("VB");
        }
        "VB"
    } else if n == 8 {
        proof {
            reveal_strlit("J1");
        }
        "J1"
    } else if n == 9 {
        proof {
            reveal_strlit("J2");
        }
        "J2"
    } else if n == 10 {
        proof {
            reveal_strlit("L1");
        }
        "L1"
    } else if n == 11 {
        proof {
            reveal_strlit("L2");
        }
        "L2"
    } else if n == 12 {
        proof {
            reveal_strlit("TW");
        }
        "TW"
    } else if n == 13 {
        proof {
            reveal_strlit("TO");
        }
        "TO"
    } else {
        proof {
            reveal_strlit("TY");
        }
        "TY"
    }
}

/// Number of groups of pieces. A tiling takes one piece of each group.
pub const NUM_GROUPS: usize = 11;

/// The numbers of the pieces of group `g`.
pub open spec fn group_members(g: int) -> Seq<int> {
    if g == 0 {
        seq![0int]
    } else if g == 1 {
        seq![1int, 2int]
    } else if g == 2 {
        seq![3int, 4int]
    } else if g == 3 {
        seq![5int, 6int]
    } else if g == 4 {
        seq![7int]
    } else if g == 5 {
        seq![8int, 9int]
    } else if g == 6 {
        seq![10int, 11int]
    } else if g == 7 {
        seq![12int]
    } else if g == 8 {
        seq![13int]
    } else if g == 9 {
        seq![14int]
    } else {
        seq![14int]
    }
}

/// The number of angles that a piece with the given largest angle takes:
/// 0, and every further 60 degrees until the largest angle is reached.
pub open spec fn rotation_steps(max_rot: int) -> int {
    if max_rot <= 0 {
        1
    } else {
        (max_rot - 1) / 60 + 2
    }
}

/// The number of choices of piece and angle in group `g`.
pub open spec fn group_choices(g: int) -> int {
    group_members(g).len() * rotation_steps(piece_max_rot(group_members(g)[0]) as int)
}

/// The number of sequences of choices for the first `g` groups.
pub open spec fn choices_before(g: int) -> int
    decreases g,
{
    if g <= 0 {
        1
    } else {
        choices_before(g - 1) * group_choices(g - 1)
    }
}

/// The number of choices in each group.
pub open spec fn choices_table(g: int) -> int {
    if g == 0 || g == 7 {
        1
    } else if g == 1 || g == 4 || g >= 8 {
        6
    } else {
        12
    }
}

/// A group offers one, six or twelve choices.
pub proof fn lemma_group_choices(g: int)
    requires
        0 <= g < NUM_GROUPS,
    ensures
        group_choices(g) == choices_table(g),
        0 < group_choices(g) <= 12,
{
    if g == 0 {
        assert(group_members(0).len() == 1);
        assert(group_members(0)[0] == 0);
        assert(rotation_steps(0) == 1);
    } else if g == 1 {
        assert(group_members(1).len() == 2);
        assert(group_members(1)[0] == 1);
        assert(rotation_steps(120) == 3);
    } else if g == 2 {
        assert(group_members(2).len() == 2);
        assert(group_members(2)[0] == 3);
        assert(rotation_steps(300) == 6);
    } else if g == 3 {
        assert(group_members(3).len() == 2);
        assert(group_members(3)[0] == 5);
        assert(rotation_steps(300) == 6);
    } else if g == 4 {
        assert(group_members(4).len() == 1);
        assert(group_members(4)[0] == 7);
        assert(rotation_steps(300) == 6);
    } else if g == 5 {
        assert(group_members(5).len() == 2);
        assert(group_members(5)[0] == 8);
        assert(rotation_steps(300) == 6);
    } else if g == 6 {
        assert(group_members(6).len() == 2);
        assert(group_members(6)[0] == 10);
        assert(rotation_steps(300) == 6);
    } else if g == 7 {
        assert(group_members(7).len() == 1);
        assert(group_members(7)[0] == 12);
        assert(rotation_steps(0) == 1);
    } else if g == 8 {
        assert(group_members(8).len() == 1);
        assert(group_members(8)[0] == 13);
        assert(rotation_steps(300) == 6);
    } else if g == 9 {
        assert(group_members(9).len() == 1);
        assert(group_members(9)[0] == 14);
        assert(rotation_steps(300) == 6);
    } else {
        assert(group_members(10).len() == 1);
        assert(group_members(10)[0] == 14);
        assert(rotation_steps(300) == 6);
    }
}

/// The number of sequences of choices for all groups.
pub const NUM_SEQUENCES: i32 = 161_243_136;

/// The eleven groups give 161,243,136 sequences of choices.
pub proof fn lemma_num_sequences()
    ensures
        choices_before(NUM_GROUPS as int) == NUM_SEQUENCES,
{
    assert(choices_before(0) == 1);
    lemma_group_choices(0);
    assert(choices_before(1) == 1 * 1);
    lemma_group_choices(1);
    assert(choices_before(2) == 1 * 6);
    lemma_group_choices(2);
    assert(choices_before(3) == 6 * 12);
    lemma_group_choices(3);
    assert(choices_before(4) == 72 * 12);
    lemma_group_choices(4);
    assert(choices_before(5) == 864 * 6);
    lemma_group_choices(5);
    assert(choices_before(6) == 5184 * 12);
    lemma_group_choices(6);
    assert(choices_before(7) == 62208 * 12);
    lemma_group_choices(7);
    assert(choices_before(8) == 746496 * 1);
    lemma_group_choices(8);
    assert(choices_before(9) == 746496 * 6);
    lemma_group_choices(9);
    assert(choices_before(10) == 4478976 * 6);
    lemma_group_choices(10);
    assert(choices_before(11) == 26873856 * 6);
}

/// The choice number `d` of group `g`: the choices of one piece follow each
/// other by angle, and the pieces follow each other.
pub open spec fn group_choice(g: int, d: int) -> Permutation {
    let steps = rotation_steps(piece_max_rot(group_members(g)[0]) as int);
    let name = piece_name(group_members(g)[d / steps]);
    Permutation { key: [name[0], name[1]], angle: (60 * (d % steps)) as i32 }
}

/// The groups of an enumeration: all of them, in order, if the selector is
/// negative, else the one group that it names.
pub open spec fn groups_of(piece_selector: int) -> Seq<int> {
    if piece_selector < 0 {
        Seq::new(NUM_GROUPS as nat, |g: int| g)
    } else {
        seq![piece_selector]
    }
}

/// The choices that a counter over the groups `gs` stands on.
pub open spec fn choices(gs: Seq<int>, ws: Seq<Wheel>) -> Seq<Permutation> {
    Seq::new(gs.len(), |i: int| group_choice(gs[i], ws[i].digit))
}

/// The counter over the groups `gs` at its start.
pub open spec fn first_wheels(gs: Seq<int>) -> Seq<Wheel> {
    Seq::new(gs.len(), |i: int| Wheel { digit: 0, radix: group_choices(gs[i]) })
}

/// The pieces of a group are pieces of the catalog with the same largest
/// angle, a multiple of 60.
pub proof fn lemma_group_uniform(g: int, j: int)
    requires
        0 <= g < NUM_GROUPS,
        0 <= j < group_members(g).len(),
    ensures
        0 <= group_members(g)[j] < NUM_PIECES,
        piece_max_rot(group_members(g)[j]) == piece_max_rot(group_members(g)[0]),
        piece_max_rot(group_members(g)[0]) % 60 == 0,
        0 <= piece_max_rot(group_members(g)[0]) <= 300,
{
}

/// Whether the choice is a piece of group `g` at one of its angles.
pub open spec fn from_group(perm: Permutation, g: int) -> bool {
    exists|j: int|
        0 <= j < group_members(g).len() && perm.key@ == #[trigger] piece_name(group_members(g)[j])
            && is_step(perm.angle as int, piece_max_rot(group_members(g)[j]) as int)
}

/// The number of cells of each piece of group `g`.
pub open spec fn group_cells(g: int) -> nat {
    piece_cells(group_members(g)[0]).len()
}

/// The number of cells of one piece from each of the groups from `g` on.
pub open spec fn cells_from(g: int) -> nat
    decreases NUM_GROUPS - g,
{
    if g >= NUM_GROUPS {
        0
    } else {
        group_cells(g) + cells_from(g + 1)
    }
}

/// The pieces of a group have the same number of cells.
pub proof fn lemma_group_cells(g: int, j: int)
    requires
        0 <= g < NUM_GROUPS,
        0 <= j < group_members(g).len(),
    ensures
        piece_cells(group_members(g)[j]).len() == group_cells(g),
{
}

/// One piece from each group has as many cells as the board: 54.
pub proof fn lemma_cells_of_all_groups()
    ensures
        cells_from(0) == 54,
{
    assert(cells_from(11) == 0);
    assert(group_cells(10) == 3);
    assert(cells_from(10) == 3);
    assert(group_cells(9) == 3);
    assert(cells_from(9) == 6);
    assert(group_cells(8) == 3);
    assert(cells_from(8) == 9);
    assert(group_cells(7) == 3);
    assert(cells_from(7) == 12);
    assert(group_cells(6) == 6);
    assert(cells_from(6) == 18);
    assert(group_cells(5) == 6);
    assert(cells_from(5) == 24);
    assert(group_cells(4) == 6);
    assert(cells_from(4) == 30);
    assert(group_cells(3) == 6);
    assert(cells_from(3) == 36);
    assert(group_cells(2) == 6);
    assert(cells_from(2) == 42);
    assert(group_cells(1) == 6);
    assert(cells_from(1) == 48);
    assert(group_cells(0) == 6);
    assert(cells_from(0) == 54);
}

/// Every choice of a group is a piece of the group at one of its angles.
pub proof fn lemma_choice_from_group(g: int, d: int)
    requires
        0 <= g < NUM_GROUPS,
        0 <= d < group_choices(g),
    ensures
        from_group(group_choice(g, d), g),
{
    lemma_group_choices(g);
    let steps = rotation_steps(piece_max_rot(group_members(g)[0]) as int);
    let j = d / steps;
    if g == 0 {
        assert(group_members(0).len() == 1);
        assert(rotation_steps(0) == 1);
        assert(0 <= d / 1 < 1);
    } else if g == 1 {
        assert(group_members(1).len() == 2);
        assert(rotation_steps(120) == 3);
        assert(0 <= d / 3 < 2);
    } else if g == 2 {
        assert(group_members(2).len() == 2);
        assert(rotation_steps(300) == 6);
        assert(0 <= d / 6 < 2);
    } else if g == 3 {
        assert(group_members(3).len() == 2);
        assert(rotation_steps(300) == 6);
        assert(0 <= d / 6 < 2);
    } else if g == 4 {
        assert(group_members(4).len() == 1);
        assert(rotation_steps(300) == 6);
        assert(0 <= d / 6 < 1);
    } else if g == 5 {
        assert(group_members(5).len() == 2);
        assert(rotation_steps(300) == 6);
        assert(0 <= d / 6 < 2);
    } else if g == 6 {
        assert(group_members(6).len() == 2);
        assert(rotation_steps(300) == 6);
        assert(0 <= d / 6 < 2);
    } else if g == 7 {
        assert(group_members(7).len() == 1);
        assert(rotation_steps(0) == 1);
        assert(0 <= d / 1 < 1);
    } else if g == 8 {
        assert(group_members(8).len() == 1);
        assert(rotation_steps(300) == 6);
        assert(0 <= d / 6 < 1);
    } else if g == 9 {
        assert(group_members(9).len() == 1);
        assert(rotation_steps(300) == 6);
        assert(0 <= d / 6 < 1);
    } else {
        assert(group_members(10).len() == 1);
        assert(rotation_steps(300) == 6);
        assert(0 <= d / 6 < 1);
    }
    lemma_group_uniform(g, j);
    let perm = group_choice(g, d);
    let name = piece_name(group_members(g)[j]);
    assert(perm.key@ =~= name);
    assert(is_step(perm.angle as int, piece_max_rot(group_members(g)[j]) as int));
}

/// Different choices of a group differ in the piece or in the angle.
pub proof fn lemma_choices_differ(g: int, d1: int, d2: int)
    requires
        0 <= g < NUM_GROUPS,
        0 <= d1 < d2 < group_choices(g),
    ensures
        group_choice(g, d1) != group_choice(g, d2),
{
    lemma_group_choices(g);
    let steps = rotation_steps(piece_max_rot(group_members(g)[0]) as int);
    let j1 = d1 / steps;
    let j2 = d2 / steps;
    if g == 0 {
        assert(group_members(0).len() == 1);
        assert(rotation_steps(0) == 1);
        assert(0 <= d1 / 1 < 1 && 0 <= d2 / 1 < 1);
        assert(d1 / 1 != d2 / 1 || d1 % 1 != d2 % 1);
    } else if g == 1 {
        assert(group_members(1).len() == 2);
        assert(rotation_steps(120) == 3);
        assert(0 <= d1 / 3 < 2 && 0 <= d2 / 3 < 2);
        assert(d1 / 3 != d2 / 3 || d1 % 3 != d2 % 3);
    } else if g == 2 {
        assert(group_members(2).len() == 2);
        assert(rotation_steps(300) == 6);
        assert(0 <= d1 / 6 < 2 && 0 <= d2 / 6 < 2);
        assert(d1 / 6 != d2 / 6 || d1 % 6 != d2 % 6);
    } else if g == 3 {
        assert(group_members(3).len() == 2);
        assert(rotation_steps(300) == 6);
        assert(0 <= d1 / 6 < 2 && 0 <= d2 / 6 < 2);
        assert(d1 / 6 != d2 / 6 || d1 % 6 != d2 % 6);
    } else if g == 4 {
        assert(group_members(4).len() == 1);
        assert(rotation_steps(300) == 6);
        assert(0 <= d1 / 6 < 1 && 0 <= d2 / 6 < 1);
        assert(d1 / 6 != d2 / 6 || d1 % 6 != d2 % 6);
    } else if g == 5 {
        assert(group_members(5).len() == 2);
        assert(rotation_steps(300) == 6);
        assert(0 <= d1 / 6 < 2 && 0 <= d2 / 6 < 2);
        assert(d1 / 6 != d2 / 6 || d1 % 6 != d2 % 6);
    } else if g == 6 {
        assert(group_members(6).len() == 2);
        assert(rotation_steps(300) == 6);
        assert(0 <= d1 / 6 < 2 && 0 <= d2 / 6 < 2);
        assert(d1 / 6 != d2 / 6 || d1 % 6 != d2 % 6);
    } else if g == 7 {
        assert(group_members(7).len() == 1);
        assert(rotation_steps(0) == 1);
        assert(0 <= d1 / 1 < 1 && 0 <= d2 / 1 < 1);
        assert(d1 / 1 != d2 / 1 || d1 % 1 != d2 % 1);
    } else if g == 8 {
        assert(group_members(8).len() == 1);
        assert(rotation_steps(300) == 6);
        assert(0 <= d1 / 6 < 1 && 0 <= d2 / 6 < 1);
        assert(d1 / 6 != d2 / 6 || d1 % 6 != d2 % 6);
    } else if g == 9 {
        assert(group_members(9).len() == 1);
        assert(rotation_steps(300) == 6);
        assert(0 <= d1 / 6 < 1 && 0 <= d2 / 6 < 1);
        assert(d1 / 6 != d2 / 6 || d1 % 6 != d2 % 6);
    } else {
        assert(group_members(10).len() == 1);
        assert(rotation_steps(300) == 6);
        assert(0 <= d1 / 6 < 1 && 0 <= d2 / 6 < 1);
        assert(d1 / 6 != d2 / 6 || d1 % 6 != d2 % 6);
    }
    lemma_group_uniform(g, j1);
    lemma_group_uniform(g, j2);
    if j1 != j2 {
        let m1 = group_members(g)[j1];
        let m2 = group_members(g)[j2];
        assert(m1 != m2);
        lemma_names_differ(m1, m2);
        assert(group_choice(g, d1).key@ =~= piece_name(m1));
        assert(group_choice(g, d2).key@ =~= piece_name(m2));
    } else {
        assert(group_choice(g, d1).angle != group_choice(g, d2).angle);
    }
}

/// Counters over groups of the catalog that stand on the same sequence of
/// choices stand on the same positions.
pub proof fn lemma_same_choices(gs: Seq<int>, a: Seq<Wheel>, b: Seq<Wheel>)
    requires
        a.len() == gs.len(),
        b.len() == gs.len(),
        forall|i: int| 0 <= i < gs.len() ==> 0 <= #[trigger] gs[i] < NUM_GROUPS,
        forall|i: int| 0 <= i < gs.len() ==> 0 <= (#[trigger] a[i]).digit < group_choices(gs[i]),
        forall|i: int| 0 <= i < gs.len() ==> 0 <= (#[trigger] b[i]).digit < group_choices(gs[i]),
        choices(gs, a) == choices(gs, b),
    ensures
        forall|i: int| 0 <= i < gs.len() ==> (#[trigger] a[i]).digit == b[i].digit,
{
    assert forall|i: int| 0 <= i < gs.len() implies (#[trigger] a[i]).digit == b[i].digit by {
        assert(choices(gs, a)[i] == group_choice(gs[i], a[i].digit));
        assert(choices(gs, b)[i] == group_choice(gs[i], b[i].digit));
        assert(0 <= gs[i] < NUM_GROUPS);
        assert(0 <= b[i].digit < group_choices(gs[i]));
        if a[i].digit < b[i].digit {
            lemma_choices_differ(gs[i], a[i].digit, b[i].digit);
        } else if b[i].digit < a[i].digit {
            lemma_choices_differ(gs[i], b[i].digit, a[i].digit);
        }
    }
}

/// No sequence of choices is given out twice: the enumeration over all
/// groups stands on different sequences after different numbers of steps.
pub proof fn lemma_sequences_differ(n1: nat, n2: nat)
    requires
        n1 < n2 < NUM_SEQUENCES,
    ensures
        choices(groups_of(-1), advanced_by(first_wheels(groups_of(-1)), n1)) != choices(
            groups_of(-1),
            advanced_by(first_wheels(groups_of(-1)), n2),
        ),
{
    let gs = groups_of(-1);
    let ws = first_wheels(gs);
    let a = advanced_by(ws, n1);
    let b = advanced_by(ws, n2);
    lemma_first_wheels(gs);
    lemma_all_sequences(n1);
    lemma_all_sequences(n2);
    lemma_advanced_by(ws, n1);
    lemma_advanced_by(ws, n2);
    if choices(gs, a) == choices(gs, b) {
        lemma_same_choices(gs, a, b);
        assert(a =~= b);
    }
}

/// The piece with number `n` in the catalog.
fn member(pieces: &Pieces, n: usize) -> (piece: &Piece)
    requires
        pieces.wf(),
        n < NUM_PIECES,
    ensures
        is_piece(*piece, n as int),
{
    let name = name_of(n);
    pieces.by_str(name).unwrap()
}

/// Whether the piece has the name of a piece of the catalog whose largest
/// angle is `max_rot`.
pub open spec fn named(piece: Piece, max_rot: i32) -> bool {
    exists|n: int|
        0 <= n < NUM_PIECES && piece.key@ == #[trigger] piece_name(n) && piece_max_rot(n)
            == max_rot
}

/// The place of one group in the enumeration: the pieces of the group, and
/// the piece and the angle of the current choice.
#[derive(Debug)]
pub struct PieceIteratorState<'a> {
    pub pieces: Vec<&'a Piece>,
    pub max_rot: i32,
    pub p_index: usize,
    pub r_index: i32,
}

impl<'a> PieceIteratorState<'a> {
    /// The current piece is one of the group, and the current angle is one
    /// of the angles that the group takes.
    pub open spec fn wf(&self) -> bool {
        &&& self.pieces@.len() > 0
        &&& self.p_index < self.pieces@.len()
        &&& 0 <= self.r_index
        &&& self.r_index % 60 == 0
        &&& self.r_index / 60 < rotation_steps(self.max_rot as int)
        &&& self.max_rot <= i32::MAX - 60
    }

    /// The group as a wheel of the counter: the choices of one piece follow
    /// each other by angle, and the pieces follow each other.
    pub open spec fn wheel(&self) -> Wheel {
        Wheel {
            digit: self.p_index * rotation_steps(self.max_rot as int) + self.r_index / 60,
            radix: self.pieces@.len() * rotation_steps(self.max_rot as int),
        }
    }

    /// The current choice.
    pub open spec fn choice(&self) -> Permutation {
        Permutation { key: self.pieces@[self.p_index as int].key, angle: self.r_index }
    }

    /// The pieces are those of group `g`, which takes the angles of its
    /// first piece.
    pub open spec fn holds_group(&self, g: int) -> bool {
        &&& 0 <= g < NUM_GROUPS
        &&& self.pieces@.len() == group_members(g).len()
        &&& forall|j: int|
            0 <= j < self.pieces@.len() ==> is_piece(
                *#[trigger] self.pieces@[j],
                group_members(g)[j],
            )
        &&& self.max_rot == piece_max_rot(group_members(g)[0])
    }

    /// The pieces are those of group `g`, and the choice is the first one.
    pub open spec fn starts_group(&self, g: int) -> bool {
        &&& self.holds_group(g)
        &&& self.p_index == 0
        &&& self.r_index == 0
    }

    /// Every piece of the group is a piece of the catalog that takes the
    /// angles of the group, and these are multiples of 60.
    pub open spec fn listed(&self) -> bool {
        &&& self.max_rot % 60 == 0
        &&& forall|j: int|
            0 <= j < self.pieces@.len() ==> named(*#[trigger] self.pieces@[j], self.max_rot)
    }

    /// The place at the first choice of a group: its first piece at angle 0.
    /// The group takes the angles of its first piece.
    pub fn new(p: Vec<&'a Piece>) -> (s: PieceIteratorState<'a>)
        requires
            p@.len() > 0,
            p@[0].max_rot <= i32::MAX - 60,
        ensures
            s.wf(),
            s.pieces@ == p@,
            s.max_rot == p@[0].max_rot,
            s.p_index == 0,
            s.r_index == 0,
    {
        let rot = p[0].max_rot;
        PieceIteratorState { pieces: p, max_rot: rot, p_index: 0, r_index: 0 }
    }

    pub fn current(&self) -> (perm: Permutation)
        requires
            self.p_index < self.pieces@.len(),
        ensures
            perm == self.choice(),
    {
        let p = self.pieces[self.p_index];
        Permutation { key: p.key, angle: self.r_index }
    }

    /// Goes to the next choice: the next angle of the piece, else the next
    /// piece at angle 0, else the first choice again. Returns whether it
    /// went back to the first choice.
    pub fn inc(&mut self) -> (carry: bool)
        requires
            old(self).wf(),
        ensures
            final(self).wf(),
            final(self).pieces == old(self).pieces,
            final(self).max_rot == old(self).max_rot,
            final(self).wheel().radix == old(self).wheel().radix,
            0 <= old(self).wheel().digit < old(self).wheel().radix,
            carry <==> old(self).wheel().digit + 1 == old(self).wheel().radix,
            final(self).wheel().digit == if carry {
                0
            } else {
                old(self).wheel().digit + 1
            },
    {
        let ghost steps = rotation_steps(self.max_rot as int);
        let ghost p = self.p_index as int;
        let ghost q = self.r_index as int / 60;
        let ghost len = self.pieces@.len() as int;
        proof {
            assert(0 <= p * steps + q < len * steps) by (nonlinear_arith)
                requires
                    0 <= p < len,
                    0 <= q < steps,
            ;
        }
        if self.r_index < self.max_rot {
            self.r_index += 60;
            proof {
                assert(p * steps + q + 1 < len * steps) by (nonlinear_arith)
                    requires
                        0 <= p < len,
                        0 <= q + 1 < steps,
                ;
            }
            false
        } else if self.p_index < self.pieces.len() - 1 {
            self.p_index += 1;
            self.r_index = 0;
            proof {
                assert((p + 1) * steps + 0 == p * steps + q + 1) by (nonlinear_arith)
                    requires
                        q == steps - 1,
                ;
                assert((p + 1) * steps + 0 < len * steps) by (nonlinear_arith)
                    requires
                        0 <= p + 1 < len,
                        0 < steps,
                ;
            }
            false
        } else {
            self.p_index = 0;
            self.r_index = 0;
            proof {
                assert(p * steps + q + 1 == len * steps) by (nonlinear_arith)
                    requires
                        q == steps - 1,
                        p == len - 1,
                ;
                assert(0 * steps + 0 == 0) by (nonlinear_arith);
            }
            true
        }
    }
}

/// The place of the enumeration of the sequences of choices: one place for
/// each group, the number of sequences given out, and whether all have
/// been given out.
#[derive(Debug)]
pub struct PiecesIteratorState<'a> {
    pub state: Vec<PieceIteratorState<'a>>,
    pub index: i32,
    pub done: bool,
}

/// The wheels of the groups.
pub open spec fn wheels_of(state: Seq<PieceIteratorState>) -> Seq<Wheel> {
    Seq::new(state.len(), |i: int| state[i].wheel())
}

/// The current choices of the groups.
pub open spec fn choices_of(state: Seq<PieceIteratorState>) -> Seq<Permutation> {
    Seq::new(state.len(), |i: int| state[i].choice())
}

/// Whether the catalog has the piece of the choice, with a shape at the
/// angle of the choice.
pub open spec fn offered(perm: Permutation) -> bool {
    exists|n: int|
        0 <= n < NUM_PIECES && perm.key@ == #[trigger] piece_name(n) && is_step(
            perm.angle as int,
            piece_max_rot(n) as int,
        )
}

impl<'a> PiecesIteratorState<'a> {
    /// The counter of the enumeration.
    pub open spec fn wheels(&self) -> Seq<Wheel> {
        wheels_of(self.state@)
    }

    /// There is a group, every group stands on one of its choices, and
    /// the number of sequences given out is the number that the counter
    /// shows, or the number of all sequences once all are given out.
    pub open spec fn wf(&self) -> bool {
        &&& self.state@.len() > 0
        &&& forall|i: int| 0 <= i < self.state@.len() ==> (#[trigger] self.state@[i]).wf()
        &&& span(self.wheels()) <= i32::MAX
        &&& if self.done {
            self.index == span(self.wheels()) && value(self.wheels()) == 0
        } else {
            self.index == value(self.wheels())
        }
    }

    /// Every group consists of pieces of the catalog.
    pub open spec fn listed(&self) -> bool {
        forall|i: int| 0 <= i < self.state@.len() ==> (#[trigger] self.state@[i]).listed()
    }

    /// Every group stands on its first choice: its first piece at angle 0.
    pub open spec fn at_start(&self) -> bool {
        forall|i: int|
            0 <= i < self.state@.len() ==> (#[trigger] self.state@[i]).p_index == 0
                && self.state@[i].r_index == 0
    }

    /// The enumeration runs over the groups `gs`, in this order.
    pub open spec fn over(&self, gs: Seq<int>) -> bool {
        &&& self.state@.len() == gs.len()
        &&& forall|i: int|
            0 <= i < self.state@.len() ==> (#[trigger] self.state@[i]).holds_group(gs[i])
    }

    /// The enumeration at its start: over all groups, in their order, if
    /// `piece_selector` is negative, else over the group with that number
    /// alone.
    pub fn new(pieces: &'a Pieces, piece_selector: i32) -> (it: PiecesIteratorState<'a>)
        requires
            pieces.wf(),
            piece_selector < NUM_GROUPS,
        ensures
            it.wf(),
            it.listed(),
            it.index == 0,
            !it.done,
            it.over(groups_of(piece_selector as int)),
            it.wheels() == first_wheels(groups_of(piece_selector as int)),
            piece_selector < 0 ==> span(it.wheels()) == NUM_SEQUENCES,
            piece_selector >= 0 ==> span(it.wheels()) == group_choices(piece_selector as int),
    {
        let mut state: Vec<PieceIteratorState<'a>> = Vec::new();
        let mut g: usize = 0;
        proof {
            lemma_num_sequences();
        }
        while g < NUM_GROUPS
            invariant
                g <= NUM_GROUPS,
                pieces.wf(),
                state@.len() == g,
                forall|i: int| 0 <= i < g ==> (#[trigger] state@[i]).starts_group(i),
                forall|i: int| 0 <= i < g ==> (#[trigger] state@[i]).wf(),
                forall|i: int| 0 <= i < g ==> (#[trigger] state@[i]).listed(),
                span(wheels_of(state@)) == choices_before(g as int),
                value(wheels_of(state@)) == 0,
            decreases NUM_GROUPS - g,
        {
            let group = pieces.by_group(g).unwrap();
            let place = PieceIteratorState::new(group);
            let ghost before = state@;
            state.push(place);
            proof {
                assert(wheels_of(state@).drop_last() =~= wheels_of(before));
                assert(place.wheel().digit == 0) by (nonlinear_arith)
                    requires
                        place.wheel().digit == 0 * rotation_steps(place.max_rot as int) + 0int / 60,
                ;
                assert(value(wheels_of(before)) * place.wheel().radix + 0 == 0) by (nonlinear_arith)
                    requires
                        value(wheels_of(before)) == 0,
                ;
            }
            g += 1;
        }
        if piece_selector >= 0 {
            let chosen = state.swap_remove(piece_selector as usize);
            let mut only: Vec<PieceIteratorState<'a>> = Vec::new();
            only.push(chosen);
            proof {
                assert(chosen.wheel().digit == 0) by (nonlinear_arith)
                    requires
                        chosen.wheel().digit == 0 * rotation_steps(chosen.max_rot as int) + 0int
                            / 60,
                ;
                assert(span(wheels_of(only@).drop_last()) == 1);
                assert(value(wheels_of(only@).drop_last()) == 0);
                lemma_group_choices(piece_selector as int);
            }
            state = only;
        }
        let it = PiecesIteratorState { state, index: 0, done: false };
        proof {
            let gs = groups_of(piece_selector as int);
            lemma_over(it, gs);
            assert forall|i: int| 0 <= i < gs.len() implies (#[trigger] it.wheels()[i]).digit
                == 0 by {
                let place = it.state@[i];
                assert(0 * rotation_steps(place.max_rot as int) + 0int / 60 == 0)
                    by (nonlinear_arith);
            }
        }
        it
    }

    /// Gives out the current sequence of choices, numbered from 1, and
    /// goes to the next one: the last group goes to its next choice, and a
    /// group that returns to its first choice makes the group before it go
    /// on. When the first group returns to its first choice, all sequences
    /// have been given out and every group stands on its first choice
    /// again. The next call then gives `None`, once, and leaves the
    /// enumeration as at its start: the call after it gives the first
    /// sequence again, numbered 1.
    pub fn next(&mut self) -> (res: Option<Permutations>)
        requires
            old(self).wf(),
        ensures
            final(self).wf(),
            old(self).done ==> {
                &&& res is None
                &&& !final(self).done
                &&& final(self).index == 0
                &&& final(self).state@ == old(self).state@
                &&& final(self).at_start()
            },
            !old(self).done ==> {
                &&& res is Some
                &&& res->Some_0@.perms == choices_of(old(self).state@)
                &&& res->Some_0@.index == old(self).index + 1
                &&& final(self).index == old(self).index + 1
                &&& final(self).wheels() == advanced(old(self).wheels()).0
                &&& final(self).done == advanced(old(self).wheels()).1
            },
            final(self).state@.len() == old(self).state@.len(),
            forall|i: int|
                0 <= i < old(self).state@.len() ==> (#[trigger] final(self).state@[i]).pieces
                    == old(self).state@[i].pieces && final(self).state@[i].max_rot
                    == old(self).state@[i].max_rot,
            old(self).listed() ==> final(self).listed(),
            forall|gs: Seq<int>| #[trigger] old(self).over(gs) ==> final(self).over(gs),
            old(self).listed() && res is Some ==> forall|i: int|
                0 <= i < res->Some_0@.perms.len() ==> offered(#[trigger] res->Some_0@.perms[i]),
    {
        proof {
            if old(self).listed() {
                lemma_choices_offered(old(self).state@);
            }
        }
        if self.done {
            proof {
                lemma_done_at_start(*self);
            }
            self.done = false;
            self.index = 0;
            return None;
        }
        let mut perms: Vec<Permutation> = Vec::new();
        let mut k: usize = 0;
        while k < self.state.len()
            invariant
                k <= self.state@.len(),
                self.state@ == old(self).state@,
                forall|i: int| 0 <= i < self.state@.len() ==> (#[trigger] self.state@[i]).wf(),
                perms@ == choices_of(self.state@).take(k as int),
            decreases self.state@.len() - k,
        {
            perms.push(self.state[k].current());
            assert(perms@ =~= choices_of(self.state@).take(k + 1));
            k += 1;
        }
        assert(choices_of(self.state@).take(self.state@.len() as int) =~= choices_of(self.state@));
        proof {
            lemma_value_bounds_of(old(self).state@);
        }
        self.index += 1;
        let result = Some(Permutations { perms, index: self.index });

        let ghost orig = old(self).wheels();
        let mut carry = true;
        let mut i: usize = self.state.len();
        proof {
            assert(orig.take(i as int) =~= orig);
            assert(advanced(orig).0 + wheels_of(self.state@).skip(i as int) =~= advanced(orig).0);
        }
        while carry && i > 0
            invariant
                i <= self.state@.len(),
                self.state@.len() == old(self).state@.len(),
                self.index == old(self).index + 1,
                self.done == old(self).done,
                orig == wheels_of(old(self).state@),
                forall|j: int| 0 <= j < self.state@.len() ==> (#[trigger] self.state@[j]).wf(),
                forall|j: int|
                    0 <= j < self.state@.len() ==> (#[trigger] self.state@[j]).pieces
                        == old(self).state@[j].pieces && self.state@[j].max_rot
                        == old(self).state@[j].max_rot,
                forall|j: int|
                    0 <= j < i ==> (#[trigger] self.state@[j]).wheel() == orig[j],
                carry ==> advanced(orig).0 == advanced(orig.take(i as int)).0 + wheels_of(
                    self.state@,
                ).skip(i as int) && advanced(orig).1 == advanced(orig.take(i as int)).1,
                !carry ==> advanced(orig).0 == wheels_of(self.state@) && !advanced(orig).1,
            decreases i,
        {
            i -= 1;
            let ghost held = self.state@;
            carry = self.state[i].inc();
            proof {
                let now = wheels_of(self.state@);
                let part = orig.take(i + 1);
                assert(part.drop_last() =~= orig.take(i as int));
                assert(part.last() == orig[i as int]);
                assert(wheels_of(held).skip(i + 1) =~= now.skip(i + 1));
                assert(now.skip(i as int) =~= seq![now[i as int]] + now.skip(i + 1));
                if carry {
                    assert(advanced(part).0 =~= advanced(orig.take(i as int)).0.push(
                        now[i as int],
                    ));
                    assert(advanced(orig).0 =~= advanced(orig.take(i as int)).0 + now.skip(
                        i as int,
                    ));
                } else {
                    assert(advanced(part).0 =~= orig.take(i as int).push(now[i as int]));
                    assert(advanced(orig).0 =~= now);
                }
            }
        }
        if carry {
            self.done = true;
            proof {
                assert(orig.take(0) =~= Seq::<Wheel>::empty());
                assert(advanced(orig).0 =~= wheels_of(self.state@));
            }
        }
        proof {
            lemma_wheels_ok(old(self).state@);
            lemma_advanced(orig);
            assert forall|gs: Seq<int>| #[trigger] old(self).over(gs) implies self.over(gs) by {
                assert forall|j: int| 0 <= j < self.state@.len() implies (
                #[trigger] self.state@[j]).holds_group(gs[j]) by {
                    assert(old(self).state@[j].holds_group(gs[j]));
                    assert(self.state@[j].pieces@ == old(self).state@[j].pieces@);
                }
            }
            if old(self).listed() {
                assert forall|j: int| 0 <= j < self.state@.len() implies (
                #[trigger] self.state@[j]).listed() by {
                    assert(old(self).state@[j].listed());
                    assert(self.state@[j].pieces@ == old(self).state@[j].pieces@);
                }
            }
        }
        result
    }
}

/// An enumeration whose counter shows zero has every group on its first
/// choice: so it is when all sequences have been given out.
pub proof fn lemma_done_at_start(it: PiecesIteratorState)
    requires
        it.wf(),
        value(it.wheels()) == 0,
    ensures
        it.at_start(),
        forall|i: int| 0 <= i < it.state@.len() ==> (#[trigger] it.wheels()[i]).digit == 0,
{
    lemma_wheels_ok(it.state@);
    lemma_value_zero(it.wheels());
    assert forall|i: int| 0 <= i < it.state@.len() implies (#[trigger] it.state@[i]).p_index == 0
        && it.state@[i].r_index == 0 by {
        let s = it.state@[i];
        assert(s.wf());
        assert(it.wheels()[i].digit == 0);
        let steps = rotation_steps(s.max_rot as int);
        let p = s.p_index as int;
        let q = s.r_index as int / 60;
        assert(p == 0 && q == 0) by (nonlinear_arith)
            requires
                p * steps + q == 0,
                p >= 0,
                q >= 0,
                steps >= 1,
        ;
    }
}

/// The counter over groups of the catalog starts at zero, with every wheel
/// on a position.
pub proof fn lemma_first_wheels(gs: Seq<int>)
    requires
        forall|i: int| 0 <= i < gs.len() ==> 0 <= #[trigger] gs[i] < NUM_GROUPS,
    ensures
        wheels_ok(first_wheels(gs)),
        value(first_wheels(gs)) == 0,
    decreases gs.len(),
{
    let ws = first_wheels(gs);
    assert forall|i: int| 0 <= i < ws.len() implies 0 <= (#[trigger] ws[i]).digit < ws[i].radix by {
        lemma_group_choices(gs[i]);
    }
    if gs.len() > 0 {
        lemma_first_wheels(gs.drop_last());
        assert(ws.drop_last() =~= first_wheels(gs.drop_last()));
        assert(value(ws.drop_last()) * ws.last().radix + 0 == 0) by (nonlinear_arith)
            requires
                value(ws.drop_last()) == 0,
        ;
    }
}

/// The counter over the first `g` groups has as many states as there are
/// sequences of choices for these groups.
pub proof fn lemma_span_of_groups(g: nat)
    requires
        g <= NUM_GROUPS,
    ensures
        span(first_wheels(groups_of(-1)).take(g as int)) == choices_before(g as int),
    decreases g,
{
    let ws = first_wheels(groups_of(-1)).take(g as int);
    if g > 0 {
        lemma_span_of_groups((g - 1) as nat);
        assert(ws.drop_last() =~= first_wheels(groups_of(-1)).take(g - 1));
    }
}

/// The enumeration over all groups gives out exactly `NUM_SEQUENCES`
/// sequences: after `n` of them, with `n` below that number, its counter
/// shows `n`; the step behind the last sequence, and no earlier one,
/// carries out of the first group, and it leaves the counter on the first
/// sequence again.
pub proof fn lemma_all_sequences(n: nat)
    requires
        n < NUM_SEQUENCES,
    ensures
        span(first_wheels(groups_of(-1))) == NUM_SEQUENCES,
        value(advanced_by(first_wheels(groups_of(-1)), n)) == n,
        advanced(advanced_by(first_wheels(groups_of(-1)), n)).1 <==> n + 1 == NUM_SEQUENCES,
        n + 1 == NUM_SEQUENCES ==> value(advanced_by(first_wheels(groups_of(-1)), n + 1)) == 0,
{
    let ws = first_wheels(groups_of(-1));
    lemma_first_wheels(groups_of(-1));
    lemma_span_of_groups(NUM_GROUPS as nat);
    assert(ws.take(NUM_GROUPS as int) =~= ws);
    lemma_num_sequences();
    lemma_counts(ws, n);
}

/// A place that holds a group has as many choices as the group, stands on
/// the choice of the group that its wheel shows, and consists of pieces of
/// the catalog.
pub proof fn lemma_place(place: PieceIteratorState, g: int)
    requires
        place.wf(),
        place.holds_group(g),
    ensures
        place.listed(),
        place.wheel().radix == group_choices(g),
        place.choice() == group_choice(g, place.wheel().digit),
{
    let steps = rotation_steps(place.max_rot as int);
    let p = place.p_index as int;
    let q = place.r_index as int / 60;
    let d = place.wheel().digit;
    assert(d == p * steps + q);
    vstd::arithmetic::div_mod::lemma_fundamental_div_mod_converse(d, steps, p, q);
    let m = group_members(g)[p];
    let piece = place.pieces@[p];
    assert(is_piece(*piece, m));
    let name = piece_name(m);
    assert(piece.key@ == name);
    assert(piece.key =~= [name[0], name[1]]) by {
        assert(piece.key@[0] == name[0]);
        assert(piece.key@[1] == name[1]);
    }
    assert(place.r_index == 60 * q);
    assert forall|j: int| 0 <= j < place.pieces@.len() implies named(
        *#[trigger] place.pieces@[j],
        place.max_rot,
    ) by {
        lemma_group_uniform(g, j);
        assert(is_piece(*place.pieces@[j], group_members(g)[j]));
        assert(place.pieces@[j].key@ == piece_name(group_members(g)[j]));
    }
    lemma_group_uniform(g, 0);
}

/// An enumeration over groups stands on the choices that its counter
/// shows, and consists of pieces of the catalog.
pub proof fn lemma_over(it: PiecesIteratorState, gs: Seq<int>)
    requires
        forall|i: int| 0 <= i < it.state@.len() ==> (#[trigger] it.state@[i]).wf(),
        it.over(gs),
    ensures
        it.listed(),
        choices_of(it.state@) == choices(gs, it.wheels()),
        forall|i: int|
            0 <= i < gs.len() ==> (#[trigger] it.wheels()[i]).radix == group_choices(gs[i]),
{
    assert forall|i: int| 0 <= i < it.state@.len() implies (#[trigger] it.state@[i]).listed()
        && choices_of(it.state@)[i] == choices(gs, it.wheels())[i] && it.wheels()[i].radix
        == group_choices(gs[i]) by {
        lemma_place(it.state@[i], gs[i]);
    }
}

/// Every choice that an enumeration over pieces of the catalog stands on
/// is offered by the catalog.
pub proof fn lemma_choices_offered(state: Seq<PieceIteratorState>)
    requires
        forall|i: int| 0 <= i < state.len() ==> (#[trigger] state[i]).wf(),
        forall|i: int| 0 <= i < state.len() ==> (#[trigger] state[i]).listed(),
    ensures
        forall|i: int| 0 <= i < state.len() ==> offered(#[trigger] choices_of(state)[i]),
{
    assert forall|i: int| 0 <= i < state.len() implies offered(#[trigger] choices_of(state)[i]) by {
        let s = state[i];
        let piece = s.pieces@[s.p_index as int];
        let n = choose|n: int|
            0 <= n < NUM_PIECES && piece.key@ == #[trigger] piece_name(n) && piece_max_rot(n)
                == s.max_rot;
    }
}

/// Every how many sequences a line on the speed is printed while the
/// sequences themselves are not.
pub const SPEED_MOD: i32 = 16384;

/// What a listing of the sequences prints for one sequence.
#[derive(Copy, Clone, PartialEq, Eq, Debug, Structural)]
pub enum DumpAction {
    /// The sequence lies behind the range: the listing ends.
    Stop,
    /// The sequence is printed, after an empty line if `first_of_range`.
    Print { first_of_range: bool },
    /// A line on the speed is printed, with the sequence.
    Speed,
    /// Nothing is printed.
    Nothing,
}

/// The state of a listing of the sequences: the range of indices, the
/// number of sequences seen, and whether each sequence is printed.
#[derive(Copy, Clone, PartialEq, Eq, Debug)]
pub struct Dump {
    pub pmin: i32,
    pub pmax: i32,
    pub count: i32,
    pub print_all: bool,
}

impl Dump {
    /// A listing of the sequences up to index `pmax`. Every sequence is
    /// printed if `print_all` is set, else those from index `pmin` on if
    /// `pmin` is positive.
    pub fn new(pmin: i32, pmax: i32, print_all: bool) -> (dump: Dump)
        ensures
            dump == (Dump { pmin, pmax, count: 0, print_all }),
    {
        Dump { pmin, pmax, count: 0, print_all }
    }

    /// Whether sequences are printed after the sequence of the given index
    /// has been seen.
    pub open spec fn prints_from(self, index: i32) -> bool {
        self.print_all || (index <= self.pmax && self.pmin > 0 && index == self.pmin)
    }

    /// What is printed for the sequence of the given index, which is
    /// counted as seen.
    pub open spec fn action(self, index: i32) -> DumpAction {
        if index > self.pmax {
            DumpAction::Stop
        } else if self.prints_from(index) {
            DumpAction::Print { first_of_range: self.pmin > 0 && index == self.pmin }
        } else if remainder(self.count + 1, SPEED_MOD as int) == 0 {
            DumpAction::Speed
        } else {
            DumpAction::Nothing
        }
    }

    /// Counts the sequence of the given index and says what is printed for
    /// it.
    pub fn step(&mut self, index: i32) -> (action: DumpAction)
        requires
            old(self).count < i32::MAX,
        ensures
            action == old(self).action(index),
            final(self).count == old(self).count + 1,
            final(self).print_all == old(self).prints_from(index),
            final(self).pmin == old(self).pmin,
            final(self).pmax == old(self).pmax,
    {
        self.count += 1;
        if index > self.pmax {
            return DumpAction::Stop;
        }
        let first_of_range = self.pmin > 0 && index == self.pmin;
        if first_of_range {
            self.print_all = true;
        }
        if self.print_all {
            DumpAction::Print { first_of_range }
        } else if self.count % SPEED_MOD == 0 {
            DumpAction::Speed
        } else {
            DumpAction::Nothing
        }
    }
}

/// The wheels of well-formed places stand on their positions.
pub proof fn lemma_wheels_ok(state: Seq<PieceIteratorState>)
    requires
        forall|i: int| 0 <= i < state.len() ==> (#[trigger] state[i]).wf(),
    ensures
        wheels_ok(wheels_of(state)),
{
    assert forall|i: int| 0 <= i < state.len() implies 0 <= (#[trigger] wheels_of(state)[i]).digit
        < wheels_of(state)[i].radix by {
        let s = state[i];
        let steps = rotation_steps(s.max_rot as int);
        let p = s.p_index as int;
        let q = s.r_index as int / 60;
        let len = s.pieces@.len() as int;
        assert(0 <= p * steps + q < len * steps) by (nonlinear_arith)
            requires
                0 <= p < len,
                0 <= q < steps,
        ;
    }
}

/// The counter of well-formed places shows a number below its span.
pub proof fn lemma_value_bounds_of(state: Seq<PieceIteratorState>)
    requires
        forall|i: int| 0 <= i < state.len() ==> (#[trigger] state[i]).wf(),
    ensures
        0 <= value(wheels_of(state)) < span(wheels_of(state)),
{
    lemma_wheels_ok(state);
    lemma_value_bounds(wheels_of(state));
}

} // verus!
