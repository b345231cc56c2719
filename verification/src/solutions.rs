//! The record of a search: which piece was placed where.

use vstd::prelude::*;
use crate::coord::AbsYRG;
use crate::permutations::Permutation;
use crate::text::{decimal, join, joined, push_decimal, texts};

verus! {

/// The largest number of pieces in a sequence of choices or in a solution.
pub const MAX_PERM_SIZE: usize = 11;

/// One placement: the piece, its angle, and the offset on the board.
#[derive(Copy, Clone, PartialEq, Eq, Debug)]
pub struct PieceSolution {
    pub key: [char; 2],
    pub angle: i32,
    pub yrg: AbsYRG,
}

impl PieceSolution {
    /// The record of an unused slot.
    pub open spec fn unused() -> PieceSolution {
        PieceSolution { key: ['-', '-'], angle: 0, yrg: AbsYRG { y: 0, r: 0, g: 0 } }
    }

    /// The record of an unused slot: the key `--`, angle 0, offset `0x0x0`.
    pub fn new() -> (p: PieceSolution)
        ensures
            p == Self::unused(),
    {
        PieceSolution { key: ['-', '-'], angle: 0, yrg: AbsYRG { y: 0, r: 0, g: 0 } }
    }

    /// The key, `@`, the angle, `:`, and the offset.
    pub open spec fn text(self) -> Seq<char> {
        seq![self.key@[0], self.key@[1], '@'] + decimal(self.angle as int) + seq![':']
            + self.yrg.text()
    }

    pub fn to_string(&self) -> (s: String)
        ensures
            s@ == self.text(),
    {
        let mut s = String::new();
        s.push(self.key[0]);
        s.push(self.key[1]);
        s.push('@');
        push_decimal(&mut s, self.angle);
        s.push(':');
        let yrg = self.yrg.to_string();
        s.append(yrg.as_str());
        s
    }
}

/// The placements made so far, in the order of the groups of pieces.
#[derive(Copy, Clone, PartialEq, Eq, Debug)]
pub struct BoardSolution {
    pub sol: [PieceSolution; MAX_PERM_SIZE],
    /// The number of slots in use.
    pub size: usize,
}

/// The texts of the records.
pub open spec fn record_texts(records: Seq<PieceSolution>) -> Seq<Seq<char>> {
    Seq::new(records.len(), |i: int| records[i].text())
}

impl BoardSolution {
    /// The solution without any placement.
    pub fn new() -> (b: BoardSolution)
        ensures
            b.size == 0,
            forall|i: int| 0 <= i < MAX_PERM_SIZE ==> b.sol@[i] == PieceSolution::unused(),
    {
        BoardSolution { sol: [PieceSolution::new();MAX_PERM_SIZE], size: 0 }
    }

    /// The solution with one more placement, in the first unused slot.
    pub fn append(&self, permutation: &Permutation, yrg: &AbsYRG) -> (b: BoardSolution)
        requires
            self.size < MAX_PERM_SIZE,
        ensures
            b.size == self.size + 1,
            b.sol@ == self.sol@.update(
                self.size as int,
                PieceSolution { key: permutation.key, angle: permutation.angle, yrg: *yrg },
            ),
    {
        let mut new_sol = *self;
        new_sol.sol[self.size] = PieceSolution {
            key: permutation.key,
            angle: permutation.angle,
            yrg: *yrg,
        };
        new_sol.size += 1;
        new_sol
    }

    /// The text of every slot, used or not, with commas between them.
    pub open spec fn text(self) -> Seq<char> {
        joined(record_texts(self.sol@), seq![','])
    }

    pub fn to_string(&self) -> (s: String)
        ensures
            s@ == self.text(),
    {
        let mut parts: Vec<String> = Vec::new();
        let mut i: usize = 0;
        while i < MAX_PERM_SIZE
            invariant
                i <= MAX_PERM_SIZE,
                texts(parts@) == record_texts(self.sol@).take(i as int),
            decreases MAX_PERM_SIZE - i,
        {
            let ghost before = parts@;
            parts.push(self.sol[i].to_string());
            assert(texts(parts@) =~= texts(before).push(self.sol@[i as int].text()));
            i += 1;
        }
        proof {
            assert(record_texts(self.sol@).take(MAX_PERM_SIZE as int) =~= record_texts(self.sol@));
            reveal_strlit(",");
            assert(","@ =~= seq![',']);
        }
        join(&parts, ",")
    }
}

} // verus!
