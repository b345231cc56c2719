//! One choice of piece and angle, and sequences of such choices.

use vstd::prelude::*;
use crate::piece::PieceKey;
use crate::text::{decimal, join, joined, push_decimal, texts};

verus! {

/// One piece at one angle.
#[derive(Copy, Clone, PartialEq, Eq, Debug)]
pub struct Permutation {
    pub key: PieceKey,
    pub angle: i32,
}

impl Permutation {
    pub fn new(key: PieceKey, angle: i32) -> (p: Permutation)
        ensures
            p.key == key,
            p.angle == angle,
    {
        Permutation { key, angle }
    }

    /// The two characters of the key, `@`, and the angle.
    pub open spec fn text(self) -> Seq<char> {
        seq![self.key@[0], self.key@[1], '@'] + decimal(self.angle as int)
    }

    pub fn to_string(&self) -> (s: String)
        ensures
            s@ == self.text(),
    {
        let mut s = String::new();
        s.push(self.key[0]);
        s.push(self.key[1]);
        s.push('@');
        push_decimal(&mut s, self.angle);
        s
    }
}

/// A sequence of choices, one for each group of pieces that is still to be
/// placed, with its number in the enumeration.
#[derive(Clone, PartialEq, Eq, Debug)]
pub struct Permutations {
    pub perms: Vec<Permutation>,
    pub index: i32,
}

pub struct PermutationsView {
    pub perms: Seq<Permutation>,
    pub index: i32,
}

impl View for Permutations {
    type V = PermutationsView;

    open spec fn view(&self) -> PermutationsView {
        PermutationsView { perms: self.perms@, index: self.index }
    }
}

/// The texts of the choices.
pub open spec fn permutation_texts(perms: Seq<Permutation>) -> Seq<Seq<char>> {
    Seq::new(perms.len(), |i: int| perms[i].text())
}

impl PermutationsView {
    /// The index in square brackets, a space, and the choices with commas
    /// between them.
    pub open spec fn text(self) -> Seq<char> {
        seq!['['] + decimal(self.index as int) + seq![']', ' '] + joined(
            permutation_texts(self.perms),
            seq![','],
        )
    }
}

impl Permutations {
    pub fn is_empty(&self) -> (b: bool)
        ensures
            b == (self@.perms.len() == 0),
    {
        self.perms.len() == 0
    }

    /// The first choice and the sequence of the others, with the same index.
    pub fn split_first(&self) -> (res: Option<(Permutation, Permutations)>)
        ensures
            self@.perms.len() == 0 ==> res is None,
            self@.perms.len() > 0 ==> res is Some && res->Some_0.0 == self@.perms[0]
                && res->Some_0.1@.perms == self@.perms.skip(1) && res->Some_0.1@.index
                == self@.index,
    {
        if self.perms.len() == 0 {
            None
        } else {
            let first = self.perms[0];
            let mut rest: Vec<Permutation> = Vec::new();
            let mut i: usize = 1;
            while i < self.perms.len()
                invariant
                    1 <= i <= self.perms@.len(),
                    rest@ == self.perms@.subrange(1, i as int),
                decreases self.perms@.len() - i,
            {
                rest.push(self.perms[i]);
                i += 1;
            }
            Some((first, Permutations { perms: rest, index: self.index }))
        }
    }

    /// The same sequence.
    pub fn copy(&self) -> (p: Permutations)
        ensures
            p@ == self@,
    {
        let mut perms: Vec<Permutation> = Vec::new();
        let mut i: usize = 0;
        while i < self.perms.len()
            invariant
                i <= self.perms@.len(),
                perms@ == self.perms@.take(i as int),
            decreases self.perms@.len() - i,
        {
            perms.push(self.perms[i]);
            i += 1;
        }
        assert(self.perms@.take(self.perms@.len() as int) =~= self.perms@);
        Permutations { perms, index: self.index }
    }

    pub fn to_string(&self) -> (s: String)
        ensures
            s@ == self@.text(),
    {
        let mut parts: Vec<String> = Vec::new();
        let mut i: usize = 0;
        while i < self.perms.len()
            invariant
                i <= self.perms@.len(),
                texts(parts@) == permutation_texts(self.perms@).take(i as int),
            decreases self.perms@.len() - i,
        {
            let ghost before = parts@;
            parts.push(self.perms[i].to_string());
            assert(texts(parts@) =~= texts(before).push(self.perms@[i as int].text()));
            i += 1;
        }
        proof {
            assert(permutation_texts(self.perms@).take(self.perms@.len() as int)
                =~= permutation_texts(self.perms@));
            reveal_strlit(",");
            assert(","@ =~= seq![',']);
        }
        let list = join(&parts, ",");
        let mut s = String::new();
        s.push('[');
        push_decimal(&mut s, self.index);
        s.push(']');
        s.push(' ');
        s.append(list.as_str());
        s
    }
}

} // verus!
