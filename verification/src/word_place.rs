//! The grid data model: cell values, word slots, and the spec-level
//! vocabulary (coordinates, overlap, fitting words) that the solver's
//! contracts are stated in.

use vstd::prelude::*;

use crate::direction::Direction;

verus! {

/// A single cell value: unknown, or a fixed letter.
#[derive(Clone, Copy, PartialEq, Eq, Structural, Debug)]
pub enum Character {
    Empty,
    Letter(char),
}

impl Default for Character {
    /// A fresh cell is unknown.
    fn default() -> (r: Self)
        ensures
            r is Empty,
    {
        Character::Empty
    }
}

/// A word slot: a maximal straight run of cells in one orientation.
/// `(x, y)` is the coordinate of the first cell; cell `i` lies at
/// `(x + i, y)` for a horizontal slot and `(x, y + i)` for a vertical one.
#[derive(Debug)]
pub struct WordPlace {
    pub chars: Vec<Character>,
    pub x: usize,
    pub y: usize,
    pub dir: Direction,
}

impl Clone for WordPlace {
    fn clone(&self) -> (r: Self)
        ensures
            same_place(r, *self),
    {
        WordPlace { chars: self.chars.clone(), x: self.x, y: self.y, dir: self.dir }
    }
}

/// Number of cells in the slot.
pub open spec fn slot_len(p: WordPlace) -> nat {
    p.chars@.len()
}

/// Column of the slot's `i`-th cell.
pub open spec fn cell_x(p: WordPlace, i: int) -> int {
    p.x + if p.dir is Horizontal {
        i
    } else {
        0
    }
}

/// Row of the slot's `i`-th cell.
pub open spec fn cell_y(p: WordPlace, i: int) -> int {
    p.y + if p.dir is Vertical {
        i
    } else {
        0
    }
}

/// The slot's cells stay within machine coordinate range along its
/// orientation.
pub open spec fn wf_place(p: WordPlace) -> bool {
    if p.dir is Horizontal {
        p.x + slot_len(p) <= usize::MAX
    } else {
        p.y + slot_len(p) <= usize::MAX
    }
}

/// Cell `i` of `p` and cell `j` of `q` are the same absolute grid cell.
pub open spec fn same_cell(p: WordPlace, i: int, q: WordPlace, j: int) -> bool {
    cell_x(p, i) == cell_x(q, j) && cell_y(p, i) == cell_y(q, j)
}

/// Every cell of the slot holds a fixed letter.
pub open spec fn is_filled(p: WordPlace) -> bool {
    forall|i: int| 0 <= i < slot_len(p) ==> p.chars@[i] is Letter
}

/// The word spelled by a fully filled slot.
pub open spec fn word_of(p: WordPlace) -> Seq<char> {
    Seq::new(slot_len(p), |i: int| p.chars@[i]->0)
}

/// `w` can be written into a run of cells: the lengths match and every
/// fixed letter among the cells agrees with `w`.
pub open spec fn fits_cells(w: Seq<char>, cs: Seq<Character>) -> bool {
    &&& w.len() == cs.len()
    &&& forall|i: int|
        0 <= i < w.len() ==> (#[trigger] cs[i] is Empty || cs[i] == Character::Letter(w[i]))
}

/// `w` can be written into `p`: the lengths match and every fixed letter
/// of `p` agrees with `w`.
pub open spec fn fits(w: Seq<char>, p: WordPlace) -> bool {
    fits_cells(w, p.chars@)
}

/// Wherever two slots overlap, they hold the same cell value.
pub open spec fn agree(p: WordPlace, q: WordPlace) -> bool {
    forall|i: int, j: int|
        0 <= i < slot_len(p) && 0 <= j < slot_len(q) && #[trigger] same_cell(p, i, q, j)
            ==> p.chars@[i] == q.chars@[j]
}

/// Every pair of slots in the sequence agrees on shared cells.
pub open spec fn consistent(ps: Seq<WordPlace>) -> bool {
    forall|a: int, b: int|
        0 <= a < ps.len() && 0 <= b < ps.len() ==> #[trigger] agree(ps[a], ps[b])
}

/// Same origin, orientation and length.
pub open spec fn same_frame(a: WordPlace, b: WordPlace) -> bool {
    a.x == b.x && a.y == b.y && a.dir == b.dir && slot_len(a) == slot_len(b)
}

/// Equal as slots: same frame and the same cell values.
pub open spec fn same_place(a: WordPlace, b: WordPlace) -> bool {
    same_frame(a, b) && a.chars@ == b.chars@
}

/// `b` refines `a`: same frame, and every letter fixed in `a` is kept in `b`.
pub open spec fn refines(a: WordPlace, b: WordPlace) -> bool {
    &&& same_frame(a, b)
    &&& forall|i: int|
        0 <= i < slot_len(a) && #[trigger] a.chars@[i] is Letter ==> b.chars@[i] == a.chars@[i]
}

/// Within one slot, distinct cell indices name distinct grid cells.
pub proof fn lemma_same_cell_injective(p: WordPlace, i: int, j: int)
    requires
        0 <= i < slot_len(p),
        0 <= j < slot_len(p),
        same_cell(p, i, p, j),
    ensures
        i == j,
{
}

impl WordPlace {
    /// The slot's cells as text: a space for an unknown cell, else the letter.
    pub fn to_string(&self) -> (s: String)
        ensures
            s@ == text_of_cells(self.chars@),
    {
        let mut letters: Vec<char> = Vec::new();
        let n = self.chars.len();
        let mut i: usize = 0;
        while i < n
            invariant
                i <= n,
                n == self.chars@.len(),
                letters@ == text_of_cells(self.chars@.take(i as int)),
            decreases n - i,
        {
            let c = match self.chars[i] {
                Character::Empty => ' ',
                Character::Letter(l) => l,
            };
            letters.push(c);
            proof {
                assert(text_of_cells(self.chars@.take(i + 1)) =~= text_of_cells(
                    self.chars@.take(i as int),
                ).push(c));
            }
            i = i + 1;
        }
        proof {
            assert(self.chars@.take(n as int) =~= self.chars@);
        }
        crate::text::chars_to_string(&letters)
    }
}

/// The text a run of cells displays: spaces for unknowns, letters otherwise.
pub open spec fn text_of_cells(cs: Seq<Character>) -> Seq<char> {
    Seq::new(
        cs.len(),
        |i: int|
            match cs[i] {
                Character::Empty => ' ',
                Character::Letter(l) => l,
            },
    )
}

} // verus!
