//! The backtracking search engine: assigns words to slots under
//! intersection constraints, with forward checking (candidate sets are
//! re-filtered eagerly after every placement) and a most-constrained-slot
//! heuristic.

use vstd::prelude::*;

use crate::word_place::{
    agree, cell_x, cell_y, consistent, fits, fits_cells, is_filled, refines, same_cell, same_frame,
    same_place, slot_len, wf_place, word_of, Character, WordPlace,
};

verus! {

/// Outcome of a search: a fully assigned slot sequence, or failure.
#[derive(Debug)]
pub enum SolveState {
    Solved(Vec<WordPlace>),
    Unsolved,
}

/// A slot together with its cached candidate set: the words of the
/// effective list that still fit the slot's fixed letters.
#[derive(Debug)]
pub struct WordPlaceWithPossibleWords {
    pub place: WordPlace,
    pub possible_words: Vec<Vec<char>>,
}

/// The words of `ws`, in order, that fit the slot `p`.
pub open spec fn fit_filter(ws: Seq<Seq<char>>, p: WordPlace) -> Seq<Seq<char>>
    decreases ws.len(),
{
    if ws.len() == 0 {
        Seq::empty()
    } else if fits(ws.last(), p) {
        fit_filter(ws.drop_last(), p).push(ws.last())
    } else {
        fit_filter(ws.drop_last(), p)
    }
}

/// A word is in the filtered list exactly when it is in the original list
/// and fits the slot.
pub proof fn lemma_fit_filter_members(ws: Seq<Seq<char>>, p: WordPlace)
    ensures
        forall|w: Seq<char>|
            #[trigger] fit_filter(ws, p).contains(w) <==> ws.contains(w) && fits(w, p),
    decreases ws.len(),
{
    if ws.len() > 0 {
        lemma_fit_filter_members(ws.drop_last(), p);
        assert forall|w: Seq<char>|
            #[trigger] fit_filter(ws, p).contains(w) <==> ws.contains(w) && fits(w, p) by {
            if fit_filter(ws, p).contains(w) {
                if fits(ws.last(), p) {
                    let i = choose|i: int|
                        0 <= i < fit_filter(ws, p).len() && fit_filter(ws, p)[i] == w;
                    if i < fit_filter(ws.drop_last(), p).len() {
                        assert(fit_filter(ws.drop_last(), p).contains(w));
                    } else {
                        assert(w == ws.last());
                    }
                } else {
                    assert(fit_filter(ws.drop_last(), p).contains(w));
                }
                if ws.drop_last().contains(w) {
                    let i = choose|i: int| 0 <= i < ws.drop_last().len() && ws.drop_last()[i] == w;
                    assert(ws[i] == w);
                } else if w == ws.last() {
                    assert(ws[ws.len() - 1] == w);
                }
            }
            if ws.contains(w) && fits(w, p) {
                let i = choose|i: int| 0 <= i < ws.len() && ws[i] == w;
                if i < ws.len() - 1 {
                    assert(ws.drop_last()[i] == w);
                    assert(ws.drop_last().contains(w));
                    assert(fit_filter(ws.drop_last(), p).contains(w));
                    let j = choose|j: int|
                        0 <= j < fit_filter(ws.drop_last(), p).len() && fit_filter(
                            ws.drop_last(),
                            p,
                        )[j] == w;
                    assert(fit_filter(ws, p)[j] == w);
                } else {
                    assert(w == ws.last());
                    let n = fit_filter(ws, p).len();
                    assert(fit_filter(ws, p)[n - 1] == w);
                }
            }
        }
    }
}

/// Filtering twice is filtering once by the stronger slot: if every word
/// fitting `b` also fits `a`, the `a`-filter drops nothing `b` keeps.
pub proof fn lemma_fit_filter_twice(ws: Seq<Seq<char>>, a: WordPlace, b: WordPlace)
    requires
        forall|w: Seq<char>| #[trigger] fits(w, b) ==> fits(w, a),
    ensures
        fit_filter(fit_filter(ws, a), b) == fit_filter(ws, b),
    decreases ws.len(),
{
    if ws.len() > 0 {
        lemma_fit_filter_twice(ws.drop_last(), a, b);
        if fits(ws.last(), a) {
            let fa = fit_filter(ws.drop_last(), a).push(ws.last());
            assert(fa.drop_last() =~= fit_filter(ws.drop_last(), a));
            assert(fa.last() == ws.last());
        }
    }
}

/// Filtering only reads a slot's cells: slots with equal cells filter alike.
pub proof fn lemma_fit_filter_congruence(ws: Seq<Seq<char>>, a: WordPlace, b: WordPlace)
    requires
        a.chars@ == b.chars@,
    ensures
        fit_filter(ws, a) == fit_filter(ws, b),
    decreases ws.len(),
{
    if ws.len() > 0 {
        lemma_fit_filter_congruence(ws.drop_last(), a, b);
        assert(fits(ws.last(), a) == fits(ws.last(), b));
    }
}

/// A word that fits a refinement also fits the slot it refines.
pub proof fn lemma_fits_refines(a: WordPlace, b: WordPlace, w: Seq<char>)
    requires
        refines(a, b),
        fits(w, b),
    ensures
        fits(w, a),
{
}

/// A fully filled slot is fit only by its own word.
pub proof fn lemma_fits_filled(p: WordPlace, w: Seq<char>)
    requires
        is_filled(p),
    ensures
        fits(w, p) <==> w == word_of(p),
{
    if fits(w, p) {
        assert(w =~= word_of(p));
    }
    if w == word_of(p) {
        assert forall|i: int| 0 <= i < w.len() implies (#[trigger] p.chars@[i] is Empty
            || p.chars@[i] == Character::Letter(w[i])) by {
            assert(p.chars@[i] is Letter);
            assert(w[i] == p.chars@[i]->0);
        }
    }
}

/// The words spelled by the already fully filled slots, in slot order.
pub open spec fn completed_words(ps: Seq<WordPlace>) -> Seq<Seq<char>>
    decreases ps.len(),
{
    if ps.len() == 0 {
        Seq::empty()
    } else if is_filled(ps.last()) {
        completed_words(ps.drop_last()).push(word_of(ps.last()))
    } else {
        completed_words(ps.drop_last())
    }
}

/// Every filled slot's word is among the completed words.
pub proof fn lemma_completed_words_contains(ps: Seq<WordPlace>, k: int)
    requires
        0 <= k < ps.len(),
        is_filled(ps[k]),
    ensures
        completed_words(ps).contains(word_of(ps[k])),
    decreases ps.len(),
{
    if k == ps.len() - 1 {
        let cw = completed_words(ps);
        assert(cw[cw.len() - 1] == word_of(ps[k]));
    } else {
        lemma_completed_words_contains(ps.drop_last(), k);
        let cw0 = completed_words(ps.drop_last());
        let i = choose|i: int| 0 <= i < cw0.len() && cw0[i] == word_of(ps[k]);
        assert(completed_words(ps)[i] == word_of(ps[k]));
    }
}

/// Every completed word is spelled by some filled slot.
pub proof fn lemma_completed_words_members(ps: Seq<WordPlace>, w: Seq<char>)
    requires
        completed_words(ps).contains(w),
    ensures
        exists|k: int| 0 <= k < ps.len() && is_filled(#[trigger] ps[k]) && word_of(ps[k]) == w,
    decreases ps.len(),
{
    let cw = completed_words(ps);
    if ps.len() > 0 {
        let rec = completed_words(ps.drop_last());
        if is_filled(ps.last()) {
            let i = choose|i: int| 0 <= i < cw.len() && cw[i] == w;
            if i < rec.len() {
                assert(rec.contains(w));
                lemma_completed_words_members(ps.drop_last(), w);
                let k = choose|k: int|
                    0 <= k < ps.drop_last().len() && is_filled(#[trigger] ps.drop_last()[k])
                        && word_of(ps.drop_last()[k]) == w;
                assert(ps[k] == ps.drop_last()[k]);
                assert(is_filled(ps[k]) && word_of(ps[k]) == w);
            } else {
                assert(w == word_of(ps.last()));
                assert(ps[ps.len() - 1] == ps.last());
                assert(is_filled(ps[ps.len() - 1]) && word_of(ps[ps.len() - 1]) == w);
            }
        } else {
            assert(rec.contains(w));
            lemma_completed_words_members(ps.drop_last(), w);
            let k = choose|k: int|
                0 <= k < ps.drop_last().len() && is_filled(#[trigger] ps.drop_last()[k])
                    && word_of(ps.drop_last()[k]) == w;
            assert(ps[k] == ps.drop_last()[k]);
            assert(is_filled(ps[k]) && word_of(ps[k]) == w);
        }
    }
}

/// `w` is in the effective word list: in the input list, or spelled by a
/// slot that the input grid had already fully filled.
pub open spec fn in_effective(words: Seq<Seq<char>>, ps: Seq<WordPlace>, w: Seq<char>) -> bool {
    words.contains(w) || completed_words(ps).contains(w)
}

/// Does `w` fit the slot?  Executable mirror of [`fits`].
pub fn word_fits(w: &Vec<char>, p: &WordPlace) -> (r: bool)
    ensures
        r == fits(w@, *p),
{
    if w.len() != p.chars.len() {
        return false;
    }
    let n = w.len();
    let mut i: usize = 0;
    while i < n
        invariant
            i <= n,
            n == w@.len() == p.chars@.len(),
            forall|j: int|
                0 <= j < i ==> (#[trigger] p.chars@[j] is Empty || p.chars@[j]
                    == Character::Letter(w@[j])),
        decreases n - i,
    {
        match p.chars[i] {
            Character::Empty => {},
            Character::Letter(l) => {
                if l != w[i] {
                    return false;
                }
            },
        }
        i = i + 1;
    }
    true
}

/// The candidate words for a slot: those of the list whose length matches
/// and whose letters are consistent with the slot's fixed letters.
pub fn words_that_fit(wordlist: &Vec<Vec<char>>, word_place: &WordPlace) -> (r: Vec<Vec<char>>)
    ensures
        r.deep_view() == fit_filter(wordlist.deep_view(), *word_place),
{
    let n = wordlist.len();
    let mut r: Vec<Vec<char>> = Vec::new();
    let mut i: usize = 0;
    while i < n
        invariant
            i <= n,
            n == wordlist@.len(),
            r.deep_view() == fit_filter(wordlist.deep_view().take(i as int), *word_place),
        decreases n - i,
    {
        let ghost pre = wordlist.deep_view().take(i as int);
        let ghost post = wordlist.deep_view().take(i + 1);
        proof {
            assert(post.drop_last() =~= pre);
            assert(post.last() == wordlist.deep_view()[i as int]);
        }
        if word_fits(&wordlist[i], word_place) {
            let w = copy_chars(&wordlist[i]);
            r.push(w);
            proof {
                assert(r.deep_view() =~= fit_filter(post, *word_place));
            }
        } else {
            proof {
                assert(r.deep_view() =~= fit_filter(post, *word_place));
            }
        }
        i = i + 1;
    }
    proof {
        assert(wordlist.deep_view().take(n as int) =~= wordlist.deep_view());
    }
    r
}

/// A copy of a word's characters.
pub fn copy_chars(v: &Vec<char>) -> (r: Vec<char>)
    ensures
        r@ == v@,
{
    let n = v.len();
    let mut r: Vec<char> = Vec::new();
    let mut i: usize = 0;
    while i < n
        invariant
            i <= n,
            n == v@.len(),
            r@ == v@.take(i as int),
        decreases n - i,
    {
        r.push(v[i]);
        proof {
            assert(v@.take(i + 1) =~= v@.take(i as int).push(v@[i as int]));
        }
        i = i + 1;
    }
    proof {
        assert(v@.take(n as int) =~= v@);
    }
    r
}

/// A copy of a word list.
pub fn copy_words(ws: &Vec<Vec<char>>) -> (r: Vec<Vec<char>>)
    ensures
        r.deep_view() == ws.deep_view(),
{
    let n = ws.len();
    let mut r: Vec<Vec<char>> = Vec::new();
    let mut i: usize = 0;
    while i < n
        invariant
            i <= n,
            n == ws@.len(),
            r@.len() == i,
            r.deep_view() == ws.deep_view().take(i as int),
        decreases n - i,
    {
        let w = copy_chars(&ws[i]);
        r.push(w);
        proof {
            assert(r.deep_view() =~= ws.deep_view().take(i + 1));
        }
        i = i + 1;
    }
    proof {
        assert(ws.deep_view().take(n as int) =~= ws.deep_view());
    }
    r
}

/// Is every cell of the slot a fixed letter?  Executable mirror of
/// [`is_filled`].
pub fn place_filled(p: &WordPlace) -> (r: bool)
    ensures
        r == is_filled(*p),
{
    let n = p.chars.len();
    let mut i: usize = 0;
    while i < n
        invariant
            i <= n,
            n == p.chars@.len(),
            forall|j: int| 0 <= j < i ==> #[trigger] p.chars@[j] is Letter,
        decreases n - i,
    {
        match p.chars[i] {
            Character::Empty => {
                return false;
            },
            Character::Letter(_) => {},
        }
        i = i + 1;
    }
    true
}

/// Every slot of the state is fully assigned.
pub open spec fn all_filled(s: Seq<WordPlaceWithPossibleWords>) -> bool {
    forall|k: int| 0 <= k < s.len() ==> is_filled(#[trigger] s[k].place)
}

/// The search is done when no slot has an unknown cell left.
pub fn is_solved(word_places: &Vec<WordPlaceWithPossibleWords>) -> (r: bool)
    ensures
        r == all_filled(word_places@),
{
    let n = word_places.len();
    let mut i: usize = 0;
    while i < n
        invariant
            i <= n,
            n == word_places@.len(),
            forall|k: int| 0 <= k < i ==> is_filled(#[trigger] word_places@[k].place),
        decreases n - i,
    {
        if !place_filled(&word_places[i].place) {
            return false;
        }
        i = i + 1;
    }
    true
}

/// The most-constrained-slot heuristic: among the slots that still have an
/// unknown cell, the one with the fewest candidate words; on a tie, the
/// later slot wins.  Returns the slot's index.
pub fn find_best_candidate(word_places: &Vec<WordPlaceWithPossibleWords>) -> (r: usize)
    requires
        !all_filled(word_places@),
    ensures
        0 <= r < word_places@.len(),
        !is_filled(word_places@[r as int].place),
        forall|j: int|
            0 <= j < word_places@.len() && !is_filled(#[trigger] word_places@[j].place)
                ==> word_places@[r as int].possible_words@.len()
                <= word_places@[j].possible_words@.len(),
        forall|j: int|
            r < j < word_places@.len() && !is_filled(#[trigger] word_places@[j].place)
                ==> word_places@[r as int].possible_words@.len()
                < word_places@[j].possible_words@.len(),
{
    let n = word_places.len();
    let mut best: usize = 0;
    let mut have: bool = false;
    let mut i: usize = 0;
    while i < n
        invariant
            i <= n,
            n == word_places@.len(),
            !all_filled(word_places@),
            have ==> best < i && !is_filled(word_places@[best as int].place),
            have ==> forall|j: int|
                0 <= j < i && !is_filled(#[trigger] word_places@[j].place)
                    ==> word_places@[best as int].possible_words@.len()
                    <= word_places@[j].possible_words@.len(),
            have ==> forall|j: int|
                best < j < i && !is_filled(#[trigger] word_places@[j].place)
                    ==> word_places@[best as int].possible_words@.len()
                    < word_places@[j].possible_words@.len(),
            !have ==> forall|j: int| 0 <= j < i ==> is_filled(#[trigger] word_places@[j].place),
        decreases n - i,
    {
        if !place_filled(&word_places[i].place) {
            if !have || word_places[i].possible_words.len()
                <= word_places[best].possible_words.len() {
                best = i;
                have = true;
            }
        }
        i = i + 1;
    }
    assert(have) by {
        let k = choose|k: int|
            0 <= k < word_places@.len() && !is_filled(word_places@[k].place);
        assert(!is_filled(word_places@[k].place));
    }
    best
}


/// The number of unknown cells in a run of cells.
pub open spec fn empty_cells(cs: Seq<Character>) -> nat
    decreases cs.len(),
{
    if cs.len() == 0 {
        0
    } else {
        empty_cells(cs.drop_last()) + if cs.last() is Empty {
            1nat
        } else {
            0nat
        }
    }
}

/// The number of unknown cells across the whole state: the measure the
/// search decreases on.
pub open spec fn state_empties(s: Seq<WordPlaceWithPossibleWords>) -> nat
    decreases s.len(),
{
    if s.len() == 0 {
        0
    } else {
        state_empties(s.drop_last()) + empty_cells(s.last().place.chars@)
    }
}

/// Cellwise refinement: `b` keeps every letter of `a` and may turn
/// unknowns into letters.
pub open spec fn cells_refine(a: Seq<Character>, b: Seq<Character>) -> bool {
    &&& a.len() == b.len()
    &&& forall|i: int|
        0 <= i < a.len() ==> (#[trigger] b[i]) == a[i] || (a[i] is Empty && b[i] is Letter)
}

/// Refining cells never adds unknowns.
proof fn lemma_empty_cells_le(a: Seq<Character>, b: Seq<Character>)
    requires
        cells_refine(a, b),
    ensures
        empty_cells(b) <= empty_cells(a),
    decreases a.len(),
{
    if a.len() > 0 {
        assert(cells_refine(a.drop_last(), b.drop_last()));
        lemma_empty_cells_le(a.drop_last(), b.drop_last());
        assert(b.last() == b[a.len() - 1]);
    }
}

/// Refining cells and fixing at least one unknown strictly shrinks the
/// unknown count.
proof fn lemma_empty_cells_lt(a: Seq<Character>, b: Seq<Character>, w: int)
    requires
        cells_refine(a, b),
        0 <= w < a.len(),
        a[w] is Empty,
        b[w] is Letter,
    ensures
        empty_cells(b) < empty_cells(a),
    decreases a.len(),
{
    assert(cells_refine(a.drop_last(), b.drop_last()));
    if w == a.len() - 1 {
        lemma_empty_cells_le(a.drop_last(), b.drop_last());
        assert(a.last() == a[w]);
        assert(b.last() == b[w]);
    } else {
        lemma_empty_cells_lt(a.drop_last(), b.drop_last(), w);
        assert(b.last() == b[a.len() - 1]);
    }
}

/// A state whose slots all refine the old ones, one of them fixing an
/// unknown cell, has strictly fewer unknown cells in total.
proof fn lemma_state_empties_lt(
    s: Seq<WordPlaceWithPossibleWords>,
    t: Seq<WordPlaceWithPossibleWords>,
    k: int,
    w: int,
)
    requires
        s.len() == t.len(),
        forall|m: int|
            0 <= m < s.len() ==> cells_refine(s[m].place.chars@, #[trigger] t[m].place.chars@),
        0 <= k < s.len(),
        0 <= w < s[k].place.chars@.len(),
        s[k].place.chars@[w] is Empty,
        t[k].place.chars@[w] is Letter,
    ensures
        state_empties(t) < state_empties(s),
    decreases s.len(),
{
    assert(forall|m: int|
        0 <= m < s.len() - 1 ==> cells_refine(
            s.drop_last()[m].place.chars@,
            #[trigger] t.drop_last()[m].place.chars@,
        ));
    if k == s.len() - 1 {
        lemma_state_empties_le(s.drop_last(), t.drop_last());
        assert(s.last() == s[k]);
        assert(t.last() == t[k]);
        lemma_empty_cells_lt(s[k].place.chars@, t[k].place.chars@, w);
    } else {
        lemma_state_empties_lt(s.drop_last(), t.drop_last(), k, w);
        assert(s.last() == s[s.len() - 1]);
        assert(t.last() == t[s.len() - 1]);
        lemma_empty_cells_le(s.last().place.chars@, t.last().place.chars@);
    }
}

/// A state whose slots all refine the old ones has at most as many unknown
/// cells in total.
proof fn lemma_state_empties_le(s: Seq<WordPlaceWithPossibleWords>, t: Seq<WordPlaceWithPossibleWords>)
    requires
        s.len() == t.len(),
        forall|m: int|
            0 <= m < s.len() ==> cells_refine(s[m].place.chars@, #[trigger] t[m].place.chars@),
    ensures
        state_empties(t) <= state_empties(s),
    decreases s.len(),
{
    if s.len() > 0 {
        assert(forall|m: int|
            0 <= m < s.len() - 1 ==> cells_refine(
                s.drop_last()[m].place.chars@,
                #[trigger] t.drop_last()[m].place.chars@,
            ));
        lemma_state_empties_le(s.drop_last(), t.drop_last());
        assert(s.last() == s[s.len() - 1]);
        assert(t.last() == t[s.len() - 1]);
        lemma_empty_cells_le(s.last().place.chars@, t.last().place.chars@);
    }
}

/// The search-state invariant: well-formed slots, every pair of slots in
/// agreement on shared cells, every cached candidate set exactly the words
/// of the effective list that fit its slot, and every fully filled slot
/// keeping at least one candidate.
pub open spec fn state_inv(s: Seq<WordPlaceWithPossibleWords>, eff: Seq<Seq<char>>) -> bool {
    &&& forall|k: int| 0 <= k < s.len() ==> wf_place(#[trigger] s[k].place)
    &&& forall|k: int|
        0 <= k < s.len() ==> (#[trigger] s[k].possible_words.deep_view()) == fit_filter(
            eff,
            s[k].place,
        )
    &&& forall|a: int, b: int|
        0 <= a < s.len() && 0 <= b < s.len() ==> #[trigger] agree(s[a].place, s[b].place)
    &&& forall|k: int|
        0 <= k < s.len() && is_filled(#[trigger] s[k].place) ==> s[k].possible_words@.len() > 0
}

/// The value cell `i` of slot `p` takes when the word `w` is written into
/// the target slot `t`: fixed letters stay, an unknown cell shared with
/// `t` takes the letter `w` puts there, any other unknown stays unknown.
pub open spec fn cell_after_place(p: WordPlace, t: WordPlace, w: Seq<char>, i: int) -> Character {
    if p.chars@[i] is Letter {
        p.chars@[i]
    } else if exists|j: int| 0 <= j < w.len() && #[trigger] same_cell(t, j, p, i) {
        Character::Letter(w[choose|j: int| 0 <= j < w.len() && #[trigger] same_cell(t, j, p, i)])
    } else {
        Character::Empty
    }
}

/// The index of the cell of `t` that is the same grid cell as cell `i` of
/// `p`, if there is one.
fn covering_index(t: &WordPlace, p: &WordPlace, i: usize) -> (r: Option<usize>)
    requires
        wf_place(*t),
        wf_place(*p),
        i < slot_len(*p),
    ensures
        match r {
            Some(j) => j < slot_len(*t) && same_cell(*t, j as int, *p, i as int),
            None => forall|j: int| 0 <= j < slot_len(*t) ==> !same_cell(*t, j, *p, i as int),
        },
{
    let px = match p.dir {
        crate::direction::Direction::Horizontal => p.x + i,
        crate::direction::Direction::Vertical => p.x,
    };
    let py = match p.dir {
        crate::direction::Direction::Horizontal => p.y,
        crate::direction::Direction::Vertical => p.y + i,
    };
    let m = t.chars.len();
    let mut j: usize = 0;
    while j < m
        invariant
            j <= m,
            m == slot_len(*t),
            wf_place(*t),
            wf_place(*p),
            i < slot_len(*p),
            px == cell_x(*p, i as int),
            py == cell_y(*p, i as int),
            forall|j2: int| 0 <= j2 < j ==> !same_cell(*t, j2, *p, i as int),
        decreases m - j,
    {
        let tx = match t.dir {
            crate::direction::Direction::Horizontal => t.x + j,
            crate::direction::Direction::Vertical => t.x,
        };
        let ty = match t.dir {
            crate::direction::Direction::Horizontal => t.y,
            crate::direction::Direction::Vertical => t.y + j,
        };
        if tx == px && ty == py {
            return Some(j);
        }
        j = j + 1;
    }
    None
}

/// Writes `w` into the cells of `p` shared with the target slot `t`.
/// Returns the new cells and whether any unknown cell was fixed.
fn updated_chars(p: &WordPlace, t: &WordPlace, w: &Vec<char>) -> (r: (Vec<Character>, bool))
    requires
        wf_place(*p),
        wf_place(*t),
        w@.len() == slot_len(*t),
    ensures
        r.0@.len() == slot_len(*p),
        forall|i: int| 0 <= i < slot_len(*p) ==> r.0@[i] == cell_after_place(*p, *t, w@, i),
        r.1 == exists|i: int|
            0 <= i < slot_len(*p) && p.chars@[i] is Empty && (#[trigger] r.0@[i]) is Letter,
{
    let n = p.chars.len();
    let mut out: Vec<Character> = Vec::new();
    let mut changed = false;
    let mut i: usize = 0;
    while i < n
        invariant
            i <= n,
            n == slot_len(*p),
            wf_place(*p),
            wf_place(*t),
            w@.len() == slot_len(*t),
            out@.len() == i,
            forall|m: int| 0 <= m < i ==> out@[m] == cell_after_place(*p, *t, w@, m),
            changed ==> exists|m: int|
                0 <= m < i && p.chars@[m] is Empty && (#[trigger] out@[m]) is Letter,
            !changed ==> forall|m: int|
                0 <= m < i ==> !(p.chars@[m] is Empty && (#[trigger] out@[m]) is Letter),
        decreases n - i,
    {
        let ghost out0 = out@;
        let ghost changed0 = changed;
        match p.chars[i] {
            Character::Letter(l) => {
                out.push(Character::Letter(l));
                proof {
                    assert(out@[i as int] == cell_after_place(*p, *t, w@, i as int));
                }
            },
            Character::Empty => {
                match covering_index(t, p, i) {
                    Some(j) => {
                        out.push(Character::Letter(w[j]));
                        changed = true;
                        proof {
                            let j2 = choose|j2: int|
                                0 <= j2 < w@.len() && #[trigger] same_cell(*t, j2, *p, i as int);
                            if j2 != j as int {
                                assert(same_cell(*t, j as int, *t, j2));
                                crate::word_place::lemma_same_cell_injective(*t, j as int, j2);
                            }
                            assert(out@[i as int] == cell_after_place(*p, *t, w@, i as int));
                        }
                    },
                    None => {
                        out.push(Character::Empty);
                        proof {
                            assert(forall|j: int|
                                !(0 <= j < w@.len() && #[trigger] same_cell(*t, j, *p, i as int)));
                            assert(out@[i as int] == cell_after_place(*p, *t, w@, i as int));
                        }
                    },
                }
            },
        }
        proof {
            assert(out@.len() == i + 1);
            assert forall|m: int| 0 <= m < i implies out@[m] == out0[m] by {
            }
            if changed {
                if changed0 {
                    let m = choose|m: int|
                        0 <= m < i && p.chars@[m] is Empty && (#[trigger] out0[m]) is Letter;
                    assert(out@[m] is Letter);
                } else {
                    assert(p.chars@[i as int] is Empty && out@[i as int] is Letter);
                }
            }
        }
        i = i + 1;
    }
    (out, changed)
}


/// A solution for a search state: a complete, pairwise-consistent
/// assignment that refines every slot of the state and spells a word of
/// the effective list in every slot.
pub open spec fn solution_of(
    sol: Seq<WordPlace>,
    s: Seq<WordPlaceWithPossibleWords>,
    eff: Seq<Seq<char>>,
) -> bool {
    &&& sol.len() == s.len()
    &&& forall|k: int| 0 <= k < sol.len() ==> refines(s[k].place, #[trigger] sol[k])
    &&& forall|k: int| 0 <= k < sol.len() ==> is_filled(#[trigger] sol[k])
    &&& consistent(sol)
    &&& forall|k: int| 0 <= k < sol.len() ==> eff.contains(word_of(#[trigger] sol[k]))
}

/// Writing a word into the target slot preserves agreement between any
/// two slots of a state whose slots all agreed beforehand.
proof fn lemma_place_preserves_agree(
    pa: WordPlace,
    pb: WordPlace,
    t: WordPlace,
    w: Seq<char>,
    na: WordPlace,
    nb: WordPlace,
)
    requires
        agree(pa, pb),
        same_frame(pa, na),
        same_frame(pb, nb),
        w.len() == slot_len(t),
        forall|i: int| 0 <= i < slot_len(pa) ==> na.chars@[i] == cell_after_place(pa, t, w, i),
        forall|i: int| 0 <= i < slot_len(pb) ==> nb.chars@[i] == cell_after_place(pb, t, w, i),
    ensures
        agree(na, nb),
{
    assert forall|i: int, j: int|
        0 <= i < slot_len(na) && 0 <= j < slot_len(nb) && #[trigger] same_cell(na, i, nb, j)
        implies na.chars@[i] == nb.chars@[j] by {
        assert(same_cell(pa, i, pb, j));
        assert(pa.chars@[i] == pb.chars@[j]);
        if pa.chars@[i] is Letter {
            assert(na.chars@[i] == pa.chars@[i]);
            assert(nb.chars@[j] == pb.chars@[j]);
        } else {
            if exists|j1: int| 0 <= j1 < w.len() && #[trigger] same_cell(t, j1, pa, i) {
                let j1 = choose|j1: int| 0 <= j1 < w.len() && #[trigger] same_cell(t, j1, pa, i);
                assert(same_cell(t, j1, pb, j));
                let j2 = choose|j2: int| 0 <= j2 < w.len() && #[trigger] same_cell(t, j2, pb, j);
                if j1 != j2 {
                    assert(same_cell(t, j1, t, j2));
                    crate::word_place::lemma_same_cell_injective(t, j1, j2);
                }
                assert(na.chars@[i] == Character::Letter(w[j1]));
                assert(nb.chars@[j] == Character::Letter(w[j2]));
            } else {
                if exists|j2: int| 0 <= j2 < w.len() && #[trigger] same_cell(t, j2, pb, j) {
                    let j2 = choose|j2: int| 0 <= j2 < w.len() && #[trigger] same_cell(t, j2, pb, j);
                    assert(same_cell(t, j2, pa, i));
                }
                assert(na.chars@[i] == Character::Empty);
                assert(nb.chars@[j] == Character::Empty);
            }
        }
    }
}

/// If a solution of the state writes `w` into the target slot, then each
/// slot's solution word still fits that slot as updated by the placement.
proof fn lemma_solution_fits_updated(
    s: Seq<WordPlaceWithPossibleWords>,
    eff: Seq<Seq<char>>,
    t: int,
    w: Seq<char>,
    sol: Seq<WordPlace>,
    k: int,
    np: WordPlace,
)
    requires
        0 <= t < s.len(),
        0 <= k < s.len(),
        solution_of(sol, s, eff),
        word_of(sol[t]) == w,
        same_frame(s[k].place, np),
        forall|i: int|
            0 <= i < slot_len(s[k].place) ==> np.chars@[i] == cell_after_place(
                s[k].place,
                s[t].place,
                w,
                i,
            ),
    ensures
        fits(word_of(sol[k]), np),
{
    let wk = word_of(sol[k]);
    assert(refines(s[k].place, sol[k]));
    assert(refines(s[t].place, sol[t]));
    assert(wk.len() == slot_len(np));
    assert forall|i: int|
        0 <= i < wk.len() implies (#[trigger] np.chars@[i] is Empty || np.chars@[i]
            == Character::Letter(wk[i])) by {
        assert(sol[k].chars@[i] is Letter);
        assert(wk[i] == sol[k].chars@[i]->0);
        if s[k].place.chars@[i] is Letter {
            assert(sol[k].chars@[i] == s[k].place.chars@[i]);
            assert(np.chars@[i] == s[k].place.chars@[i]);
        } else if exists|j: int|
            0 <= j < w.len() && #[trigger] same_cell(s[t].place, j, s[k].place, i) {
            let j = choose|j: int|
                0 <= j < w.len() && #[trigger] same_cell(s[t].place, j, s[k].place, i);
            assert(np.chars@[i] == Character::Letter(w[j]));
            assert(same_cell(sol[t], j, sol[k], i));
            assert(agree(sol[t], sol[k]));
            assert(sol[t].chars@[j] == sol[k].chars@[i]);
            assert(sol[t].chars@[j] is Letter);
            assert(w[j] == sol[t].chars@[j]->0);
        } else {
            assert(np.chars@[i] == Character::Empty);
        }
    }
}

/// The cells slot `k` of the state ends up with when `w` is written into
/// the target slot.
pub open spec fn placed_cells(p: WordPlace, t: WordPlace, w: Seq<char>) -> Seq<Character> {
    Seq::new(slot_len(p), |i: int| cell_after_place(p, t, w, i))
}

/// Forward checking rejects the placement at slot `k`: writing `w` into
/// the target touches slot `k`, and no word of the effective list fits its
/// updated cells.
pub open spec fn blocks_placement(
    s: Seq<WordPlaceWithPossibleWords>,
    t: int,
    w: Seq<char>,
    eff: Seq<Seq<char>>,
    k: int,
) -> bool {
    let nc = placed_cells(s[k].place, s[t].place, w);
    &&& nc != s[k].place.chars@
    &&& forall|v: Seq<char>| #[trigger] eff.contains(v) ==> !fits_cells(v, nc)
}

/// What the placement loop guarantees of each rebuilt state entry.
spec fn placed_entry_ok(
    old_e: WordPlaceWithPossibleWords,
    t: WordPlace,
    w: Seq<char>,
    new_e: WordPlaceWithPossibleWords,
    eff: Seq<Seq<char>>,
) -> bool {
    &&& same_frame(old_e.place, new_e.place)
    &&& forall|i: int|
        0 <= i < slot_len(old_e.place) ==> new_e.place.chars@[i] == cell_after_place(
            old_e.place,
            t,
            w,
            i,
        )
    &&& new_e.possible_words.deep_view() == fit_filter(eff, new_e.place)
    &&& is_filled(new_e.place) ==> new_e.possible_words@.len() > 0
    &&& new_e.place.chars@ != old_e.place.chars@ ==> new_e.possible_words@.len() > 0
}

/// Result of attempting to write a word into a slot.
pub enum PlaceResult {
    Fits(Vec<WordPlaceWithPossibleWords>),
    DoesNotFit,
}

/// Writes `word` into the target slot and into every slot sharing a cell
/// with it, re-filtering the candidate set of every slot that changed
/// (forward checking).  Returns the new state, its cells pinned exactly by
/// [`cell_after_place`] (fixed letters kept, shared unknowns set, all other
/// cells unchanged) and every touched slot keeping a non-empty candidate
/// set; or `DoesNotFit`, exactly when some touched slot's re-filtered
/// candidate set would become empty — in which case no solution of the
/// state writes this word into the target slot.
pub fn place_word(
    state: &Vec<WordPlaceWithPossibleWords>,
    target: usize,
    word: &Vec<char>,
    Ghost(eff): Ghost<Seq<Seq<char>>>,
) -> (r: PlaceResult)
    requires
        state_inv(state@, eff),
        target < state@.len(),
        fits(word@, state@[target as int].place),
    ensures
        match r {
            PlaceResult::Fits(ns) => {
                &&& ns@.len() == state@.len()
                &&& state_inv(ns@, eff)
                &&& forall|k: int|
                    0 <= k < state@.len() ==> refines(state@[k].place, #[trigger] ns@[k].place)
                &&& forall|k: int, i: int|
                    0 <= k < state@.len() && 0 <= i < slot_len(state@[k].place)
                        ==> #[trigger] ns@[k].place.chars@[i] == cell_after_place(
                        state@[k].place,
                        state@[target as int].place,
                        word@,
                        i,
                    )
                &&& forall|k: int|
                    0 <= k < state@.len() && ns@[k].place.chars@ != (
                    #[trigger] state@[k].place.chars@) ==> ns@[k].possible_words@.len() > 0
                &&& forall|k: int|
                    0 <= k < state@.len() ==> !#[trigger] blocks_placement(
                        state@,
                        target as int,
                        word@,
                        eff,
                        k,
                    )
                &&& (!is_filled(state@[target as int].place) ==> state_empties(ns@)
                    < state_empties(state@))
                &&& forall|sol: Seq<WordPlace>|
                    #[trigger] solution_of(sol, state@, eff) && word_of(sol[target as int])
                        == word@ ==> solution_of(sol, ns@, eff)
            },
            PlaceResult::DoesNotFit => {
                &&& exists|k: int|
                    0 <= k < state@.len() && #[trigger] blocks_placement(
                        state@,
                        target as int,
                        word@,
                        eff,
                        k,
                    )
                &&& forall|sol: Seq<WordPlace>|
                    #[trigger] solution_of(sol, state@, eff) ==> word_of(sol[target as int])
                        != word@
            },
        },
{
    let n = state.len();
    let mut ns: Vec<WordPlaceWithPossibleWords> = Vec::new();
    let mut k: usize = 0;
    while k < n
        invariant
            k <= n,
            n == state@.len(),
            state_inv(state@, eff),
            target < n,
            fits(word@, state@[target as int].place),
            ns@.len() == k,
            forall|m: int|
                0 <= m < k ==> placed_entry_ok(
                    state@[m],
                    state@[target as int].place,
                    word@,
                    #[trigger] ns@[m],
                    eff,
                ),
        decreases n - k,
    {
        let ghost oldp = state@[k as int].place;
        let ghost tp = state@[target as int].place;
        let (newcells, changed) = updated_chars(&state[k].place, &state[target].place, word);
        let newplace = WordPlace {
            chars: newcells,
            x: state[k].place.x,
            y: state[k].place.y,
            dir: state[k].place.dir,
        };
        proof {
            assert(same_frame(oldp, newplace));
            assert forall|i: int|
                0 <= i < slot_len(oldp) && #[trigger] oldp.chars@[i] is Letter
                implies newplace.chars@[i] == oldp.chars@[i] by {
                assert(newplace.chars@[i] == cell_after_place(oldp, tp, word@, i));
            }
            assert(refines(oldp, newplace));
            assert forall|w2: Seq<char>| #[trigger] fits(w2, newplace) implies fits(w2, oldp) by {
                lemma_fits_refines(oldp, newplace, w2);
            }
        }
        if changed {
            let filtered = words_that_fit(&state[k].possible_words, &newplace);
            proof {
                lemma_fit_filter_twice(eff, oldp, newplace);
                assert(state@[k as int].possible_words.deep_view() == fit_filter(eff, oldp));
                assert(filtered.deep_view() == fit_filter(eff, newplace));
            }
            if filtered.len() == 0 {
                proof {
                    let nc = placed_cells(oldp, tp, word@);
                    assert(newplace.chars@ =~= nc);
                    let wi = choose|i: int|
                        0 <= i < slot_len(oldp) && oldp.chars@[i] is Empty && (
                        #[trigger] newplace.chars@[i]) is Letter;
                    assert(nc[wi] != oldp.chars@[wi]);
                    assert(nc != oldp.chars@);
                    assert(fit_filter(eff, newplace).len() == 0);
                    assert forall|v: Seq<char>| #[trigger] eff.contains(v)
                        implies !fits_cells(v, nc) by {
                        if fits_cells(v, nc) {
                            assert(fits(v, newplace));
                            lemma_fit_filter_members(eff, newplace);
                            assert(fit_filter(eff, newplace).contains(v));
                        }
                    }
                    assert(blocks_placement(state@, target as int, word@, eff, k as int));
                    assert forall|sol: Seq<WordPlace>|
                        #[trigger] solution_of(sol, state@, eff)
                        implies word_of(sol[target as int]) != word@ by {
                        if word_of(sol[target as int]) == word@ {
                            lemma_solution_fits_updated(
                                state@,
                                eff,
                                target as int,
                                word@,
                                sol,
                                k as int,
                                newplace,
                            );
                            lemma_fit_filter_members(eff, newplace);
                            assert(eff.contains(word_of(sol[k as int])));
                            assert(fit_filter(eff, newplace).contains(word_of(sol[k as int])));
                            assert(fit_filter(eff, newplace).len() == 0);
                        }
                    }
                }
                return PlaceResult::DoesNotFit;
            }
            ns.push(WordPlaceWithPossibleWords { place: newplace, possible_words: filtered });
        } else {
            let pwcopy = copy_words(&state[k].possible_words);
            proof {
                assert forall|i: int| 0 <= i < slot_len(oldp)
                    implies newplace.chars@[i] == oldp.chars@[i] by {
                    assert(newplace.chars@[i] == cell_after_place(oldp, tp, word@, i));
                    if oldp.chars@[i] is Empty {
                        assert(!(oldp.chars@[i] is Empty && newplace.chars@[i] is Letter));
                    }
                }
                assert(newplace.chars@ =~= oldp.chars@);
                lemma_fit_filter_congruence(eff, oldp, newplace);
                assert(pwcopy.deep_view() == fit_filter(eff, newplace));
            }
            ns.push(WordPlaceWithPossibleWords { place: newplace, possible_words: pwcopy });
        }
        k = k + 1;
    }
    proof {
        let ghost tp = state@[target as int].place;
        assert forall|a: int, b: int| 0 <= a < n && 0 <= b < n
            implies #[trigger] agree(ns@[a].place, ns@[b].place) by {
            assert(agree(state@[a].place, state@[b].place));
            lemma_place_preserves_agree(
                state@[a].place,
                state@[b].place,
                tp,
                word@,
                ns@[a].place,
                ns@[b].place,
            );
        }
        assert forall|m: int| 0 <= m < n implies wf_place(#[trigger] ns@[m].place) by {
            assert(wf_place(state@[m].place));
            assert(same_frame(state@[m].place, ns@[m].place));
        }
        assert forall|m: int| 0 <= m < n
            implies refines(state@[m].place, #[trigger] ns@[m].place) by {
            assert forall|i: int|
                0 <= i < slot_len(state@[m].place) && #[trigger] state@[m].place.chars@[i] is Letter
                implies ns@[m].place.chars@[i] == state@[m].place.chars@[i] by {
                assert(ns@[m].place.chars@[i] == cell_after_place(state@[m].place, tp, word@, i));
            }
        }
        assert(state_inv(ns@, eff));
        assert forall|k2: int, i: int|
            0 <= k2 < n && 0 <= i < slot_len(state@[k2].place)
            implies #[trigger] ns@[k2].place.chars@[i] == cell_after_place(
            state@[k2].place,
            tp,
            word@,
            i,
        ) by {
            assert(placed_entry_ok(state@[k2], tp, word@, ns@[k2], eff));
        }
        assert forall|k2: int|
            0 <= k2 < n && ns@[k2].place.chars@ != (#[trigger] state@[k2].place.chars@)
            implies ns@[k2].possible_words@.len() > 0 by {
            assert(placed_entry_ok(state@[k2], tp, word@, ns@[k2], eff));
        }
        assert forall|k2: int|
            0 <= k2 < n implies !#[trigger] blocks_placement(
            state@,
            target as int,
            word@,
            eff,
            k2,
        ) by {
            assert(placed_entry_ok(state@[k2], tp, word@, ns@[k2], eff));
            let nc = placed_cells(state@[k2].place, tp, word@);
            assert(ns@[k2].place.chars@ =~= nc);
            if nc != state@[k2].place.chars@ {
                assert(ns@[k2].possible_words@.len() > 0);
                let cached = ns@[k2].possible_words.deep_view();
                assert(cached.len() == ns@[k2].possible_words@.len());
                assert(cached == fit_filter(eff, ns@[k2].place));
                assert(cached.contains(cached[0]));
                lemma_fit_filter_members(eff, ns@[k2].place);
                assert(eff.contains(cached[0]) && fits(cached[0], ns@[k2].place));
                assert(fits_cells(cached[0], nc));
            }
        }
        if !is_filled(tp) {
            let wi = choose|wi: int| 0 <= wi < slot_len(tp) && !(tp.chars@[wi] is Letter);
            assert(same_cell(tp, wi, tp, wi));
            assert(ns@[target as int].place.chars@[wi] == cell_after_place(
                tp,
                tp,
                word@,
                wi,
            ));
            assert(ns@[target as int].place.chars@[wi] is Letter);
            assert forall|m: int| 0 <= m < n
                implies cells_refine(state@[m].place.chars@, #[trigger] ns@[m].place.chars@) by {
                assert forall|i: int| 0 <= i < slot_len(state@[m].place)
                    implies (#[trigger] ns@[m].place.chars@[i]) == state@[m].place.chars@[i] || (
                    state@[m].place.chars@[i] is Empty && ns@[m].place.chars@[i] is Letter) by {
                    assert(ns@[m].place.chars@[i] == cell_after_place(
                        state@[m].place,
                        tp,
                        word@,
                        i,
                    ));
                }
            }
            lemma_state_empties_lt(state@, ns@, target as int, wi);
        }
        assert forall|sol: Seq<WordPlace>|
            #[trigger] solution_of(sol, state@, eff) && word_of(sol[target as int]) == word@
            implies solution_of(sol, ns@, eff) by {
            assert forall|m: int| 0 <= m < n
                implies refines(ns@[m].place, #[trigger] sol[m]) by {
                lemma_solution_fits_updated(
                    state@,
                    eff,
                    target as int,
                    word@,
                    sol,
                    m,
                    ns@[m].place,
                );
                assert(fits(word_of(sol[m]), ns@[m].place));
                assert(is_filled(sol[m]));
                assert forall|i: int|
                    0 <= i < slot_len(ns@[m].place) && #[trigger] ns@[m].place.chars@[i] is Letter
                    implies sol[m].chars@[i] == ns@[m].place.chars@[i] by {
                    assert(word_of(sol[m])[i] == sol[m].chars@[i]->0);
                    assert(ns@[m].place.chars@[i] == Character::Letter(word_of(sol[m])[i]));
                    assert(sol[m].chars@[i] is Letter);
                }
            }
        }
    }
    PlaceResult::Fits(ns)
}


/// Refinement of slots is transitive.
proof fn lemma_refines_transitive(a: WordPlace, b: WordPlace, c: WordPlace)
    requires
        refines(a, b),
        refines(b, c),
    ensures
        refines(a, c),
{
    assert forall|i: int|
        0 <= i < slot_len(a) && #[trigger] a.chars@[i] is Letter
        implies c.chars@[i] == a.chars@[i] by {
        assert(b.chars@[i] == a.chars@[i]);
    }
}

/// The word of a filled slot fits every slot it refines.
proof fn lemma_refined_word_fits(a: WordPlace, b: WordPlace)
    requires
        refines(a, b),
        is_filled(b),
    ensures
        fits(word_of(b), a),
{
    assert forall|i: int|
        0 <= i < word_of(b).len() implies (#[trigger] a.chars@[i] is Empty || a.chars@[i]
            == Character::Letter(word_of(b)[i])) by {
        if a.chars@[i] is Letter {
            assert(b.chars@[i] == a.chars@[i]);
            assert(word_of(b)[i] == b.chars@[i]->0);
        }
    }
}

/// Agreement between two slots depends only on frames and cells.
proof fn lemma_agree_congruence(a: WordPlace, b: WordPlace, a2: WordPlace, b2: WordPlace)
    requires
        agree(a, b),
        same_place(a, a2),
        same_place(b, b2),
    ensures
        agree(a2, b2),
{
    assert forall|i: int, j: int|
        0 <= i < slot_len(a2) && 0 <= j < slot_len(b2) && #[trigger] same_cell(a2, i, b2, j)
        implies a2.chars@[i] == b2.chars@[j] by {
        assert(same_cell(a, i, b, j));
    }
}

/// Membership in a sequence extended by one element.
proof fn lemma_contains_push(s: Seq<Seq<char>>, x: Seq<char>)
    ensures
        forall|y: Seq<char>| #[trigger] s.push(x).contains(y) <==> s.contains(y) || y == x,
{
    assert forall|y: Seq<char>| #[trigger] s.push(x).contains(y) implies s.contains(y) || y == x by {
        let i = choose|i: int| 0 <= i < s.push(x).len() && s.push(x)[i] == y;
        if i < s.len() {
            assert(s[i] == y);
        }
    }
    assert forall|y: Seq<char>| s.contains(y) || y == x implies #[trigger] s.push(x).contains(y) by {
        if s.contains(y) {
            let i = choose|i: int| 0 <= i < s.len() && s[i] == y;
            assert(s.push(x)[i] == y);
        } else {
            assert(s.push(x)[s.len() as int] == y);
        }
    }
}

/// A word list's deep view reads off each word's characters.
pub proof fn lemma_deep_elem(ws: Vec<Vec<char>>, j: int)
    requires
        0 <= j < ws@.len(),
    ensures
        ws.deep_view()[j] == ws@[j]@,
{
    assert(ws.deep_view()[j] =~= ws@[j]@);
}

/// Are two words the same?
pub fn chars_equal(a: &Vec<char>, b: &Vec<char>) -> (r: bool)
    ensures
        r == (a@ == b@),
{
    if a.len() != b.len() {
        proof {
            assert(a@ != b@);
        }
        return false;
    }
    let n = a.len();
    let mut i: usize = 0;
    while i < n
        invariant
            i <= n,
            n == a@.len() == b@.len(),
            forall|j: int| 0 <= j < i ==> a@[j] == b@[j],
        decreases n - i,
    {
        if a[i] != b[i] {
            proof {
                assert(a@[i as int] != b@[i as int]);
            }
            return false;
        }
        i = i + 1;
    }
    proof {
        assert(a@ =~= b@);
    }
    true
}

/// Is the word in the list?
pub fn word_contained(ws: &Vec<Vec<char>>, w: &Vec<char>) -> (r: bool)
    ensures
        r == ws.deep_view().contains(w@),
{
    let n = ws.len();
    let mut i: usize = 0;
    while i < n
        invariant
            i <= n,
            n == ws@.len(),
            forall|j: int| 0 <= j < i ==> ws.deep_view()[j] != w@,
        decreases n - i,
    {
        let eq = chars_equal(&ws[i], w);
        proof {
            lemma_deep_elem(*ws, i as int);
        }
        if eq {
            proof {
                assert(ws.deep_view()[i as int] == w@);
            }
            return true;
        }
        i = i + 1;
    }
    proof {
        if ws.deep_view().contains(w@) {
            let j = choose|j: int| 0 <= j < ws.deep_view().len() && ws.deep_view()[j] == w@;
        }
    }
    false
}

/// Pushes onto `dst` the words of `src` it does not already hold.
fn append_missing(dst: &mut Vec<Vec<char>>, src: &Vec<Vec<char>>)
    ensures
        forall|w: Seq<char>|
            #[trigger] final(dst).deep_view().contains(w) <==> old(dst).deep_view().contains(w)
                || src.deep_view().contains(w),
{
    let n = src.len();
    let mut i: usize = 0;
    while i < n
        invariant
            i <= n,
            n == src@.len(),
            forall|w: Seq<char>|
                #[trigger] dst.deep_view().contains(w) <==> old(dst).deep_view().contains(w)
                    || src.deep_view().take(i as int).contains(w),
        decreases n - i,
    {
        let ghost pre = dst.deep_view();
        let w = copy_chars(&src[i]);
        proof {
            lemma_deep_elem(*src, i as int);
            assert(w@ == src.deep_view()[i as int]);
            assert(src.deep_view().take(i + 1) =~= src.deep_view().take(i as int).push(
                src.deep_view()[i as int],
            ));
            lemma_contains_push(src.deep_view().take(i as int), src.deep_view()[i as int]);
        }
        let have = word_contained(dst, &w);
        if !have {
            let ghost len0 = dst@.len();
            dst.push(w);
            proof {
                assert(dst@.len() == len0 + 1);
                assert(pre.len() == len0);
                lemma_deep_elem(*dst, len0 as int);
                assert(dst.deep_view()[len0 as int] =~= w@);
                assert forall|j: int| 0 <= j < len0 implies dst.deep_view()[j] == pre[j] by {
                }
                assert(dst.deep_view() =~= pre.push(w@));
                lemma_contains_push(pre, w@);
            }
        } else {
            proof {
                assert(dst.deep_view().contains(src.deep_view()[i as int]));
            }
        }
        i = i + 1;
    }
    proof {
        assert(src.deep_view().take(n as int) =~= src.deep_view());
    }
}

/// The word spelled by a fully filled slot.
fn extract_word(p: &WordPlace) -> (r: Vec<char>)
    requires
        is_filled(*p),
    ensures
        r@ == word_of(*p),
{
    let n = p.chars.len();
    let mut r: Vec<char> = Vec::new();
    let mut i: usize = 0;
    while i < n
        invariant
            i <= n,
            n == slot_len(*p),
            is_filled(*p),
            r@.len() == i,
            forall|j: int| 0 <= j < i ==> r@[j] == word_of(*p)[j],
        decreases n - i,
    {
        let c = match p.chars[i] {
            Character::Letter(l) => l,
            Character::Empty => {
                proof {
                    assert(false);
                }
                ' '
            },
        };
        r.push(c);
        i = i + 1;
    }
    proof {
        assert(r@ =~= word_of(*p));
    }
    r
}

/// The words already spelled by the fully filled slots of the input grid.
pub fn to_completed_words_from_places(word_places: &Vec<WordPlace>) -> (r: Vec<Vec<char>>)
    ensures
        r.deep_view() == completed_words(word_places@),
{
    let n = word_places.len();
    let mut r: Vec<Vec<char>> = Vec::new();
    let mut i: usize = 0;
    while i < n
        invariant
            i <= n,
            n == word_places@.len(),
            r@.len() == completed_words(word_places@.take(i as int)).len(),
            r.deep_view() == completed_words(word_places@.take(i as int)),
        decreases n - i,
    {
        let ghost pre = word_places@.take(i as int);
        let ghost post = word_places@.take(i + 1);
        let ghost dv0 = r.deep_view();
        proof {
            assert(post.drop_last() =~= pre);
            assert(post.last() == word_places@[i as int]);
        }
        if place_filled(&word_places[i]) {
            let ghost len0 = r@.len();
            let w = extract_word(&word_places[i]);
            r.push(w);
            proof {
                lemma_deep_elem(*(&r), len0 as int);
                assert(r.deep_view()[len0 as int] == word_of(word_places@[i as int]));
                assert forall|j: int| 0 <= j < len0 implies r.deep_view()[j] == dv0[j] by {
                }
                assert(r.deep_view() =~= completed_words(post));
            }
        } else {
            proof {
                assert(r.deep_view() =~= completed_words(post));
            }
        }
        i = i + 1;
    }
    proof {
        assert(word_places@.take(n as int) =~= word_places@);
    }
    r
}

/// Pairs every slot with its initial candidate set: the words of the list
/// that fit its length and fixed letters.
pub fn word_places_to_possible_words(
    wordlist: &Vec<Vec<char>>,
    word_places: &Vec<WordPlace>,
) -> (r: Vec<WordPlaceWithPossibleWords>)
    ensures
        r@.len() == word_places@.len(),
        forall|k: int| 0 <= k < r@.len() ==> same_place(#[trigger] r@[k].place, word_places@[k]),
        forall|k: int|
            0 <= k < r@.len() ==> (#[trigger] r@[k].possible_words.deep_view()) == fit_filter(
                wordlist.deep_view(),
                word_places@[k],
            ),
{
    let n = word_places.len();
    let mut r: Vec<WordPlaceWithPossibleWords> = Vec::new();
    let mut i: usize = 0;
    while i < n
        invariant
            i <= n,
            n == word_places@.len(),
            r@.len() == i,
            forall|k: int| 0 <= k < i ==> same_place(#[trigger] r@[k].place, word_places@[k]),
            forall|k: int|
                0 <= k < i ==> (#[trigger] r@[k].possible_words.deep_view()) == fit_filter(
                    wordlist.deep_view(),
                    word_places@[k],
                ),
        decreases n - i,
    {
        let place = word_places[i].clone();
        let cands = words_that_fit(wordlist, &place);
        proof {
            lemma_fit_filter_congruence(wordlist.deep_view(), place, word_places@[i as int]);
        }
        r.push(WordPlaceWithPossibleWords { place, possible_words: cands });
        i = i + 1;
    }
    r
}

/// A letter cell for the given character.
pub(crate) fn letter_of(c: char) -> (r: Character)
    ensures
        r == Character::Letter(c),
{
    Character::Letter(c)
}

/// Cells spelling the given word: one fixed letter per character.
fn letter_cells(w: &Vec<char>) -> (r: Vec<Character>)
    ensures
        r@.len() == w@.len(),
        forall|l: int| 0 <= l < w@.len() ==> r@[l] == Character::Letter(w@[l]),
{
    let m = w.len();
    let mut cells: Vec<Character> = Vec::new();
    let mut j: usize = 0;
    while j < m
        invariant
            j <= m,
            m == w@.len(),
            cells@.len() == j,
            forall|l: int| 0 <= l < j ==> cells@[l] == Character::Letter(w@[l]),
        decreases m - j,
    {
        let c = w[j];
        cells.push(letter_of(c));
        j = j + 1;
    }
    cells
}

/// Reads the solved grid out of a state whose slots are all filled: each
/// slot's word is rebuilt from the single kind of candidate its cache can
/// still hold.
pub fn possible_places_to_word_places(
    word_places_with_possible_words: &Vec<WordPlaceWithPossibleWords>,
) -> (r: Vec<WordPlace>)
    requires
        forall|k: int|
            0 <= k < word_places_with_possible_words@.len() ==> is_filled(
                #[trigger] word_places_with_possible_words@[k].place,
            ),
        forall|k: int|
            0 <= k < word_places_with_possible_words@.len()
                ==> #[trigger] word_places_with_possible_words@[k].possible_words@.len() > 0,
        forall|k: int, j: int|
            0 <= k < word_places_with_possible_words@.len() && 0 <= j
                < word_places_with_possible_words@[k].possible_words@.len() ==> fits(
                #[trigger] word_places_with_possible_words@[k].possible_words.deep_view()[j],
                word_places_with_possible_words@[k].place,
            ),
    ensures
        r@.len() == word_places_with_possible_words@.len(),
        forall|k: int|
            0 <= k < r@.len() ==> same_place(
                #[trigger] r@[k],
                word_places_with_possible_words@[k].place,
            ),
{
    let s = word_places_with_possible_words;
    let n = s.len();
    let mut r: Vec<WordPlace> = Vec::new();
    let mut i: usize = 0;
    while i < n
        invariant
            i <= n,
            n == s@.len(),
            r@.len() == i,
            forall|k: int|
                0 <= k < s@.len() ==> is_filled(#[trigger] s@[k].place),
            forall|k: int| 0 <= k < s@.len() ==> #[trigger] s@[k].possible_words@.len() > 0,
            forall|k: int, j: int|
                0 <= k < s@.len() && 0 <= j < s@[k].possible_words@.len() ==> fits(
                    #[trigger] s@[k].possible_words.deep_view()[j],
                    s@[k].place,
                ),
            forall|k: int| 0 <= k < i ==> same_place(#[trigger] r@[k], s@[k].place),
        decreases n - i,
    {
        let w0 = copy_chars(&s[i].possible_words[0]);
        let m = w0.len();
        proof {
            lemma_deep_elem(s@[i as int].possible_words, 0);
            assert(fits(s@[i as int].possible_words.deep_view()[0], s@[i as int].place));
            assert(w0@ == s@[i as int].possible_words.deep_view()[0]);
            lemma_fits_filled(s@[i as int].place, w0@);
            assert(w0@ == word_of(s@[i as int].place));
        }
        let cells = letter_cells(&w0);
        proof {
            assert forall|l: int|
                0 <= l < slot_len(s@[i as int].place)
                implies cells@[l] == s@[i as int].place.chars@[l] by {
                assert(s@[i as int].place.chars@[l] is Letter);
                assert(w0@[l] == s@[i as int].place.chars@[l]->0);
            }
            assert(cells@ =~= s@[i as int].place.chars@);
        }
        let place = WordPlace { chars: cells, x: s[i].place.x, y: s[i].place.y, dir: s[i].place.dir };
        r.push(place);
        i = i + 1;
    }
    r
}


/// The word list as character vectors.
pub fn strings_to_words(ws: &Vec<String>) -> (r: Vec<Vec<char>>)
    ensures
        r.deep_view() == ws.deep_view(),
{
    let n = ws.len();
    let mut r: Vec<Vec<char>> = Vec::new();
    let mut i: usize = 0;
    while i < n
        invariant
            i <= n,
            n == ws@.len(),
            r@.len() == i,
            r.deep_view() == ws.deep_view().take(i as int),
        decreases n - i,
    {
        let w = crate::text::str_to_chars(ws[i].as_str());
        let ghost len0 = r@.len();
        r.push(w);
        proof {
            assert(ws.deep_view()[i as int] == ws@[i as int].deep_view());
            lemma_deep_elem(*(&r), i as int);
            assert(r.deep_view()[i as int] =~= ws.deep_view()[i as int]);
            assert forall|j: int| 0 <= j < i implies r.deep_view()[j] == ws.deep_view().take(
                i + 1,
            )[j] by {
                assert(r.deep_view()[j] == r@[j].deep_view());
            }
            assert(r.deep_view() =~= ws.deep_view().take(i + 1));
        }
        i = i + 1;
    }
    proof {
        assert(ws.deep_view().take(n as int) =~= ws.deep_view());
    }
    r
}

/// A valid filling of the input slots: complete, pairwise consistent,
/// refining the input cells, and spelling in every slot a word of the
/// effective list (the input list plus the words the input grid had
/// already spelled out).
pub open spec fn valid_solution(
    words: Seq<Seq<char>>,
    ps: Seq<WordPlace>,
    sol: Seq<WordPlace>,
) -> bool {
    &&& sol.len() == ps.len()
    &&& forall|k: int| 0 <= k < sol.len() ==> refines(ps[k], #[trigger] sol[k])
    &&& forall|k: int| 0 <= k < sol.len() ==> is_filled(#[trigger] sol[k])
    &&& consistent(sol)
    &&& forall|k: int| 0 <= k < sol.len() ==> in_effective(words, ps, word_of(#[trigger] sol[k]))
}

/// The recursive search: picks the slot with the fewest candidates, tries
/// each candidate in order, and recurses on the first state each feasible
/// placement yields.  Returns a solution of the state, or `Unsolved`
/// exactly when the state has none.
fn solve_cached(
    state: Vec<WordPlaceWithPossibleWords>,
    Ghost(eff): Ghost<Seq<Seq<char>>>,
) -> (r: SolveState)
    requires
        state_inv(state@, eff),
    ensures
        match r {
            SolveState::Solved(sol) => solution_of(sol@, state@, eff),
            SolveState::Unsolved => forall|sol: Seq<WordPlace>| !solution_of(sol, state@, eff),
        },
    decreases state_empties(state@),
{
    if is_solved(&state) {
        proof {
            assert forall|k: int|
                0 <= k < state@.len() implies #[trigger] state@[k].possible_words@.len() > 0 by {
                assert(is_filled(state@[k].place));
            }
            assert forall|k: int, j: int|
                0 <= k < state@.len() && 0 <= j < state@[k].possible_words@.len() implies fits(
                #[trigger] state@[k].possible_words.deep_view()[j],
                state@[k].place,
            ) by {
                let cached = state@[k].possible_words.deep_view();
                assert(cached.contains(cached[j]));
                lemma_fit_filter_members(eff, state@[k].place);
            }
        }
        let sol = possible_places_to_word_places(&state);
        proof {
            assert forall|k: int|
                0 <= k < sol@.len() implies refines(state@[k].place, #[trigger] sol@[k])
                    && is_filled(sol@[k]) && eff.contains(word_of(sol@[k])) by {
                assert(same_place(sol@[k], state@[k].place));
                assert(sol@[k].chars@ == state@[k].place.chars@);
                assert(is_filled(sol@[k]));
                let cached = state@[k].possible_words.deep_view();
                assert(cached.contains(cached[0]));
                lemma_fit_filter_members(eff, state@[k].place);
                assert(eff.contains(cached[0]) && fits(cached[0], state@[k].place));
                lemma_fits_filled(state@[k].place, cached[0]);
                assert(word_of(sol@[k]) =~= word_of(state@[k].place));
            }
            assert forall|a: int, b: int|
                0 <= a < sol@.len() && 0 <= b < sol@.len() implies #[trigger] agree(
                sol@[a],
                sol@[b],
            ) by {
                assert(agree(state@[a].place, state@[b].place));
                assert(same_place(state@[a].place, sol@[a]));
                assert(same_place(state@[b].place, sol@[b]));
                lemma_agree_congruence(state@[a].place, state@[b].place, sol@[a], sol@[b]);
            }
            assert(solution_of(sol@, state@, eff));
        }
        return SolveState::Solved(sol);
    }
    let best = find_best_candidate(&state);
    let m = state[best].possible_words.len();
    let mut wi: usize = 0;
    while wi < m
        invariant
            wi <= m,
            state_inv(state@, eff),
            best < state@.len(),
            !is_filled(state@[best as int].place),
            m == state@[best as int].possible_words@.len(),
            forall|sol: Seq<WordPlace>|
                #[trigger] solution_of(sol, state@, eff) ==> forall|j: int|
                    0 <= j < wi ==> word_of(sol[best as int])
                        != #[trigger] state@[best as int].possible_words.deep_view()[j],
        decreases m - wi,
    {
        let w = copy_chars(&state[best].possible_words[wi]);
        proof {
            lemma_deep_elem(state@[best as int].possible_words, wi as int);
            assert(w@ == state@[best as int].possible_words.deep_view()[wi as int]);
            let cached = state@[best as int].possible_words.deep_view();
            assert(cached.contains(cached[wi as int]));
            lemma_fit_filter_members(eff, state@[best as int].place);
            assert(fits(w@, state@[best as int].place));
        }
        match place_word(&state, best, &w, Ghost(eff)) {
            PlaceResult::Fits(ns) => {
                let ghost nsview = ns@;
                match solve_cached(ns, Ghost(eff)) {
                    SolveState::Solved(sol) => {
                        proof {
                            assert forall|k: int|
                                0 <= k < sol@.len() implies refines(
                                state@[k].place,
                                #[trigger] sol@[k],
                            ) by {
                                assert(refines(state@[k].place, nsview[k].place));
                                assert(refines(nsview[k].place, sol@[k]));
                                lemma_refines_transitive(
                                    state@[k].place,
                                    nsview[k].place,
                                    sol@[k],
                                );
                            }
                            assert(solution_of(sol@, state@, eff));
                        }
                        return SolveState::Solved(sol);
                    },
                    SolveState::Unsolved => {
                        proof {
                            assert forall|sol: Seq<WordPlace>|
                                #[trigger] solution_of(sol, state@, eff)
                                implies word_of(sol[best as int]) != w@ by {
                                if word_of(sol[best as int]) == w@ {
                                    assert(solution_of(sol, nsview, eff));
                                }
                            }
                        }
                    },
                }
            },
            PlaceResult::DoesNotFit => {
            },
        }
        wi = wi + 1;
    }
    proof {
        assert forall|sol: Seq<WordPlace>| #[trigger] solution_of(sol, state@, eff)
            implies false by {
            let wsol = word_of(sol[best as int]);
            assert(refines(state@[best as int].place, sol[best as int]));
            assert(is_filled(sol[best as int]));
            lemma_refined_word_fits(state@[best as int].place, sol[best as int]);
            assert(eff.contains(wsol));
            lemma_fit_filter_members(eff, state@[best as int].place);
            let cached = state@[best as int].possible_words.deep_view();
            assert(cached.contains(wsol));
            let j = choose|j: int| 0 <= j < cached.len() && cached[j] == wsol;
            assert(wsol != cached[j]);
        }
    }
    SolveState::Unsolved
}

/// Fills every slot with a word so that all intersections agree.  The
/// effective word list is the input list plus the words spelled by slots
/// the input had already fully filled.  A `Solved` result is a valid
/// solution of the input; `Unsolved` is returned exactly when no valid
/// solution exists.
pub fn solve(wordlist: Vec<String>, word_places: Vec<WordPlace>) -> (r: SolveState)
    requires
        forall|k: int| 0 <= k < word_places@.len() ==> wf_place(#[trigger] word_places@[k]),
        consistent(word_places@),
    ensures
        match r {
            SolveState::Solved(sol) => valid_solution(wordlist.deep_view(), word_places@, sol@),
            SolveState::Unsolved => forall|sol: Seq<WordPlace>|
                !valid_solution(wordlist.deep_view(), word_places@, sol),
        },
{
    let ghost ps0 = word_places@;
    let words = strings_to_words(&wordlist);
    let completed = to_completed_words_from_places(&word_places);
    let mut eff_vec: Vec<Vec<char>> = Vec::new();
    let ghost eff0 = eff_vec.deep_view();
    append_missing(&mut eff_vec, &completed);
    append_missing(&mut eff_vec, &words);
    let ghost eff = eff_vec.deep_view();
    proof {
        assert forall|w: Seq<char>|
            #[trigger] eff.contains(w) <==> in_effective(wordlist.deep_view(), ps0, w) by {
            if eff0.contains(w) {
                let j = choose|j: int| 0 <= j < eff0.len() && eff0[j] == w;
            }
        }
    }
    let state = word_places_to_possible_words(&eff_vec, &word_places);
    let ghost sv = state@;
    proof {
        assert forall|k: int| 0 <= k < sv.len() implies wf_place(#[trigger] sv[k].place)
            && (#[trigger] sv[k].possible_words.deep_view()) == fit_filter(eff, sv[k].place) by {
            assert(same_place(sv[k].place, ps0[k]));
            lemma_fit_filter_congruence(eff, ps0[k], sv[k].place);
        }
        assert forall|a: int, b: int|
            0 <= a < sv.len() && 0 <= b < sv.len() implies #[trigger] agree(
            sv[a].place,
            sv[b].place,
        ) by {
            assert(agree(ps0[a], ps0[b]));
            assert(same_place(ps0[a], sv[a].place));
            assert(same_place(ps0[b], sv[b].place));
            lemma_agree_congruence(ps0[a], ps0[b], sv[a].place, sv[b].place);
        }
        assert forall|k: int|
            0 <= k < sv.len() && is_filled(#[trigger] sv[k].place)
            implies sv[k].possible_words@.len() > 0 by {
            assert(sv[k].place.chars@ == ps0[k].chars@);
            assert(is_filled(ps0[k]));
            lemma_completed_words_contains(ps0, k);
            assert(completed.deep_view().contains(word_of(ps0[k])));
            assert(eff.contains(word_of(ps0[k])));
            assert(word_of(sv[k].place) =~= word_of(ps0[k]));
            lemma_fits_filled(sv[k].place, word_of(sv[k].place));
            lemma_fit_filter_members(eff, sv[k].place);
            assert(fit_filter(eff, sv[k].place).contains(word_of(sv[k].place)));
            assert(sv[k].possible_words.deep_view().len() > 0);
        }
        assert(state_inv(sv, eff));
    }
    let result = solve_cached(state, Ghost(eff));
    proof {
        assert forall|sol: Seq<WordPlace>|
            #[trigger] solution_of(sol, sv, eff) <==> valid_solution(
                wordlist.deep_view(),
                ps0,
                sol,
            ) by {
            assert(sv.len() == ps0.len());
            if solution_of(sol, sv, eff) {
                assert forall|k: int| 0 <= k < sol.len() implies refines(
                    ps0[k],
                    #[trigger] sol[k],
                ) by {
                    assert(refines(sv[k].place, sol[k]));
                    assert(same_place(sv[k].place, ps0[k]));
                }
                assert forall|k: int|
                    0 <= k < sol.len() implies in_effective(
                    wordlist.deep_view(),
                    ps0,
                    word_of(#[trigger] sol[k]),
                ) by {
                    assert(eff.contains(word_of(sol[k])));
                }
                assert(valid_solution(wordlist.deep_view(), ps0, sol));
            }
            if valid_solution(wordlist.deep_view(), ps0, sol) {
                assert forall|k: int| 0 <= k < sol.len() implies refines(
                    sv[k].place,
                    #[trigger] sol[k],
                ) by {
                    assert(refines(ps0[k], sol[k]));
                    assert(same_place(sv[k].place, ps0[k]));
                }
                assert forall|k: int|
                    0 <= k < sol.len() implies eff.contains(word_of(#[trigger] sol[k])) by {
                    assert(in_effective(wordlist.deep_view(), ps0, word_of(sol[k])));
                }
                assert(solution_of(sol, sv, eff));
            }
        }
        if result is Solved {
            let solv = result->0;
            assert(solution_of(solv@, sv, eff));
            assert(valid_solution(wordlist.deep_view(), ps0, solv@));
        } else {
            assert forall|sol: Seq<WordPlace>|
                !valid_solution(wordlist.deep_view(), ps0, sol) by {
                if valid_solution(wordlist.deep_view(), ps0, sol) {
                    assert(solution_of(sol, sv, eff));
                }
            }
        }
    }
    result
}


/// Pruning correctness: when the one effective word that could fill some
/// slot is taken out of the word list (and the grid itself does not spell
/// it), no valid solution remains, so `solve` on the shrunken list must
/// answer `Unsolved`.
pub proof fn lemma_sole_filler_pruning(
    words: Seq<Seq<char>>,
    shrunk: Seq<Seq<char>>,
    ps: Seq<WordPlace>,
    k: int,
    u: Seq<char>,
)
    requires
        0 <= k < ps.len(),
        forall|w: Seq<char>| in_effective(words, ps, w) && fits(w, #[trigger] ps[k]) ==> w == u,
        forall|w: Seq<char>| #[trigger] shrunk.contains(w) ==> words.contains(w) && w != u,
        !completed_words(ps).contains(u),
    ensures
        forall|sol: Seq<WordPlace>| !valid_solution(shrunk, ps, sol),
{
    assert forall|sol: Seq<WordPlace>| !valid_solution(shrunk, ps, sol) by {
        if valid_solution(shrunk, ps, sol) {
            let w = word_of(sol[k]);
            assert(refines(ps[k], sol[k]));
            assert(is_filled(sol[k]));
            lemma_refined_word_fits(ps[k], sol[k]);
            assert(in_effective(shrunk, ps, w));
            if shrunk.contains(w) {
                assert(in_effective(words, ps, w));
                assert(w == u);
                assert(w != u);
            } else {
                assert(completed_words(ps).contains(w));
                assert(in_effective(words, ps, w));
                assert(w == u);
            }
        }
    }
}


/// Word lists holding the same words admit exactly the same valid
/// solutions: duplicates and reordering in the list change nothing.
pub proof fn lemma_same_words_same_solutions(
    wl1: Seq<Seq<char>>,
    wl2: Seq<Seq<char>>,
    ps: Seq<WordPlace>,
    sol: Seq<WordPlace>,
)
    requires
        forall|w: Seq<char>| wl1.contains(w) <==> #[trigger] wl2.contains(w),
    ensures
        valid_solution(wl1, ps, sol) <==> valid_solution(wl2, ps, sol),
{
    if valid_solution(wl1, ps, sol) {
        assert forall|k: int|
            0 <= k < sol.len() implies in_effective(wl2, ps, word_of(#[trigger] sol[k])) by {
            assert(in_effective(wl1, ps, word_of(sol[k])));
        }
    }
    if valid_solution(wl2, ps, sol) {
        assert forall|k: int|
            0 <= k < sol.len() implies in_effective(wl1, ps, word_of(#[trigger] sol[k])) by {
            assert(in_effective(wl2, ps, word_of(sol[k])));
        }
    }
}

} // verus!
