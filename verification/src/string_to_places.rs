//! The grid parser and the result formatter: turns a visual grid
//! description into word slots, and renders a search result back to text.
//!
//! Grid symbols: `.` is a blocked cell, `x` an unknown cell of a slot,
//! any other character a pre-filled letter.  Horizontal slots are maximal
//! runs within a row, vertical slots maximal runs within a column; runs
//! shorter than [`MIN_WORD_LENGTH`] are discarded.

use vstd::prelude::*;

use crate::direction::Direction;
use crate::solver::SolveState;
use crate::text::{
    chars_to_string, join_lines, push_chars, spec_lines, split_lines, str_to_chars, trim_grid,
    trim_line_chars, trimmed_lines,
};
use crate::word_place::{
    cell_x, cell_y, is_filled, slot_len, wf_place, word_of, Character, WordPlace,
};

verus! {

/// Slots shorter than this many cells are not word slots.
pub const MIN_WORD_LENGTH: usize = 3;

/// The cell value a grid symbol stands for: `x` an unknown cell, any
/// other (non-blocked) symbol a fixed letter.
pub open spec fn cell_of_char(c: char) -> Character {
    if c == 'x' {
        Character::Empty
    } else {
        Character::Letter(c)
    }
}

/// Every line of the grid has the width of the first.
pub open spec fn rectangular(g: Seq<Seq<char>>) -> bool {
    forall|y: int| 0 <= y < g.len() ==> (#[trigger] g[y]).len() == g[0].len()
}

/// The slot lies on the grid: each of its cells is inside the grid on a
/// non-blocked symbol, and holds the value that symbol stands for.
pub open spec fn place_matches_grid(g: Seq<Seq<char>>, p: WordPlace) -> bool {
    forall|i: int|
        0 <= i < slot_len(p) ==> {
            &&& 0 <= cell_y(p, i) < g.len()
            &&& 0 <= cell_x(p, i) < g[cell_y(p, i)].len()
            &&& #[trigger] g[cell_y(p, i)][cell_x(p, i)] != '.'
            &&& p.chars@[i] == cell_of_char(g[cell_y(p, i)][cell_x(p, i)])
        }
}

/// The slot is a maximal run: a blocked symbol or the grid edge lies on
/// either side of it along its orientation.
pub open spec fn maximal_on_grid(g: Seq<Seq<char>>, p: WordPlace) -> bool {
    if p.dir is Horizontal {
        &&& (p.x == 0 || g[p.y as int][p.x - 1] == '.')
        &&& (p.x + slot_len(p) == g[p.y as int].len() || g[p.y as int][p.x + slot_len(p)] == '.')
    } else {
        &&& (p.y == 0 || g[p.y - 1][p.x as int] == '.')
        &&& (p.y + slot_len(p) == g.len() || g[p.y + slot_len(p)][p.x as int] == '.')
    }
}

/// What the parser promises of each slot it extracts from a grid.
pub open spec fn good_place(g: Seq<Seq<char>>, p: WordPlace) -> bool {
    &&& wf_place(p)
    &&& slot_len(p) >= MIN_WORD_LENGTH
    &&& place_matches_grid(g, p)
    &&& maximal_on_grid(g, p)
}

/// Slots on one grid never disagree: every cell value is the one the grid
/// symbol under it stands for.
pub proof fn lemma_grid_places_consistent(g: Seq<Seq<char>>, ps: Seq<WordPlace>)
    requires
        forall|k: int| 0 <= k < ps.len() ==> place_matches_grid(g, #[trigger] ps[k]),
    ensures
        crate::word_place::consistent(ps),
{
    assert forall|a: int, b: int|
        0 <= a < ps.len() && 0 <= b < ps.len() implies #[trigger] crate::word_place::agree(
        ps[a],
        ps[b],
    ) by {
        assert forall|i: int, j: int|
            0 <= i < slot_len(ps[a]) && 0 <= j < slot_len(ps[b])
                && #[trigger] crate::word_place::same_cell(ps[a], i, ps[b], j)
            implies ps[a].chars@[i] == ps[b].chars@[j] by {
            assert(ps[a].chars@[i] == cell_of_char(g[cell_y(ps[a], i)][cell_x(ps[a], i)]));
            assert(ps[b].chars@[j] == cell_of_char(g[cell_y(ps[b], j)][cell_x(ps[b], j)]));
        }
    }
}

/// One positioned grid symbol, as handed to the run scanner.
#[derive(Clone, Copy, Debug)]
pub struct Char {
    pub x: usize,
    pub y: usize,
    pub c: char,
    pub dir: Direction,
}

/// Cleans up a grid text: trims every line, drops blank lines, and joins
/// the rest with single newlines.
pub fn trim_indent_and_whitespace(input: &str) -> (r: String)
    ensures
        r@ == trim_grid(input@),
{
    let chars = str_to_chars(input);
    let lines = split_lines(&chars);
    let n = lines.len();
    let mut kept: Vec<Vec<char>> = Vec::new();
    let mut i: usize = 0;
    proof {
        assert(kept.deep_view() =~= trimmed_lines(lines.deep_view().take(0)));
    }
    while i < n
        invariant
            i <= n,
            n == lines@.len(),
            lines@.len() == lines.deep_view().len(),
            kept@.len() == trimmed_lines(lines.deep_view().take(i as int)).len(),
            kept.deep_view() == trimmed_lines(lines.deep_view().take(i as int)),
        decreases n - i,
    {
        let ghost pre = lines.deep_view().take(i as int);
        let ghost post = lines.deep_view().take(i + 1);
        proof {
            assert(post.drop_last() =~= pre);
            crate::solver::lemma_deep_elem(*(&lines), i as int);
            assert(post.last() == lines@[i as int]@);
        }
        let t = trim_line_chars(&lines[i]);
        if t.len() > 0 {
            let ghost dv0 = kept.deep_view();
            let ghost len0 = kept@.len();
            let ghost tv = t@;
            kept.push(t);
            proof {
                crate::solver::lemma_deep_elem(*(&kept), len0 as int);
                assert(kept.deep_view()[len0 as int] == tv);
                assert forall|j: int| 0 <= j < len0 implies kept.deep_view()[j] == dv0[j] by {
                }
                assert(kept.deep_view() =~= trimmed_lines(post));
            }
        } else {
            proof {
                assert(kept.deep_view() =~= trimmed_lines(post));
            }
        }
        i = i + 1;
    }
    proof {
        assert(lines.deep_view().take(n as int) =~= lines.deep_view());
    }
    let m = kept.len();
    let mut out: Vec<char> = Vec::new();
    let mut j: usize = 0;
    proof {
        assert(out@ =~= join_lines(kept.deep_view().take(0)));
    }
    while j < m
        invariant
            j <= m,
            m == kept@.len(),
            kept.deep_view() == trimmed_lines(lines.deep_view()),
            out@ == join_lines(kept.deep_view().take(j as int)),
        decreases m - j,
    {
        let ghost pre = kept.deep_view().take(j as int);
        let ghost post = kept.deep_view().take(j + 1);
        proof {
            assert(post.drop_last() =~= pre);
            crate::solver::lemma_deep_elem(*(&kept), j as int);
            assert(post.last() == kept@[j as int]@);
        }
        if j > 0 {
            out.push('\n');
        }
        push_chars(&mut out, &kept[j]);
        proof {
            if j == 0 {
                assert(post.len() == 1);
                assert(out@ =~= join_lines(post));
            } else {
                assert(post.len() >= 2);
                assert(out@ =~= join_lines(pre) + seq!['\n'] + kept@[j as int]@);
            }
        }
        j = j + 1;
    }
    proof {
        assert(kept.deep_view().take(m as int) =~= kept.deep_view());
    }
    chars_to_string(&out)
}

/// The grid's rows, one string per line.
pub fn to_rows(input: String) -> (r: Vec<String>)
    ensures
        r.deep_view() == spec_lines(input@),
{
    let chars = str_to_chars(input.as_str());
    let lines = split_lines(&chars);
    let n = lines.len();
    let mut r: Vec<String> = Vec::new();
    let mut i: usize = 0;
    while i < n
        invariant
            i <= n,
            n == lines@.len(),
            lines.deep_view() == spec_lines(input@),
            r@.len() == i,
            forall|j: int| 0 <= j < i ==> #[trigger] r@[j]@ == lines.deep_view()[j],
        decreases n - i,
    {
        let line = chars_to_string(&lines[i]);
        r.push(line);
        proof {
            crate::solver::lemma_deep_elem(*(&lines), i as int);
        }
        i = i + 1;
    }
    proof {
        assert forall|j: int| 0 <= j < n implies r.deep_view()[j] == spec_lines(input@)[j] by {
            assert(r.deep_view()[j] == r@[j].deep_view());
            assert(r@[j]@ == lines.deep_view()[j]);
        }
        assert(r.deep_view() =~= spec_lines(input@));
    }
    r
}

/// The grid's rows as positioned symbols, left to right, marked
/// horizontal.
pub fn to_rows_chars(input: Vec<String>) -> (r: Vec<Vec<Char>>)
    ensures
        r@.len() == input@.len(),
        forall|y: int| 0 <= y < input@.len() ==> (#[trigger] r@[y])@.len() == input@[y]@.len(),
        forall|y: int, x: int|
            0 <= y < input@.len() && 0 <= x < input@[y]@.len() ==> {
                &&& (#[trigger] r@[y]@[x]).x == x
                &&& r@[y]@[x].y == y
                &&& r@[y]@[x].c == input@[y]@[x]
                &&& r@[y]@[x].dir == Direction::Horizontal
            },
{
    let n = input.len();
    let mut r: Vec<Vec<Char>> = Vec::new();
    let mut y: usize = 0;
    while y < n
        invariant
            y <= n,
            n == input@.len(),
            r@.len() == y,
            forall|j: int| 0 <= j < y ==> (#[trigger] r@[j])@.len() == input@[j]@.len(),
            forall|j: int, x: int|
                0 <= j < y && 0 <= x < input@[j]@.len() ==> {
                    &&& (#[trigger] r@[j]@[x]).x == x
                    &&& r@[j]@[x].y == j
                    &&& r@[j]@[x].c == input@[j]@[x]
                    &&& r@[j]@[x].dir == Direction::Horizontal
                },
        decreases n - y,
    {
        let line = &input[y];
        let w = line.as_str().unicode_len();
        let mut row: Vec<Char> = Vec::new();
        let mut x: usize = 0;
        while x < w
            invariant
                x <= w,
                w == input@[y as int]@.len(),
                y < input@.len(),
                line@ == input@[y as int]@,
                row@.len() == x,
                forall|i: int|
                    0 <= i < x ==> {
                        &&& (#[trigger] row@[i]).x == i
                        &&& row@[i].y == y
                        &&& row@[i].c == input@[y as int]@[i]
                        &&& row@[i].dir == Direction::Horizontal
                    },
            decreases w - x,
        {
            let c = line.as_str().get_char(x);
            row.push(Char { x, y, c, dir: Direction::Horizontal });
            x = x + 1;
        }
        r.push(row);
        y = y + 1;
    }
    r
}

/// The grid's columns, one string per column, top to bottom.
pub fn to_columns(input: String) -> (r: Vec<String>)
    requires
        spec_lines(input@).len() > 0,
        rectangular(spec_lines(input@)),
    ensures
        r@.len() == spec_lines(input@)[0].len(),
        forall|x: int|
            0 <= x < r@.len() ==> (#[trigger] r@[x])@ == Seq::new(
                spec_lines(input@).len(),
                |y: int| spec_lines(input@)[y][x],
            ),
{
    let ghost g = spec_lines(input@);
    let chars = str_to_chars(input.as_str());
    let lines = split_lines(&chars);
    let h = lines.len();
    proof {
        assert(lines@.len() == lines.deep_view().len());
    }
    let w = lines[0].len();
    proof {
        crate::solver::lemma_deep_elem(*(&lines), 0);
        assert(lines@[0]@ == g[0]);
    }
    let mut r: Vec<String> = Vec::new();
    let mut x: usize = 0;
    while x < w
        invariant
            x <= w,
            h == lines@.len() == g.len(),
            h > 0,
            w == g[0].len(),
            lines.deep_view() == g,
            rectangular(g),
            r@.len() == x,
            forall|j: int|
                0 <= j < x ==> (#[trigger] r@[j])@ == Seq::new(g.len(), |y: int| g[y][j]),
        decreases w - x,
    {
        let mut col: Vec<char> = Vec::new();
        let mut y: usize = 0;
        while y < h
            invariant
                y <= h,
                x < w,
                h == lines@.len() == g.len(),
                w == g[0].len(),
                lines.deep_view() == g,
                rectangular(g),
                col@.len() == y,
                forall|i: int| 0 <= i < y ==> #[trigger] col@[i] == g[i][x as int],
            decreases h - y,
        {
            proof {
                crate::solver::lemma_deep_elem(*(&lines), y as int);
                assert(lines@[y as int]@ == g[y as int]);
                assert(g[y as int].len() == g[0].len());
            }
            let c = lines[y][x];
            col.push(c);
            y = y + 1;
        }
        let colstr = chars_to_string(&col);
        r.push(colstr);
        proof {
            assert(r@[x as int]@ =~= Seq::new(g.len(), |y: int| g[y][x as int]));
        }
        x = x + 1;
    }
    r
}

/// The grid's columns as positioned symbols, top to bottom, marked
/// vertical.
pub fn to_columns_chars(columns: Vec<String>) -> (r: Vec<Vec<Char>>)
    ensures
        r@.len() == columns@.len(),
        forall|x: int| 0 <= x < columns@.len() ==> (#[trigger] r@[x])@.len() == columns@[x]@.len(),
        forall|x: int, y: int|
            0 <= x < columns@.len() && 0 <= y < columns@[x]@.len() ==> {
                &&& (#[trigger] r@[x]@[y]).x == x
                &&& r@[x]@[y].y == y
                &&& r@[x]@[y].c == columns@[x]@[y]
                &&& r@[x]@[y].dir == Direction::Vertical
            },
{
    let n = columns.len();
    let mut r: Vec<Vec<Char>> = Vec::new();
    let mut x: usize = 0;
    while x < n
        invariant
            x <= n,
            n == columns@.len(),
            r@.len() == x,
            forall|j: int| 0 <= j < x ==> (#[trigger] r@[j])@.len() == columns@[j]@.len(),
            forall|j: int, y: int|
                0 <= j < x && 0 <= y < columns@[j]@.len() ==> {
                    &&& (#[trigger] r@[j]@[y]).x == j
                    &&& r@[j]@[y].y == y
                    &&& r@[j]@[y].c == columns@[j]@[y]
                    &&& r@[j]@[y].dir == Direction::Vertical
                },
        decreases n - x,
    {
        let column = &columns[x];
        let h = column.as_str().unicode_len();
        let mut col: Vec<Char> = Vec::new();
        let mut y: usize = 0;
        while y < h
            invariant
                y <= h,
                h == columns@[x as int]@.len(),
                x < columns@.len(),
                column@ == columns@[x as int]@,
                col@.len() == y,
                forall|i: int|
                    0 <= i < y ==> {
                        &&& (#[trigger] col@[i]).x == x
                        &&& col@[i].y == i
                        &&& col@[i].c == columns@[x as int]@[i]
                        &&& col@[i].dir == Direction::Vertical
                    },
            decreases h - y,
        {
            let c = column.as_str().get_char(y);
            col.push(Char { x, y, c, dir: Direction::Vertical });
            y = y + 1;
        }
        r.push(col);
        x = x + 1;
    }
    r
}

/// The slot `p` is the run of `cs` starting at `start`: its origin and
/// orientation are that symbol's, and each cell holds the value of the
/// (non-blocked) symbol under it.
pub open spec fn run_in(cs: Seq<Char>, p: WordPlace, start: int) -> bool {
    &&& 0 <= start
    &&& start + slot_len(p) <= cs.len()
    &&& p.x == cs[start].x && p.y == cs[start].y && p.dir == cs[start].dir
    &&& forall|i: int|
        0 <= i < slot_len(p) ==> (#[trigger] cs[start + i]).c != '.' && p.chars@[i]
            == cell_of_char(cs[start + i].c)
}

/// The run is maximal: a blocked symbol or the boundary lies on either
/// side of it.
pub open spec fn maximal_run_in(cs: Seq<Char>, p: WordPlace, start: int) -> bool {
    &&& run_in(cs, p, start)
    &&& (start == 0 || cs[start - 1].c == '.')
    &&& (start + slot_len(p) == cs.len() || cs[start + slot_len(p)].c == '.')
}

/// The slot is one of the maximal runs of the row or column.
pub open spec fn is_run_of(cs: Seq<Char>, p: WordPlace) -> bool {
    exists|st: int| maximal_run_in(cs, p, st)
}

/// The non-blocked symbol at `idx` belongs to one of the extracted runs.
pub open spec fn covered_by_run(cs: Seq<Char>, places: Seq<WordPlace>, idx: int) -> bool {
    exists|k: int, st: int|
        0 <= k < places.len() && #[trigger] maximal_run_in(cs, places[k], st) && st <= idx < st
            + slot_len(places[k])
}

/// The maximal non-blocked runs of a row or column, in scan order, each
/// as its start index and length.
pub open spec fn run_bounds(cs: Seq<Char>) -> Seq<(int, int)>
    decreases cs.len(),
{
    if cs.len() == 0 {
        Seq::empty()
    } else if cs.last().c == '.' {
        run_bounds(cs.drop_last())
    } else if cs.len() >= 2 && cs[cs.len() - 2].c != '.' {
        let rb = run_bounds(cs.drop_last());
        rb.update(rb.len() - 1, (rb.last().0, rb.last().1 + 1))
    } else {
        run_bounds(cs.drop_last()).push((cs.len() - 1, 1))
    }
}

/// The run bounds are well-formed and strictly ordered: each names a
/// nonempty stretch of non-blocked symbols inside the sequence, each run
/// ends before the next begins, and a sequence ending in a non-blocked
/// symbol has its final run ending at the very end.
pub proof fn lemma_run_bounds_wf(cs: Seq<Char>)
    ensures
        forall|k: int|
            0 <= k < run_bounds(cs).len() ==> {
                let b = #[trigger] run_bounds(cs)[k];
                &&& 0 <= b.0 && b.1 >= 1 && b.0 + b.1 <= cs.len()
                &&& forall|j: int| b.0 <= j < b.0 + b.1 ==> (#[trigger] cs[j]).c != '.'
            },
        forall|k: int|
            0 <= k < run_bounds(cs).len() - 1 ==> (#[trigger] run_bounds(cs)[k]).0 + run_bounds(
                cs,
            )[k].1 < run_bounds(cs)[k + 1].0,
        cs.len() > 0 && cs.last().c != '.' ==> run_bounds(cs).len() > 0 && run_bounds(
            cs,
        ).last().0 + run_bounds(cs).last().1 == cs.len(),
    decreases cs.len(),
{
    if cs.len() > 0 {
        let dl = cs.drop_last();
        lemma_run_bounds_wf(dl);
        let rb0 = run_bounds(dl);
        assert forall|j: int| 0 <= j < dl.len() implies dl[j] == cs[j] by {
        }
        if cs.last().c == '.' {
        } else if cs.len() >= 2 && cs[cs.len() - 2].c != '.' {
            assert(dl.last() == cs[cs.len() - 2]);
            assert(rb0.len() > 0 && rb0.last().0 + rb0.last().1 == dl.len());
            let rb = run_bounds(cs);
            assert(rb == rb0.update(rb0.len() - 1, (rb0.last().0, rb0.last().1 + 1)));
            assert forall|k: int|
                0 <= k < rb.len() implies {
                let b = #[trigger] rb[k];
                &&& 0 <= b.0 && b.1 >= 1 && b.0 + b.1 <= cs.len()
                &&& forall|j: int| b.0 <= j < b.0 + b.1 ==> (#[trigger] cs[j]).c != '.'
            } by {
                if k < rb.len() - 1 {
                    assert(rb[k] == rb0[k]);
                } else {
                    assert forall|j: int|
                        rb[k].0 <= j < rb[k].0 + rb[k].1 implies (#[trigger] cs[j]).c != '.' by {
                        if j < dl.len() {
                            assert(dl[j].c != '.');
                        } else {
                            assert(cs[j] == cs.last());
                        }
                    }
                }
            }
        } else {
            let rb = run_bounds(cs);
            assert(rb == rb0.push((cs.len() - 1, 1int)));
            if rb0.len() > 0 {
                let pb = rb0[rb0.len() - 1];
                assert(pb.0 + pb.1 <= dl.len());
                if pb.0 + pb.1 == dl.len() {
                    assert(cs.len() >= 2);
                    assert(dl[cs.len() - 2].c != '.');
                    assert(cs[cs.len() - 2].c == '.');
                    assert(false);
                }
            }
            assert forall|k: int|
                0 <= k < rb.len() implies {
                let b = #[trigger] rb[k];
                &&& 0 <= b.0 && b.1 >= 1 && b.0 + b.1 <= cs.len()
                &&& forall|j: int| b.0 <= j < b.0 + b.1 ==> (#[trigger] cs[j]).c != '.'
            } by {
                if k < rb0.len() {
                    assert(rb[k] == rb0[k]);
                } else {
                    assert(rb[k] == (cs.len() - 1, 1int));
                    assert(cs[cs.len() - 1] == cs.last());
                }
            }
        }
    }
}

/// Run starts strictly increase along the bound list.
pub proof fn lemma_run_bounds_increasing(cs: Seq<Char>, k1: int, k2: int)
    requires
        0 <= k1 < k2 < run_bounds(cs).len(),
    ensures
        run_bounds(cs)[k1].0 < run_bounds(cs)[k2].0,
    decreases k2 - k1,
{
    lemma_run_bounds_wf(cs);
    if k2 > k1 + 1 {
        lemma_run_bounds_increasing(cs, k1, k2 - 1);
    }
}

/// The canonical order the parser emits slots in: horizontal slots first,
/// in reading order, then vertical slots, column by column.
pub open spec fn slot_before(a: WordPlace, b: WordPlace) -> bool {
    if a.dir is Horizontal && b.dir is Vertical {
        true
    } else if a.dir is Vertical && b.dir is Horizontal {
        false
    } else if a.dir is Horizontal {
        a.y < b.y || (a.y == b.y && a.x < b.x)
    } else {
        a.x < b.x || (a.x == b.x && a.y < b.y)
    }
}

/// `[a, a + len)` is a maximal non-blocked run within row `y` of the grid.
pub open spec fn h_run(g: Seq<Seq<char>>, y: int, a: int, len: int) -> bool {
    &&& 0 <= y < g.len()
    &&& 0 <= a && len > 0 && a + len <= g[y].len()
    &&& forall|j: int| a <= j < a + len ==> (#[trigger] g[y][j]) != '.'
    &&& (a == 0 || g[y][a - 1] == '.')
    &&& (a + len == g[y].len() || g[y][a + len] == '.')
}

/// `[a, a + len)` is a maximal non-blocked run within column `x` of the
/// grid.
pub open spec fn v_run(g: Seq<Seq<char>>, x: int, a: int, len: int) -> bool {
    &&& g.len() > 0
    &&& 0 <= x < g[0].len()
    &&& 0 <= a && len > 0 && a + len <= g.len()
    &&& forall|j: int| a <= j < a + len ==> (#[trigger] g[j][x]) != '.'
    &&& (a == 0 || g[a - 1][x] == '.')
    &&& (a + len == g.len() || g[a + len][x] == '.')
}

/// A slot with the given frame is among the extracted ones.
pub open spec fn has_slot(
    ps: Seq<WordPlace>,
    d: Direction,
    x: int,
    y: int,
    len: int,
) -> bool {
    exists|k: int|
        0 <= k < ps.len() && (#[trigger] ps[k]).dir == d && ps[k].x == x && ps[k].y == y
            && slot_len(ps[k]) == len
}

/// Scans one row or column for its maximal runs of non-blocked symbols.
/// The result is pinned exactly: one slot per maximal run, in scan order,
/// as [`run_bounds`] lists them; so every non-blocked symbol lies in
/// exactly the slot of its run.
pub fn to_world_places(chars: &Vec<Char>) -> (r: Vec<WordPlace>)
    ensures
        r@.len() == run_bounds(chars@).len(),
        forall|k: int|
            0 <= k < r@.len() ==> maximal_run_in(chars@, #[trigger] r@[k], run_bounds(chars@)[k].0)
                && slot_len(r@[k]) == run_bounds(chars@)[k].1,
        forall|k: int| 0 <= k < r@.len() ==> #[trigger] is_run_of(chars@, r@[k]),
        forall|idx: int|
            0 <= idx < chars@.len() && (#[trigger] chars@[idx]).c != '.' ==> covered_by_run(
                chars@,
                r@,
                idx,
            ),
{
    let n = chars.len();
    let mut places: Vec<WordPlace> = Vec::new();
    let mut cur: Vec<Character> = Vec::new();
    let mut start: usize = 0;
    let mut i: usize = 0;
    proof {
        assert(chars@.take(0) =~= Seq::<Char>::empty());
    }
    while i < n
        invariant
            start <= i <= n,
            n == chars@.len(),
            cur@.len() == i - start,
            forall|j: int|
                0 <= j < cur@.len() ==> (#[trigger] chars@[start + j]).c != '.' && cur@[j]
                    == cell_of_char(chars@[start + j].c),
            cur@.len() > 0 ==> (start == 0 || chars@[start - 1].c == '.'),
            cur@.len() == 0 ==> (i == 0 || chars@[i - 1].c == '.'),
            cur@.len() == 0 ==> run_bounds(chars@.take(i as int)).len() == places@.len(),
            cur@.len() > 0 ==> run_bounds(chars@.take(i as int)).len() == places@.len() + 1
                && run_bounds(chars@.take(i as int)).last() == (start as int, cur@.len() as int),
            forall|k: int|
                0 <= k < places@.len() ==> maximal_run_in(
                    chars@,
                    #[trigger] places@[k],
                    run_bounds(chars@.take(i as int))[k].0,
                ) && slot_len(places@[k]) == run_bounds(chars@.take(i as int))[k].1,
            forall|k: int| 0 <= k < places@.len() ==> #[trigger] is_run_of(chars@, places@[k]),
            forall|idx: int|
                0 <= idx < start && (#[trigger] chars@[idx]).c != '.' ==> covered_by_run(
                    chars@,
                    places@,
                    idx,
                ),
        decreases n - i,
    {
        let ghost pre = chars@.take(i as int);
        let ghost post = chars@.take(i + 1);
        proof {
            assert(post.drop_last() =~= pre);
            assert(post.last() == chars@[i as int]);
        }
        let sym = chars[i];
        if sym.c == '.' {
            proof {
                assert(run_bounds(post) == run_bounds(pre));
            }
            if cur.len() > 0 {
                let anchor = chars[start];
                let place = WordPlace { chars: cur, x: anchor.x, y: anchor.y, dir: anchor.dir };
                let ghost pl0 = places@;
                proof {
                    assert(run_in(chars@, place, start as int));
                    assert(maximal_run_in(chars@, place, start as int));
                }
                places.push(place);
                proof {
                    assert forall|k: int|
                        0 <= k < places@.len() implies maximal_run_in(
                        chars@,
                        #[trigger] places@[k],
                        run_bounds(post)[k].0,
                    ) && slot_len(places@[k]) == run_bounds(post)[k].1 by {
                        if k < pl0.len() {
                            assert(places@[k] == pl0[k]);
                        } else {
                            assert(places@[k] == place);
                            assert(run_bounds(post)[k] == (start as int, cur@.len() as int));
                        }
                    }
                    assert forall|k: int|
                        0 <= k < places@.len() implies #[trigger] is_run_of(chars@, places@[k]) by {
                        if k < pl0.len() {
                            assert(places@[k] == pl0[k]);
                            assert(is_run_of(chars@, pl0[k]));
                        } else {
                            assert(places@[k] == place);
                            assert(maximal_run_in(chars@, place, start as int));
                        }
                    }
                    assert forall|idx: int|
                        0 <= idx < i + 1 && (#[trigger] chars@[idx]).c != '.'
                        implies covered_by_run(chars@, places@, idx) by {
                        if idx < start {
                            assert(covered_by_run(chars@, pl0, idx));
                            let (k, st) = choose|k: int, st: int|
                                0 <= k < pl0.len() && #[trigger] maximal_run_in(chars@, pl0[k], st)
                                    && st <= idx < st + slot_len(pl0[k]);
                            assert(places@[k] == pl0[k]);
                            assert(maximal_run_in(chars@, places@[k], st));
                        } else if idx < i {
                            let k = pl0.len() as int;
                            assert(places@[k] == place);
                            assert(maximal_run_in(chars@, places@[k], start as int));
                        } else {
                            assert(chars@[idx].c == '.');
                        }
                    }
                }
                cur = Vec::new();
            } else {
                proof {
                    assert forall|idx: int|
                        0 <= idx < i + 1 && (#[trigger] chars@[idx]).c != '.'
                        implies covered_by_run(chars@, places@, idx) by {
                        assert(idx < start || idx == i);
                        assert(idx < start);
                    }
                }
            }
            start = i + 1;
        } else {
            if cur.len() == 0 {
                start = i;
                proof {
                    if i > 0 {
                        assert(post[i - 1] == chars@[i - 1]);
                        assert(post[i - 1].c == '.');
                    }
                    assert(run_bounds(post) == run_bounds(pre).push((i as int, 1int)));
                }
            } else {
                proof {
                    assert(i >= 1);
                    assert(post[i - 1] == chars@[i - 1]);
                    assert(chars@[start + (i - 1 - start)].c != '.');
                    assert(post[i - 1].c != '.');
                    let rb = run_bounds(pre);
                    assert(run_bounds(post) == rb.update(
                        rb.len() - 1,
                        (rb.last().0, rb.last().1 + 1),
                    ));
                    assert(run_bounds(post).last() == (start as int, cur@.len() + 1int));
                    assert forall|k: int|
                        0 <= k < places@.len() implies run_bounds(post)[k] == rb[k] by {
                    }
                }
            }
            let cell = if sym.c == 'x' {
                Character::Empty
            } else {
                crate::solver::letter_of(sym.c)
            };
            cur.push(cell);
        }
        i = i + 1;
    }
    proof {
        assert(chars@.take(n as int) =~= chars@);
    }
    if cur.len() > 0 {
        let anchor = chars[start];
        let place = WordPlace { chars: cur, x: anchor.x, y: anchor.y, dir: anchor.dir };
        let ghost pl0 = places@;
        proof {
            assert(run_in(chars@, place, start as int));
            assert(maximal_run_in(chars@, place, start as int));
        }
        places.push(place);
        proof {
            assert forall|k: int|
                0 <= k < places@.len() implies maximal_run_in(
                chars@,
                #[trigger] places@[k],
                run_bounds(chars@)[k].0,
            ) && slot_len(places@[k]) == run_bounds(chars@)[k].1 by {
                if k < pl0.len() {
                    assert(places@[k] == pl0[k]);
                } else {
                    assert(places@[k] == place);
                    assert(run_bounds(chars@)[k] == (start as int, cur@.len() as int));
                }
            }
            assert forall|k: int|
                0 <= k < places@.len() implies #[trigger] is_run_of(chars@, places@[k]) by {
                if k < pl0.len() {
                    assert(places@[k] == pl0[k]);
                    assert(is_run_of(chars@, pl0[k]));
                } else {
                    assert(places@[k] == place);
                    assert(maximal_run_in(chars@, place, start as int));
                }
            }
            assert forall|idx: int|
                0 <= idx < n && (#[trigger] chars@[idx]).c != '.' implies covered_by_run(
                chars@,
                places@,
                idx,
            ) by {
                if idx < start {
                    assert(covered_by_run(chars@, pl0, idx));
                    let (k, st) = choose|k: int, st: int|
                        0 <= k < pl0.len() && #[trigger] maximal_run_in(chars@, pl0[k], st) && st
                            <= idx < st + slot_len(pl0[k]);
                    assert(places@[k] == pl0[k]);
                    assert(maximal_run_in(chars@, places@[k], st));
                } else {
                    let k = pl0.len() as int;
                    assert(places@[k] == place);
                    assert(maximal_run_in(chars@, places@[k], start as int));
                }
            }
        }
    } else {
        proof {
            assert forall|idx: int|
                0 <= idx < n && (#[trigger] chars@[idx]).c != '.' implies covered_by_run(
                chars@,
                places@,
                idx,
            ) by {
                assert(idx < start);
            }
        }
    }
    places
}


/// The slot list is a faithful parse of the grid: every slot lies on the
/// grid as a maximal word-length run, and every maximal word-length run
/// of the grid is among the slots.
pub open spec fn parse_of(g: Seq<Seq<char>>, ps: Seq<WordPlace>) -> bool {
    &&& forall|k: int| 0 <= k < ps.len() ==> good_place(g, #[trigger] ps[k])
    &&& forall|y: int, a: int, len: int|
        #[trigger] h_run(g, y, a, len) && len >= MIN_WORD_LENGTH ==> has_slot(
            ps,
            Direction::Horizontal,
            a,
            y,
            len,
        )
    &&& forall|x: int, a: int, len: int|
        #[trigger] v_run(g, x, a, len) && len >= MIN_WORD_LENGTH ==> has_slot(
            ps,
            Direction::Vertical,
            x,
            a,
            len,
        )
}

/// A slot already present stays present when the list grows at the end.
proof fn lemma_has_slot_grows(
    ps0: Seq<WordPlace>,
    ps1: Seq<WordPlace>,
    d: Direction,
    x: int,
    y: int,
    len: int,
)
    requires
        ps1.len() >= ps0.len(),
        forall|k: int| 0 <= k < ps0.len() ==> ps1[k] == ps0[k],
        has_slot(ps0, d, x, y, len),
    ensures
        has_slot(ps1, d, x, y, len),
{
    let k = choose|k: int|
        0 <= k < ps0.len() && (#[trigger] ps0[k]).dir == d && ps0[k].x == x && ps0[k].y == y
            && slot_len(ps0[k]) == len;
    assert(ps1[k] == ps0[k]);
    assert((ps1[k]).dir == d && ps1[k].x == x && ps1[k].y == y && slot_len(ps1[k]) == len);
}

/// Extracts every word slot from a cleaned-up visual grid: the maximal
/// horizontal runs of every row in reading order, then the maximal
/// vertical runs of every column, column by column, keeping those of word
/// length.  The result is strictly ordered by [`slot_before`], so together
/// with soundness (every slot a maximal word-length run) and completeness
/// (every such run a slot) the returned list is uniquely determined:
/// no duplicates, no reordering.
pub fn input_places_from_visual(input: String) -> (r: Vec<WordPlace>)
    requires
        spec_lines(input@).len() > 0,
        rectangular(spec_lines(input@)),
    ensures
        forall|k: int| 0 <= k < r@.len() ==> good_place(spec_lines(input@), #[trigger] r@[k]),
        forall|k1: int, k2: int|
            0 <= k1 < k2 < r@.len() ==> slot_before(#[trigger] r@[k1], #[trigger] r@[k2]),
        forall|y: int, a: int, len: int|
            #[trigger] h_run(spec_lines(input@), y, a, len) && len >= MIN_WORD_LENGTH ==> has_slot(
                r@,
                Direction::Horizontal,
                a,
                y,
                len,
            ),
        forall|x: int, a: int, len: int|
            #[trigger] v_run(spec_lines(input@), x, a, len) && len >= MIN_WORD_LENGTH ==> has_slot(
                r@,
                Direction::Vertical,
                x,
                a,
                len,
            ),
{
    let ghost g = spec_lines(input@);
    let rows_strings = to_rows(input.clone());
    let ghost h = g.len();
    proof {
        assert forall|y: int| 0 <= y < h implies #[trigger] rows_strings@[y]@ == g[y] by {
            assert(rows_strings.deep_view()[y] == rows_strings@[y].deep_view());
        }
    }
    let rows = to_rows_chars(rows_strings);
    let cols_strings = to_columns(input);
    let ghost w = g[0].len();
    proof {
        assert forall|x: int| 0 <= x < w implies #[trigger] cols_strings@[x]@ == Seq::new(
            g.len(),
            |y: int| g[y][x],
        ) by {
            assert(cols_strings.deep_view()[x] == cols_strings@[x].deep_view());
        }
    }
    let cols = to_columns_chars(cols_strings);
    let mut places: Vec<WordPlace> = Vec::new();
    let nrows = rows.len();
    let mut y: usize = 0;
    while y < nrows
        invariant
            y <= nrows,
            nrows == h,
            rows@.len() == h,
            h == g.len(),
            h > 0,
            rectangular(g),
            forall|j: int| 0 <= j < h ==> (#[trigger] rows@[j])@.len() == g[j].len(),
            forall|j: int, x: int|
                0 <= j < h && 0 <= x < g[j].len() ==> {
                    &&& (#[trigger] rows@[j]@[x]).x == x
                    &&& rows@[j]@[x].y == j
                    &&& rows@[j]@[x].c == g[j][x]
                    &&& rows@[j]@[x].dir == Direction::Horizontal
                },
            forall|k: int| 0 <= k < places@.len() ==> good_place(g, #[trigger] places@[k]),
            forall|y2: int, a: int, len: int|
                #[trigger] h_run(g, y2, a, len) && y2 < y && len >= MIN_WORD_LENGTH ==> has_slot(
                    places@,
                    Direction::Horizontal,
                    a,
                    y2,
                    len,
                ),
            forall|k1: int, k2: int|
                0 <= k1 < k2 < places@.len() ==> slot_before(
                    #[trigger] places@[k1],
                    #[trigger] places@[k2],
                ),
            forall|k: int| 0 <= k < places@.len() ==> (#[trigger] places@[k]).dir is Horizontal,
            forall|k: int| 0 <= k < places@.len() ==> (#[trigger] places@[k]).y < y,
        decreases nrows - y,
    {
        let ps = to_world_places(&rows[y]);
        let row_len = rows[y].len();
        let m = ps.len();
        let mut t: usize = 0;
        while t < m
            invariant
                t <= m,
                m == ps@.len(),
                y < h,
                h == g.len(),
                rectangular(g),
                (rows@[y as int])@.len() == g[y as int].len(),
                row_len == g[y as int].len(),
                forall|x: int|
                    0 <= x < g[y as int].len() ==> {
                        &&& (#[trigger] rows@[y as int]@[x]).x == x
                        &&& rows@[y as int]@[x].y == y
                        &&& rows@[y as int]@[x].c == g[y as int][x]
                        &&& rows@[y as int]@[x].dir == Direction::Horizontal
                    },
                forall|k: int| 0 <= k < ps@.len() ==> #[trigger] is_run_of(rows@[y as int]@, ps@[k]),
                ps@.len() == run_bounds(rows@[y as int]@).len(),
                forall|k: int|
                    0 <= k < ps@.len() ==> maximal_run_in(
                        rows@[y as int]@,
                        #[trigger] ps@[k],
                        run_bounds(rows@[y as int]@)[k].0,
                    ) && slot_len(ps@[k]) == run_bounds(rows@[y as int]@)[k].1,
                forall|k: int| 0 <= k < places@.len() ==> good_place(g, #[trigger] places@[k]),
                forall|y2: int, a: int, len: int|
                    #[trigger] h_run(g, y2, a, len) && y2 < y && len >= MIN_WORD_LENGTH
                        ==> has_slot(places@, Direction::Horizontal, a, y2, len),
                forall|t2: int|
                    0 <= t2 < t && slot_len(#[trigger] ps@[t2]) >= MIN_WORD_LENGTH ==> has_slot(
                        places@,
                        ps@[t2].dir,
                        ps@[t2].x as int,
                        ps@[t2].y as int,
                        slot_len(ps@[t2]) as int,
                    ),
                forall|k1: int, k2: int|
                    0 <= k1 < k2 < places@.len() ==> slot_before(
                        #[trigger] places@[k1],
                        #[trigger] places@[k2],
                    ),
                forall|k: int| 0 <= k < places@.len() ==> (#[trigger] places@[k]).dir is Horizontal,
                forall|k: int|
                    0 <= k < places@.len() ==> (#[trigger] places@[k]).y < y || (places@[k].y == y
                        && exists|t2: int|
                        0 <= t2 < t && places@[k].x == run_bounds(rows@[y as int]@)[t2].0),
            decreases m - t,
        {
            if ps[t].chars.len() >= MIN_WORD_LENGTH {
                let p = ps[t].clone();
                proof {
                    let cs = rows@[y as int]@;
                    assert(is_run_of(cs, ps@[t as int]));
                    let st = choose|st: int| maximal_run_in(cs, ps@[t as int], st);
                    assert(run_in(cs, p, st));
                    assert(p.dir == Direction::Horizontal);
                    assert(p.x == st && p.y == y);
                    assert forall|i: int| 0 <= i < slot_len(p) implies {
                        &&& 0 <= cell_y(p, i) < g.len()
                        &&& 0 <= cell_x(p, i) < g[cell_y(p, i)].len()
                        &&& #[trigger] g[cell_y(p, i)][cell_x(p, i)] != '.'
                        &&& p.chars@[i] == cell_of_char(g[cell_y(p, i)][cell_x(p, i)])
                    } by {
                        assert(cs[st + i].c != '.' && p.chars@[i] == cell_of_char(cs[st + i].c));
                        assert(cs[st + i].x == st + i && cs[st + i].y == y);
                        assert(cell_x(p, i) == st + i);
                        assert(cell_y(p, i) == y);
                    }
                    assert(maximal_run_in(cs, ps@[t as int], st));
                    if st > 0 {
                        assert(cs[st - 1].c == g[y as int][st - 1]);
                    }
                    if st + slot_len(p) < cs.len() {
                        assert(cs[st + slot_len(p)].c == g[y as int][st + slot_len(p)]);
                    }
                    assert(maximal_on_grid(g, p));
                    assert(good_place(g, p));
                    lemma_run_bounds_wf(cs);
                    assert(maximal_run_in(cs, ps@[t as int], run_bounds(cs)[t as int].0));
                    assert(p.x == run_bounds(cs)[t as int].0);
                }
                let ghost pl0 = places@;
                places.push(p);
                proof {
                    let cs = rows@[y as int]@;
                    assert forall|k: int|
                        0 <= k < places@.len() implies good_place(g, #[trigger] places@[k]) by {
                        if k < pl0.len() {
                            assert(places@[k] == pl0[k]);
                        }
                    }
                    assert forall|k1: int, k2: int|
                        0 <= k1 < k2 < places@.len() implies slot_before(
                        #[trigger] places@[k1],
                        #[trigger] places@[k2],
                    ) by {
                        if k2 < pl0.len() {
                            assert(places@[k1] == pl0[k1] && places@[k2] == pl0[k2]);
                        } else {
                            assert(places@[k1] == pl0[k1]);
                            assert(places@[k2] == p);
                            assert(pl0[k1].dir is Horizontal);
                            if pl0[k1].y == y {
                                let t2 = choose|t2: int|
                                    0 <= t2 < t && pl0[k1].x == run_bounds(cs)[t2].0;
                                lemma_run_bounds_increasing(cs, t2, t as int);
                            }
                        }
                    }
                    assert forall|k: int|
                        0 <= k < places@.len() implies (#[trigger] places@[k]).y < y || (
                        places@[k].y == y && exists|t2: int|
                            0 <= t2 < t + 1 && places@[k].x == run_bounds(cs)[t2].0) by {
                        if k < pl0.len() {
                            assert(places@[k] == pl0[k]);
                            if pl0[k].y == y {
                                let t2 = choose|t2: int|
                                    0 <= t2 < t && pl0[k].x == run_bounds(cs)[t2].0;
                                assert(0 <= t2 < t + 1 && places@[k].x == run_bounds(cs)[t2].0);
                            }
                        } else {
                            assert(places@[k] == p);
                            assert(0 <= t < t + 1 && p.x == run_bounds(cs)[t as int].0);
                        }
                    }
                    assert forall|y2: int, a: int, len: int|
                        #[trigger] h_run(g, y2, a, len) && y2 < y && len >= MIN_WORD_LENGTH
                        implies has_slot(places@, Direction::Horizontal, a, y2, len) by {
                        lemma_has_slot_grows(pl0, places@, Direction::Horizontal, a, y2, len);
                    }
                    assert forall|t2: int|
                        0 <= t2 < t + 1 && slot_len(#[trigger] ps@[t2]) >= MIN_WORD_LENGTH
                        implies has_slot(
                        places@,
                        ps@[t2].dir,
                        ps@[t2].x as int,
                        ps@[t2].y as int,
                        slot_len(ps@[t2]) as int,
                    ) by {
                        if t2 < t {
                            lemma_has_slot_grows(
                                pl0,
                                places@,
                                ps@[t2].dir,
                                ps@[t2].x as int,
                                ps@[t2].y as int,
                                slot_len(ps@[t2]) as int,
                            );
                        } else {
                            let k = pl0.len() as int;
                            assert(places@[k] == p);
                            assert(crate::word_place::same_place(p, ps@[t2]));
                        }
                    }
                }
            }
            t = t + 1;
        }
        proof {
            let cs = rows@[y as int]@;
            assert forall|a: int, len: int|
                #[trigger] h_run(g, y as int, a, len) && len >= MIN_WORD_LENGTH
                implies has_slot(places@, Direction::Horizontal, a, y as int, len) by {
                assert(cs[a].c == g[y as int][a]);
                assert(g[y as int][a] != '.');
                assert(covered_by_run(cs, ps@, a));
                let (k, st) = choose|k: int, st: int|
                    0 <= k < ps@.len() && #[trigger] maximal_run_in(cs, ps@[k], st) && st <= a < st
                        + slot_len(ps@[k]);
                let ll = slot_len(ps@[k]) as int;
                if st < a {
                    assert(cs[st + (a - 1 - st)].c != '.');
                    assert(cs[a - 1].c == g[y as int][a - 1]);
                    assert(false);
                }
                if ll < len {
                    assert(st + ll < cs.len());
                    assert(cs[st + ll].c == '.');
                    assert(cs[a + ll].c == g[y as int][a + ll]);
                    assert(false);
                }
                if ll > len {
                    assert(cs[st + len].c != '.');
                    assert(cs[a + len].c == g[y as int][a + len]);
                    assert(g[y as int][a + len] == '.');
                    assert(false);
                }
                assert(st == a && ll == len);
                assert(cs[st].x == st && cs[st].y == y && cs[st].dir == Direction::Horizontal);
                assert(ps@[k].x == a && ps@[k].y == y && ps@[k].dir == Direction::Horizontal);
                assert(has_slot(
                    places@,
                    ps@[k].dir,
                    ps@[k].x as int,
                    ps@[k].y as int,
                    slot_len(ps@[k]) as int,
                ));
            }
        }
        y = y + 1;
    }
    let ncols = cols.len();
    let mut x: usize = 0;
    while x < ncols
        invariant
            x <= ncols,
            ncols == w,
            cols@.len() == w,
            w == g[0].len(),
            h == g.len(),
            h > 0,
            rectangular(g),
            forall|j: int| 0 <= j < w ==> (#[trigger] cols@[j])@.len() == h,
            forall|j: int, v: int|
                0 <= j < w && 0 <= v < h ==> {
                    &&& (#[trigger] cols@[j]@[v]).x == j
                    &&& cols@[j]@[v].y == v
                    &&& cols@[j]@[v].c == g[v][j]
                    &&& cols@[j]@[v].dir == Direction::Vertical
                },
            forall|k: int| 0 <= k < places@.len() ==> good_place(g, #[trigger] places@[k]),
            forall|y2: int, a: int, len: int|
                #[trigger] h_run(g, y2, a, len) && len >= MIN_WORD_LENGTH ==> has_slot(
                    places@,
                    Direction::Horizontal,
                    a,
                    y2,
                    len,
                ),
            forall|x2: int, a: int, len: int|
                #[trigger] v_run(g, x2, a, len) && x2 < x && len >= MIN_WORD_LENGTH ==> has_slot(
                    places@,
                    Direction::Vertical,
                    x2,
                    a,
                    len,
                ),
            forall|k1: int, k2: int|
                0 <= k1 < k2 < places@.len() ==> slot_before(
                    #[trigger] places@[k1],
                    #[trigger] places@[k2],
                ),
            forall|k: int|
                0 <= k < places@.len() ==> (#[trigger] places@[k]).dir is Horizontal || (
                places@[k].dir is Vertical && places@[k].x < x),
        decreases ncols - x,
    {
        let ps = to_world_places(&cols[x]);
        let col_len = cols[x].len();
        let m = ps.len();
        let mut t: usize = 0;
        while t < m
            invariant
                t <= m,
                m == ps@.len(),
                x < w,
                w == g[0].len(),
                h == g.len(),
                rectangular(g),
                (cols@[x as int])@.len() == h,
                col_len == h,
                forall|v: int|
                    0 <= v < h ==> {
                        &&& (#[trigger] cols@[x as int]@[v]).x == x
                        &&& cols@[x as int]@[v].y == v
                        &&& cols@[x as int]@[v].c == g[v][x as int]
                        &&& cols@[x as int]@[v].dir == Direction::Vertical
                    },
                forall|k: int| 0 <= k < ps@.len() ==> #[trigger] is_run_of(cols@[x as int]@, ps@[k]),
                ps@.len() == run_bounds(cols@[x as int]@).len(),
                forall|k: int|
                    0 <= k < ps@.len() ==> maximal_run_in(
                        cols@[x as int]@,
                        #[trigger] ps@[k],
                        run_bounds(cols@[x as int]@)[k].0,
                    ) && slot_len(ps@[k]) == run_bounds(cols@[x as int]@)[k].1,
                forall|k: int| 0 <= k < places@.len() ==> good_place(g, #[trigger] places@[k]),
                forall|y2: int, a: int, len: int|
                    #[trigger] h_run(g, y2, a, len) && len >= MIN_WORD_LENGTH ==> has_slot(
                        places@,
                        Direction::Horizontal,
                        a,
                        y2,
                        len,
                    ),
                forall|x2: int, a: int, len: int|
                    #[trigger] v_run(g, x2, a, len) && x2 < x && len >= MIN_WORD_LENGTH
                        ==> has_slot(places@, Direction::Vertical, x2, a, len),
                forall|t2: int|
                    0 <= t2 < t && slot_len(#[trigger] ps@[t2]) >= MIN_WORD_LENGTH ==> has_slot(
                        places@,
                        ps@[t2].dir,
                        ps@[t2].x as int,
                        ps@[t2].y as int,
                        slot_len(ps@[t2]) as int,
                    ),
                forall|k1: int, k2: int|
                    0 <= k1 < k2 < places@.len() ==> slot_before(
                        #[trigger] places@[k1],
                        #[trigger] places@[k2],
                    ),
                forall|k: int|
                    0 <= k < places@.len() ==> (#[trigger] places@[k]).dir is Horizontal || (
                    places@[k].dir is Vertical && (places@[k].x < x || (places@[k].x == x
                        && exists|t2: int|
                        0 <= t2 < t && places@[k].y == run_bounds(cols@[x as int]@)[t2].0))),
            decreases m - t,
        {
            if ps[t].chars.len() >= MIN_WORD_LENGTH {
                let p = ps[t].clone();
                proof {
                    let cs = cols@[x as int]@;
                    assert(is_run_of(cs, ps@[t as int]));
                    let st = choose|st: int| maximal_run_in(cs, ps@[t as int], st);
                    assert(run_in(cs, p, st));
                    assert(p.dir == Direction::Vertical);
                    assert(p.x == x && p.y == st);
                    assert forall|i: int| 0 <= i < slot_len(p) implies {
                        &&& 0 <= cell_y(p, i) < g.len()
                        &&& 0 <= cell_x(p, i) < g[cell_y(p, i)].len()
                        &&& #[trigger] g[cell_y(p, i)][cell_x(p, i)] != '.'
                        &&& p.chars@[i] == cell_of_char(g[cell_y(p, i)][cell_x(p, i)])
                    } by {
                        assert(cs[st + i].c != '.' && p.chars@[i] == cell_of_char(cs[st + i].c));
                        assert(cs[st + i].x == x && cs[st + i].y == st + i);
                        assert(cell_x(p, i) == x);
                        assert(cell_y(p, i) == st + i);
                        assert(g[st + i].len() == g[0].len());
                    }
                    assert(maximal_run_in(cs, ps@[t as int], st));
                    if st > 0 {
                        assert(cs[st - 1].c == g[st - 1][x as int]);
                    }
                    if st + slot_len(p) < cs.len() {
                        assert(cs[st + slot_len(p)].c == g[st + slot_len(p)][x as int]);
                    }
                    assert(maximal_on_grid(g, p));
                    assert(good_place(g, p));
                    lemma_run_bounds_wf(cs);
                    assert(maximal_run_in(cs, ps@[t as int], run_bounds(cs)[t as int].0));
                    assert(p.y == run_bounds(cs)[t as int].0);
                }
                let ghost pl0 = places@;
                places.push(p);
                proof {
                    let cs = cols@[x as int]@;
                    assert forall|k: int|
                        0 <= k < places@.len() implies good_place(g, #[trigger] places@[k]) by {
                        if k < pl0.len() {
                            assert(places@[k] == pl0[k]);
                        }
                    }
                    assert forall|k1: int, k2: int|
                        0 <= k1 < k2 < places@.len() implies slot_before(
                        #[trigger] places@[k1],
                        #[trigger] places@[k2],
                    ) by {
                        if k2 < pl0.len() {
                            assert(places@[k1] == pl0[k1] && places@[k2] == pl0[k2]);
                        } else {
                            assert(places@[k1] == pl0[k1]);
                            assert(places@[k2] == p);
                            if pl0[k1].dir is Vertical && pl0[k1].x == x {
                                let t2 = choose|t2: int|
                                    0 <= t2 < t && pl0[k1].y == run_bounds(cs)[t2].0;
                                lemma_run_bounds_increasing(cs, t2, t as int);
                            }
                        }
                    }
                    assert forall|k: int|
                        0 <= k < places@.len() implies (#[trigger] places@[k]).dir is Horizontal
                        || (places@[k].dir is Vertical && (places@[k].x < x || (places@[k].x == x
                        && exists|t2: int|
                        0 <= t2 < t + 1 && places@[k].y == run_bounds(cs)[t2].0))) by {
                        if k < pl0.len() {
                            assert(places@[k] == pl0[k]);
                            if pl0[k].dir is Vertical && pl0[k].x == x {
                                let t2 = choose|t2: int|
                                    0 <= t2 < t && pl0[k].y == run_bounds(cs)[t2].0;
                                assert(0 <= t2 < t + 1 && places@[k].y == run_bounds(cs)[t2].0);
                            }
                        } else {
                            assert(places@[k] == p);
                            assert(0 <= t < t + 1 && p.y == run_bounds(cs)[t as int].0);
                        }
                    }
                    assert forall|y2: int, a: int, len: int|
                        #[trigger] h_run(g, y2, a, len) && len >= MIN_WORD_LENGTH
                        implies has_slot(places@, Direction::Horizontal, a, y2, len) by {
                        lemma_has_slot_grows(pl0, places@, Direction::Horizontal, a, y2, len);
                    }
                    assert forall|x2: int, a: int, len: int|
                        #[trigger] v_run(g, x2, a, len) && x2 < x && len >= MIN_WORD_LENGTH
                        implies has_slot(places@, Direction::Vertical, x2, a, len) by {
                        lemma_has_slot_grows(pl0, places@, Direction::Vertical, x2, a, len);
                    }
                    assert forall|t2: int|
                        0 <= t2 < t + 1 && slot_len(#[trigger] ps@[t2]) >= MIN_WORD_LENGTH
                        implies has_slot(
                        places@,
                        ps@[t2].dir,
                        ps@[t2].x as int,
                        ps@[t2].y as int,
                        slot_len(ps@[t2]) as int,
                    ) by {
                        if t2 < t {
                            lemma_has_slot_grows(
                                pl0,
                                places@,
                                ps@[t2].dir,
                                ps@[t2].x as int,
                                ps@[t2].y as int,
                                slot_len(ps@[t2]) as int,
                            );
                        } else {
                            let k = pl0.len() as int;
                            assert(places@[k] == p);
                            assert(crate::word_place::same_place(p, ps@[t2]));
                        }
                    }
                }
            }
            t = t + 1;
        }
        proof {
            let cs = cols@[x as int]@;
            assert forall|a: int, len: int|
                #[trigger] v_run(g, x as int, a, len) && len >= MIN_WORD_LENGTH
                implies has_slot(places@, Direction::Vertical, x as int, a, len) by {
                assert(cs[a].c == g[a][x as int]);
                assert(g[a][x as int] != '.');
                assert(covered_by_run(cs, ps@, a));
                let (k, st) = choose|k: int, st: int|
                    0 <= k < ps@.len() && #[trigger] maximal_run_in(cs, ps@[k], st) && st <= a < st
                        + slot_len(ps@[k]);
                let ll = slot_len(ps@[k]) as int;
                if st < a {
                    assert(cs[st + (a - 1 - st)].c != '.');
                    assert(cs[a - 1].c == g[a - 1][x as int]);
                    assert(false);
                }
                if ll < len {
                    assert(st + ll < cs.len());
                    assert(cs[st + ll].c == '.');
                    assert(cs[a + ll].c == g[a + ll][x as int]);
                    assert(false);
                }
                if ll > len {
                    assert(cs[st + len].c != '.');
                    assert(cs[a + len].c == g[a + len][x as int]);
                    assert(g[a + len][x as int] == '.');
                    assert(false);
                }
                assert(st == a && ll == len);
                assert(cs[st].x == x && cs[st].y == st && cs[st].dir == Direction::Vertical);
                assert(ps@[k].x == x && ps@[k].y == a && ps@[k].dir == Direction::Vertical);
                assert(has_slot(
                    places@,
                    ps@[k].dir,
                    ps@[k].x as int,
                    ps@[k].y as int,
                    slot_len(ps@[k]) as int,
                ));
            }
        }
        x = x + 1;
    }
    places
}


/// How far right the grid extends for this slot: one past its last cell
/// for a horizontal slot, its own column for a vertical one.
pub open spec fn extent_x(p: WordPlace) -> int {
    p.x + if p.dir is Vertical {
        0int
    } else {
        slot_len(p) as int
    }
}

/// How far down the grid extends for this slot.
pub open spec fn extent_y(p: WordPlace) -> int {
    p.y + if p.dir is Vertical {
        slot_len(p) as int
    } else {
        0int
    }
}

/// The rendered grid's width: the largest rightward extent of any slot.
pub open spec fn max_extent_x(ps: Seq<WordPlace>) -> int
    decreases ps.len(),
{
    if ps.len() == 0 {
        0
    } else {
        let m = max_extent_x(ps.drop_last());
        let e = extent_x(ps.last());
        if e > m {
            e
        } else {
            m
        }
    }
}

/// The rendered grid's height: the largest downward extent of any slot.
pub open spec fn max_extent_y(ps: Seq<WordPlace>) -> int
    decreases ps.len(),
{
    if ps.len() == 0 {
        0
    } else {
        let m = max_extent_y(ps.drop_last());
        let e = extent_y(ps.last());
        if e > m {
            e
        } else {
            m
        }
    }
}

/// The slot has a cell at the absolute coordinate.
pub open spec fn covers_cell(p: WordPlace, x: int, y: int) -> bool {
    exists|i: int| 0 <= i < slot_len(p) && cell_x(p, i) == x && cell_y(p, i) == y
}

/// The index of that cell (unique along a slot).
pub open spec fn cover_index(p: WordPlace, x: int, y: int) -> int {
    choose|i: int| 0 <= i < slot_len(p) && cell_x(p, i) == x && cell_y(p, i) == y
}

/// What the slot shows at the coordinate: its letter, or `_` for a cell
/// still unknown.
pub open spec fn cell_text(p: WordPlace, x: int, y: int) -> char {
    match p.chars@[cover_index(p, x, y)] {
        Character::Empty => '_',
        Character::Letter(l) => l,
    }
}

/// The first slot from index `k` on that covers the coordinate, or the
/// slot count when none does.
pub open spec fn first_cover(ps: Seq<WordPlace>, k: int, x: int, y: int) -> int
    decreases ps.len() - k,
{
    if k < 0 || k >= ps.len() {
        ps.len() as int
    } else if covers_cell(ps[k], x, y) {
        k
    } else {
        first_cover(ps, k + 1, x, y)
    }
}

/// What the grid shows at a coordinate: the first covering slot's text
/// there, or `.` where no slot lies.
pub open spec fn render_cell(ps: Seq<WordPlace>, x: int, y: int) -> char {
    let k = first_cover(ps, 0, x, y);
    if k == ps.len() {
        '.'
    } else {
        cell_text(ps[k], x, y)
    }
}

/// One rendered grid row.
pub open spec fn render_row(ps: Seq<WordPlace>, y: int, w: int) -> Seq<char> {
    Seq::new(w as nat, |x: int| render_cell(ps, x, y))
}

/// The whole rendered grid: its rows joined by newlines.
pub open spec fn render_grid(ps: Seq<WordPlace>) -> Seq<char> {
    join_lines(
        Seq::new(max_extent_y(ps) as nat, |y: int| render_row(ps, y, max_extent_x(ps))),
    )
}

/// The index of the cell of `p` at the coordinate, if `p` covers it.
fn find_cover_index(p: &WordPlace, x: usize, y: usize) -> (r: Option<usize>)
    requires
        wf_place(*p),
    ensures
        match r {
            Some(i) => i < slot_len(*p) && cell_x(*p, i as int) == x && cell_y(*p, i as int) == y
                && cover_index(*p, x as int, y as int) == i && covers_cell(*p, x as int, y as int),
            None => !covers_cell(*p, x as int, y as int),
        },
{
    let n = p.chars.len();
    let mut i: usize = 0;
    while i < n
        invariant
            i <= n,
            n == slot_len(*p),
            wf_place(*p),
            forall|j: int| 0 <= j < i ==> !(cell_x(*p, j) == x && cell_y(*p, j) == y),
        decreases n - i,
    {
        let cx = match p.dir {
            Direction::Horizontal => p.x + i,
            Direction::Vertical => p.x,
        };
        let cy = match p.dir {
            Direction::Horizontal => p.y,
            Direction::Vertical => p.y + i,
        };
        if cx == x && cy == y {
            proof {
                assert(cell_x(*p, i as int) == x && cell_y(*p, i as int) == y);
                let j = cover_index(*p, x as int, y as int);
                if j != i as int {
                    assert(crate::word_place::same_cell(*p, j, *p, i as int));
                    crate::word_place::lemma_same_cell_injective(*p, j, i as int);
                }
            }
            return Some(i);
        }
        i = i + 1;
    }
    None
}

/// Renders a search result: the filled grid row by row with `.` for cells
/// outside every slot, or the literal `Unsolved`.
pub fn pretty_print(result: SolveState) -> (r: String)
    requires
        match result {
            SolveState::Solved(sol) => sol@.len() > 0 && forall|k: int|
                0 <= k < sol@.len() ==> wf_place(#[trigger] sol@[k]),
            SolveState::Unsolved => true,
        },
    ensures
        match result {
            SolveState::Solved(sol) => r@ == render_grid(sol@),
            SolveState::Unsolved => r@ == "Unsolved"@,
        },
{
    let sol = match result {
        SolveState::Unsolved => {
            return String::from_str("Unsolved");
        },
        SolveState::Solved(sol) => sol,
    };
    let n = sol.len();
    let mut mx: usize = 0;
    let mut my: usize = 0;
    let mut k: usize = 0;
    proof {
        assert(max_extent_x(sol@.take(0)) == 0);
        assert(max_extent_y(sol@.take(0)) == 0);
    }
    while k < n
        invariant
            k <= n,
            n == sol@.len(),
            forall|j: int| 0 <= j < n ==> wf_place(#[trigger] sol@[j]),
            mx == max_extent_x(sol@.take(k as int)),
            my == max_extent_y(sol@.take(k as int)),
        decreases n - k,
    {
        let p = &sol[k];
        let ex = match p.dir {
            Direction::Horizontal => p.x + p.chars.len(),
            Direction::Vertical => p.x,
        };
        let ey = match p.dir {
            Direction::Horizontal => p.y,
            Direction::Vertical => p.y + p.chars.len(),
        };
        proof {
            assert(sol@.take(k + 1).drop_last() =~= sol@.take(k as int));
            assert(sol@.take(k + 1).last() == sol@[k as int]);
            assert(ex == extent_x(sol@[k as int]));
            assert(ey == extent_y(sol@[k as int]));
        }
        if ex > mx {
            mx = ex;
        }
        if ey > my {
            my = ey;
        }
        k = k + 1;
    }
    proof {
        assert(sol@.take(n as int) =~= sol@);
    }
    let ghost rows_spec = Seq::new(my as nat, |y: int| render_row(sol@, y, mx as int));
    let mut out: Vec<char> = Vec::new();
    let mut y: usize = 0;
    proof {
        assert(out@ =~= join_lines(rows_spec.take(0)));
    }
    while y < my
        invariant
            y <= my,
            n == sol@.len(),
            forall|j: int| 0 <= j < n ==> wf_place(#[trigger] sol@[j]),
            rows_spec == Seq::new(my as nat, |yy: int| render_row(sol@, yy, mx as int)),
            out@ == join_lines(rows_spec.take(y as int)),
        decreases my - y,
    {
        let mut rowv: Vec<char> = Vec::new();
        let mut x: usize = 0;
        while x < mx
            invariant
                x <= mx,
                y < my,
                n == sol@.len(),
                forall|j: int| 0 <= j < n ==> wf_place(#[trigger] sol@[j]),
                rowv@.len() == x,
                forall|j: int| 0 <= j < x ==> rowv@[j] == render_cell(sol@, j, y as int),
            decreases mx - x,
        {
            let mut k2: usize = 0;
            let mut ch: char = '.';
            let mut found = false;
            while k2 < n && !found
                invariant
                    k2 <= n,
                    n == sol@.len(),
                    forall|j: int| 0 <= j < n ==> wf_place(#[trigger] sol@[j]),
                    !found ==> first_cover(sol@, 0, x as int, y as int) == first_cover(
                        sol@,
                        k2 as int,
                        x as int,
                        y as int,
                    ),
                    !found ==> ch == '.',
                    found ==> first_cover(sol@, 0, x as int, y as int) == k2 && k2 < n && ch
                        == cell_text(sol@[k2 as int], x as int, y as int),
                decreases n - k2, (if found { 0int } else { 1int }),
            {
                match find_cover_index(&sol[k2], x, y) {
                    Some(i) => {
                        ch = match sol[k2].chars[i] {
                            Character::Empty => '_',
                            Character::Letter(l) => l,
                        };
                        found = true;
                        proof {
                            assert(covers_cell(sol@[k2 as int], x as int, y as int));
                            assert(first_cover(sol@, k2 as int, x as int, y as int) == k2);
                            assert(ch == cell_text(sol@[k2 as int], x as int, y as int));
                        }
                    },
                    None => {
                        proof {
                            assert(first_cover(sol@, k2 as int, x as int, y as int)
                                == first_cover(sol@, k2 + 1, x as int, y as int));
                        }
                        k2 = k2 + 1;
                    },
                }
            }
            proof {
                if !found {
                    assert(first_cover(sol@, n as int, x as int, y as int) == n);
                    assert(render_cell(sol@, x as int, y as int) == '.');
                } else {
                    assert(render_cell(sol@, x as int, y as int) == ch);
                }
            }
            rowv.push(ch);
            x = x + 1;
        }
        proof {
            assert(rowv@ =~= render_row(sol@, y as int, mx as int));
            assert(rows_spec.take(y + 1).drop_last() =~= rows_spec.take(y as int));
            assert(rows_spec.take(y + 1).last() == rows_spec[y as int]);
        }
        if y > 0 {
            out.push('\n');
        }
        push_chars(&mut out, &rowv);
        proof {
            if y == 0 {
                assert(rows_spec.take(1).len() == 1);
                assert(out@ =~= join_lines(rows_spec.take(1)));
            } else {
                assert(out@ =~= join_lines(rows_spec.take(y as int)) + seq!['\n']
                    + rows_spec[y as int]);
            }
        }
        y = y + 1;
    }
    proof {
        assert(rows_spec.take(my as int) =~= rows_spec);
        assert(out@ == render_grid(sol@));
    }
    chars_to_string(&out)
}


/// The slot sits on the grid and keeps every letter the grid fixes; its
/// unknown grid cells may hold anything.
pub open spec fn grid_refined(g: Seq<Seq<char>>, p: WordPlace) -> bool {
    forall|i: int|
        0 <= i < slot_len(p) ==> {
            &&& 0 <= cell_y(p, i) < g.len()
            &&& 0 <= cell_x(p, i) < g[cell_y(p, i)].len()
            &&& #[trigger] g[cell_y(p, i)][cell_x(p, i)] != '.'
            &&& (cell_of_char(g[cell_y(p, i)][cell_x(p, i)]) is Letter ==> p.chars@[i]
                == cell_of_char(g[cell_y(p, i)][cell_x(p, i)]))
        }
}

/// The slot was spelled out in full by the grid itself.
pub open spec fn fully_prefilled(g: Seq<Seq<char>>, p: WordPlace) -> bool {
    place_matches_grid(g, p) && is_filled(p)
}

/// What a rendered (non-`Unsolved`) answer stands for: a non-empty set of
/// word-length slots, completely filled, pairwise consistent, lying on the
/// grid and keeping its fixed letters, each spelling a word of the list or
/// a word the grid itself had spelled out.
pub open spec fn rendered_solution(
    g: Seq<Seq<char>>,
    words: Seq<Seq<char>>,
    sol: Seq<WordPlace>,
) -> bool {
    &&& sol.len() > 0
    &&& forall|k: int| 0 <= k < sol.len() ==> is_filled(#[trigger] sol[k])
    &&& crate::word_place::consistent(sol)
    &&& forall|k: int| 0 <= k < sol.len() ==> slot_len(#[trigger] sol[k]) >= MIN_WORD_LENGTH
    &&& forall|k: int| 0 <= k < sol.len() ==> grid_refined(g, #[trigger] sol[k])
    &&& forall|k: int|
        0 <= k < sol.len() ==> words.contains(word_of(#[trigger] sol[k])) || exists|m: int|
            0 <= m < sol.len() && fully_prefilled(g, #[trigger] sol[m]) && word_of(sol[m])
                == word_of(sol[k])
}


/// A cell covered by some slot is covered first by a slot no later.
proof fn lemma_first_cover_finds(ps: Seq<WordPlace>, k: int, x: int, y: int)
    requires
        0 <= k < ps.len(),
        covers_cell(ps[k], x, y),
    ensures
        0 <= first_cover(ps, 0, x, y) <= k,
        covers_cell(ps[first_cover(ps, 0, x, y)], x, y),
    decreases k,
{
    lemma_first_cover_prefix(ps, 0, k, x, y);
}

/// From any start at or before a covering slot, the first cover is found
/// at or before it.
proof fn lemma_first_cover_prefix(ps: Seq<WordPlace>, j: int, k: int, x: int, y: int)
    requires
        0 <= j <= k < ps.len(),
        covers_cell(ps[k], x, y),
    ensures
        j <= first_cover(ps, j, x, y) <= k,
        covers_cell(ps[first_cover(ps, j, x, y)], x, y),
    decreases k - j,
{
    if !covers_cell(ps[j], x, y) {
        lemma_first_cover_prefix(ps, j + 1, k, x, y);
    }
}

/// Format idempotence, faithfulness part: inside the rendered area, the
/// grid text shows at every cell exactly the letter that each covering
/// slot of the (complete, consistent) solution holds there.  A re-parse
/// of the rendered text therefore reads the same letters off every slot
/// it finds; [`lemma_reparse_keeps_slots`] adds that every slot is found.
pub proof fn lemma_render_cell_faithful(sol: Seq<WordPlace>, k: int, i: int)
    requires
        crate::word_place::consistent(sol),
        forall|m: int| 0 <= m < sol.len() ==> is_filled(#[trigger] sol[m]),
        0 <= k < sol.len(),
        0 <= i < slot_len(sol[k]),
        cell_x(sol[k], i) < max_extent_x(sol),
        cell_y(sol[k], i) < max_extent_y(sol),
    ensures
        render_cell(sol, cell_x(sol[k], i), cell_y(sol[k], i)) == sol[k].chars@[i]->0,
{
    let x = cell_x(sol[k], i);
    let y = cell_y(sol[k], i);
    assert(covers_cell(sol[k], x, y));
    lemma_first_cover_finds(sol, k, x, y);
    let j = first_cover(sol, 0, x, y);
    let ij = cover_index(sol[j], x, y);
    assert(0 <= ij < slot_len(sol[j]) && cell_x(sol[j], ij) == x && cell_y(sol[j], ij) == y);
    assert(crate::word_place::same_cell(sol[j], ij, sol[k], i));
    assert(crate::word_place::agree(sol[j], sol[k]));
    assert(sol[j].chars@[ij] == sol[k].chars@[i]);
    assert(sol[j].chars@[ij] is Letter);
    assert(render_cell(sol, x, y) == cell_text(sol[j], x, y));
}


/// The first cover is either the slot count or a genuinely covering slot.
proof fn lemma_first_cover_covers(ps: Seq<WordPlace>, j: int, x: int, y: int)
    requires
        0 <= j <= ps.len(),
    ensures
        first_cover(ps, j, x, y) == ps.len() || (j <= first_cover(ps, j, x, y) < ps.len()
            && covers_cell(ps[first_cover(ps, j, x, y)], x, y)),
    decreases ps.len() - j,
{
    if j < ps.len() && !covers_cell(ps[j], x, y) {
        lemma_first_cover_covers(ps, j + 1, x, y);
    }
}

/// A cell no slot covers has no first cover.
proof fn lemma_first_cover_none(ps: Seq<WordPlace>, j: int, x: int, y: int)
    requires
        0 <= j <= ps.len(),
        forall|m: int| j <= m < ps.len() ==> !covers_cell(#[trigger] ps[m], x, y),
    ensures
        first_cover(ps, j, x, y) == ps.len(),
    decreases ps.len() - j,
{
    if j < ps.len() {
        lemma_first_cover_none(ps, j + 1, x, y);
    }
}

/// The x coordinate of the cell just before the slot along its
/// orientation.
pub open spec fn before_x(p: WordPlace) -> int {
    if p.dir is Horizontal {
        p.x - 1
    } else {
        p.x as int
    }
}

/// The y coordinate of the cell just before the slot.
pub open spec fn before_y(p: WordPlace) -> int {
    if p.dir is Horizontal {
        p.y as int
    } else {
        p.y - 1
    }
}

/// The x coordinate of the cell just past the slot's end.
pub open spec fn after_x(p: WordPlace) -> int {
    if p.dir is Horizontal {
        p.x + slot_len(p)
    } else {
        p.x as int
    }
}

/// The y coordinate of the cell just past the slot's end.
pub open spec fn after_y(p: WordPlace) -> int {
    if p.dir is Horizontal {
        p.y as int
    } else {
        p.y + slot_len(p)
    }
}

/// No slot's run touches another slot end to end: the cells just before
/// and just past every slot are covered by no slot at all.  Solutions of
/// parsed grids have this shape: those cells are blocked in the grid, and
/// slots cover only non-blocked cells.
pub open spec fn detached(sol: Seq<WordPlace>) -> bool {
    forall|k: int, m: int|
        #![trigger sol[k], sol[m]]
        0 <= k < sol.len() && 0 <= m < sol.len() ==> !covers_cell(
            sol[m],
            before_x(sol[k]),
            before_y(sol[k]),
        ) && !covers_cell(sol[m], after_x(sol[k]), after_y(sol[k]))
}

/// The rendered text splits back into exactly the rendered rows.
pub proof fn lemma_render_grid_lines(sol: Seq<WordPlace>)
    requires
        max_extent_x(sol) > 0,
        max_extent_y(sol) > 0,
        forall|m: int, i: int|
            0 <= m < sol.len() && 0 <= i < slot_len(sol[m]) && (#[trigger] sol[m].chars@[i]) is Letter
                ==> sol[m].chars@[i]->0 != '\n',
    ensures
        spec_lines(render_grid(sol)).len() == max_extent_y(sol),
        forall|y: int|
            0 <= y < max_extent_y(sol) ==> #[trigger] spec_lines(render_grid(sol))[y]
                == render_row(sol, y, max_extent_x(sol)),
{
    let mx = max_extent_x(sol);
    let my = max_extent_y(sol);
    let rows = Seq::new(my as nat, |y: int| render_row(sol, y, mx));
    assert forall|i: int| 0 <= i < rows.len() implies (#[trigger] rows[i]).len() > 0 by {
        assert(rows[i] == render_row(sol, i, mx));
    }
    assert forall|i: int, j: int|
        0 <= i < rows.len() && 0 <= j < rows[i].len() implies #[trigger] rows[i][j] != '\n' by {
        assert(rows[i][j] == render_cell(sol, j, i));
        lemma_first_cover_covers(sol, 0, j, i);
        let fc = first_cover(sol, 0, j, i);
        if fc < sol.len() {
            assert(covers_cell(sol[fc], j, i));
            let ci = cover_index(sol[fc], j, i);
            assert(0 <= ci < slot_len(sol[fc]));
        }
    }
    crate::text::lemma_lines_of_join(rows);
}

/// Format idempotence, recovery part: re-parsing a rendering loses
/// nothing.  For a complete, consistent, detached solution whose cells
/// all lie inside the rendered area and whose letters avoid the grid's
/// special symbols, every slot reappears in any faithful parse of the
/// rendered text — same origin, orientation and length — and every parse
/// slot with that frame spells the slot's own word.
pub proof fn lemma_reparse_keeps_slots(sol: Seq<WordPlace>, ps2: Seq<WordPlace>, k: int)
    requires
        sol.len() > 0,
        crate::word_place::consistent(sol),
        forall|m: int| 0 <= m < sol.len() ==> is_filled(#[trigger] sol[m]),
        forall|m: int| 0 <= m < sol.len() ==> slot_len(#[trigger] sol[m]) >= MIN_WORD_LENGTH,
        forall|m: int, i: int|
            0 <= m < sol.len() && 0 <= i < slot_len(sol[m]) ==> (#[trigger] cell_x(sol[m], i))
                < max_extent_x(sol) && cell_y(sol[m], i) < max_extent_y(sol),
        forall|m: int, i: int|
            0 <= m < sol.len() && 0 <= i < slot_len(sol[m]) && (#[trigger] sol[m].chars@[i]) is Letter
                ==> sol[m].chars@[i]->0 != '.' && sol[m].chars@[i]->0 != 'x'
                && sol[m].chars@[i]->0 != '\n',
        detached(sol),
        parse_of(spec_lines(render_grid(sol)), ps2),
        0 <= k < sol.len(),
    ensures
        has_slot(ps2, sol[k].dir, sol[k].x as int, sol[k].y as int, slot_len(sol[k]) as int),
        forall|j: int|
            0 <= j < ps2.len() && (#[trigger] ps2[j]).dir == sol[k].dir && ps2[j].x == sol[k].x
                && ps2[j].y == sol[k].y && slot_len(ps2[j]) == slot_len(sol[k]) ==> word_of(
                ps2[j],
            ) == word_of(sol[k]),
{
    let g2 = spec_lines(render_grid(sol));
    let mx = max_extent_x(sol);
    let my = max_extent_y(sol);
    let p = sol[k];
    let ll = slot_len(p) as int;
    assert(slot_len(sol[k]) >= MIN_WORD_LENGTH);
    assert(ll > 0);
    assert forall|i: int|
        0 <= i < ll implies (#[trigger] cell_x(sol[k], i)) < mx && cell_y(sol[k], i) < my by {
    }
    assert(cell_x(sol[k], 0) < mx && cell_y(sol[k], 0) < my);
    assert(mx > 0 && my > 0);
    lemma_render_grid_lines(sol);
    assert forall|y: int, x: int|
        0 <= y < my && 0 <= x < mx implies #[trigger] g2[y][x] == render_cell(sol, x, y) by {
        assert(g2[y] == render_row(sol, y, mx));
    }
    assert forall|i: int|
        0 <= i < ll implies g2[cell_y(p, i)][cell_x(p, i)] == p.chars@[i]->0 by {
        lemma_render_cell_faithful(sol, k, i);
    }
    if p.dir is Horizontal {
        let a = p.x as int;
        let y0 = p.y as int;
        assert forall|j: int| a <= j < a + ll implies (#[trigger] g2[y0][j]) != '.' by {
            assert(cell_x(p, j - a) == j && cell_y(p, j - a) == y0);
            assert(g2[cell_y(p, j - a)][cell_x(p, j - a)] == p.chars@[j - a]->0);
            assert(g2[y0][j] == p.chars@[j - a]->0);
        }
        if a > 0 {
            assert forall|m: int|
                0 <= m < sol.len() implies !covers_cell(#[trigger] sol[m], a - 1, y0) by {
                assert(!covers_cell(sol[m], before_x(sol[k]), before_y(sol[k])));
            }
            lemma_first_cover_none(sol, 0, a - 1, y0);
            assert(g2[y0][a - 1] == render_cell(sol, a - 1, y0));
            assert(g2[y0][a - 1] == '.');
        }
        assert(cell_x(p, ll - 1) == a + ll - 1);
        assert(a + ll <= mx);
        if a + ll < mx {
            assert forall|m: int|
                0 <= m < sol.len() implies !covers_cell(#[trigger] sol[m], a + ll, y0) by {
                assert(!covers_cell(sol[m], after_x(sol[k]), after_y(sol[k])));
            }
            lemma_first_cover_none(sol, 0, a + ll, y0);
            assert(g2[y0][a + ll] == '.');
        }
        assert(h_run(g2, y0, a, ll));
        assert(has_slot(ps2, Direction::Horizontal, a, y0, ll));
    } else {
        let x0 = p.x as int;
        let a = p.y as int;
        assert(g2[0].len() == mx);
        assert forall|j: int| a <= j < a + ll implies (#[trigger] g2[j][x0]) != '.' by {
            assert(cell_x(p, j - a) == x0 && cell_y(p, j - a) == j);
            assert(g2[cell_y(p, j - a)][cell_x(p, j - a)] == p.chars@[j - a]->0);
            assert(g2[j][x0] == p.chars@[j - a]->0);
        }
        if a > 0 {
            assert forall|m: int|
                0 <= m < sol.len() implies !covers_cell(#[trigger] sol[m], x0, a - 1) by {
                assert(!covers_cell(sol[m], before_x(sol[k]), before_y(sol[k])));
            }
            lemma_first_cover_none(sol, 0, x0, a - 1);
            assert(g2[a - 1][x0] == '.');
        }
        assert(cell_y(p, ll - 1) == a + ll - 1);
        assert(a + ll <= my);
        if a + ll < my {
            assert forall|m: int|
                0 <= m < sol.len() implies !covers_cell(#[trigger] sol[m], x0, a + ll) by {
                assert(!covers_cell(sol[m], after_x(sol[k]), after_y(sol[k])));
            }
            lemma_first_cover_none(sol, 0, x0, a + ll);
            assert(g2[a + ll][x0] == '.');
        }
        assert(v_run(g2, x0, a, ll));
        assert(has_slot(ps2, Direction::Vertical, x0, a, ll));
    }
    assert forall|j: int|
        0 <= j < ps2.len() && (#[trigger] ps2[j]).dir == sol[k].dir && ps2[j].x == sol[k].x
            && ps2[j].y == sol[k].y && slot_len(ps2[j]) == slot_len(sol[k]) implies word_of(ps2[j])
        == word_of(sol[k]) by {
        assert(good_place(g2, ps2[j]));
        assert forall|i: int| 0 <= i < ll implies ps2[j].chars@[i] == p.chars@[i] by {
            assert(cell_x(ps2[j], i) == cell_x(p, i) && cell_y(ps2[j], i) == cell_y(p, i));
            assert(ps2[j].chars@[i] == cell_of_char(
                g2[cell_y(ps2[j], i)][cell_x(ps2[j], i)],
            ));
            assert(g2[cell_y(p, i)][cell_x(p, i)] == p.chars@[i]->0);
            assert(p.chars@[i] is Letter);
            assert(p.chars@[i]->0 != 'x');
        }
        assert(word_of(ps2[j]) =~= word_of(sol[k]));
    }
}

} // verus!
