//! A crossword-style grid filler.
//!
//! The library parses a visual grid description into word slots, fills every
//! slot with a word from a given list so that all letter intersections agree,
//! and renders the filled grid back to text.  The search is a verified
//! backtracking engine with forward checking and a most-constrained-slot
//! heuristic.

use vstd::prelude::*;

pub mod direction;
pub mod solver;
pub mod string_to_places;
pub mod text;
pub mod word_place;

verus! {

/// What `do_solve` promises of its answer: for some faithful parse `ps`
/// of the grid, either the answer is the literal `Unsolved` and there is
/// no slot to fill or no valid way to fill the parsed slots from the word
/// list, or the answer renders a valid solution of the parsed slots.
pub open spec fn do_solve_post(
    g: Seq<Seq<char>>,
    words: Seq<Seq<char>>,
    out: Seq<char>,
) -> bool {
    exists|ps: Seq<word_place::WordPlace>|
        #[trigger] string_to_places::parse_of(g, ps) && {
            ||| (out == "Unsolved"@ && (ps.len() == 0 || forall|sol: Seq<word_place::WordPlace>|
                !solver::valid_solution(words, ps, sol)))
            ||| exists|sol: Seq<word_place::WordPlace>|
                #[trigger] solver::valid_solution(words, ps, sol)
                    && string_to_places::rendered_solution(g, words, sol) && out
                    == string_to_places::render_grid(sol)
        }
}

/// Solves a visual grid against a word list: parses the grid into slots,
/// fills every slot with a word so that all intersections agree, and
/// renders the filled grid, or the literal `Unsolved` when no filling
/// exists (or the grid holds no slot at all).
pub fn do_solve(input: String, wordlist: Vec<String>) -> (r: String)
    requires
        text::spec_lines(text::trim_grid(input@)).len() > 0,
        string_to_places::rectangular(text::spec_lines(text::trim_grid(input@))),
    ensures
        do_solve_post(text::spec_lines(text::trim_grid(input@)), wordlist.deep_view(), r@),
{
    let ghost g = text::spec_lines(text::trim_grid(input@));
    let ghost wl = wordlist.deep_view();
    let trimmed = string_to_places::trim_indent_and_whitespace(input.as_str());
    let input_places = string_to_places::input_places_from_visual(trimmed);
    let ghost ps0 = input_places@;
    proof {
        assert(string_to_places::parse_of(g, ps0));
    }
    if input_places.len() == 0 {
        let unsolved = String::from_str("Unsolved");
        proof {
            assert(do_solve_post(g, wl, unsolved@));
        }
        return unsolved;
    }
    proof {
        assert forall|k: int| 0 <= k < ps0.len() implies string_to_places::place_matches_grid(
            g,
            #[trigger] ps0[k],
        ) && word_place::wf_place(ps0[k]) by {
            assert(string_to_places::good_place(g, ps0[k]));
        }
        string_to_places::lemma_grid_places_consistent(g, ps0);
    }
    let result = solver::solve(wordlist, input_places);
    proof {
        if result is Solved {
            let sol = (result->0)@;
            assert(solver::valid_solution(wl, ps0, sol));
            assert forall|k: int| 0 <= k < sol.len() implies word_place::wf_place(
                #[trigger] sol[k],
            ) && word_place::slot_len(sol[k]) >= string_to_places::MIN_WORD_LENGTH
                && string_to_places::grid_refined(g, sol[k]) by {
                assert(word_place::refines(ps0[k], sol[k]));
                assert(string_to_places::good_place(g, ps0[k]));
                assert forall|i: int| 0 <= i < word_place::slot_len(sol[k]) implies {
                    &&& 0 <= word_place::cell_y(sol[k], i) < g.len()
                    &&& 0 <= word_place::cell_x(sol[k], i) < g[word_place::cell_y(sol[k], i)].len()
                    &&& #[trigger] g[word_place::cell_y(sol[k], i)][word_place::cell_x(sol[k], i)]
                        != '.'
                    &&& (string_to_places::cell_of_char(
                        g[word_place::cell_y(sol[k], i)][word_place::cell_x(sol[k], i)],
                    ) is Letter ==> sol[k].chars@[i] == string_to_places::cell_of_char(
                        g[word_place::cell_y(sol[k], i)][word_place::cell_x(sol[k], i)],
                    ))
                } by {
                    assert(word_place::cell_x(sol[k], i) == word_place::cell_x(ps0[k], i));
                    assert(word_place::cell_y(sol[k], i) == word_place::cell_y(ps0[k], i));
                    assert(ps0[k].chars@[i] == string_to_places::cell_of_char(
                        g[word_place::cell_y(ps0[k], i)][word_place::cell_x(ps0[k], i)],
                    ));
                }
            }
            assert forall|k: int|
                0 <= k < sol.len() implies wl.contains(
                word_place::word_of(#[trigger] sol[k]),
            ) || exists|m: int|
                0 <= m < sol.len() && string_to_places::fully_prefilled(g, #[trigger] sol[m])
                    && word_place::word_of(sol[m]) == word_place::word_of(sol[k]) by {
                assert(solver::in_effective(wl, ps0, word_place::word_of(sol[k])));
                if !wl.contains(word_place::word_of(sol[k])) {
                    assert(solver::completed_words(ps0).contains(word_place::word_of(sol[k])));
                    solver::lemma_completed_words_members(ps0, word_place::word_of(sol[k]));
                    let m = choose|m: int|
                        0 <= m < ps0.len() && word_place::is_filled(#[trigger] ps0[m])
                            && word_place::word_of(ps0[m]) == word_place::word_of(sol[k]);
                    assert(word_place::refines(ps0[m], sol[m]));
                    assert forall|i: int|
                        0 <= i < word_place::slot_len(sol[m]) implies #[trigger] sol[m].chars@[i]
                        == ps0[m].chars@[i] by {
                        assert(ps0[m].chars@[i] is Letter);
                    }
                    assert(word_place::word_of(sol[m]) =~= word_place::word_of(ps0[m]));
                    assert forall|i: int|
                        0 <= i < word_place::slot_len(sol[m]) implies {
                        &&& 0 <= word_place::cell_y(sol[m], i) < g.len()
                        &&& 0 <= word_place::cell_x(sol[m], i) < g[word_place::cell_y(
                            sol[m],
                            i,
                        )].len()
                        &&& #[trigger] g[word_place::cell_y(sol[m], i)][word_place::cell_x(
                            sol[m],
                            i,
                        )] != '.'
                        &&& sol[m].chars@[i] == string_to_places::cell_of_char(
                            g[word_place::cell_y(sol[m], i)][word_place::cell_x(sol[m], i)],
                        )
                    } by {
                        assert(word_place::cell_x(sol[m], i) == word_place::cell_x(ps0[m], i));
                        assert(word_place::cell_y(sol[m], i) == word_place::cell_y(ps0[m], i));
                        assert(ps0[m].chars@[i] == string_to_places::cell_of_char(
                            g[word_place::cell_y(ps0[m], i)][word_place::cell_x(ps0[m], i)],
                        ));
                    }
                    assert(string_to_places::fully_prefilled(g, sol[m]));
                }
            }
            assert(string_to_places::rendered_solution(g, wl, sol));
        }
    }
    let ghost res = result;
    let out = string_to_places::pretty_print(result);
    proof {
        if res is Solved {
            let sol = (res->0)@;
            assert(solver::valid_solution(wl, ps0, sol));
            assert(string_to_places::rendered_solution(g, wl, sol) && out@
                == string_to_places::render_grid(sol));
        } else {
            assert(out@ == "Unsolved"@);
            assert(forall|sol: Seq<word_place::WordPlace>| !solver::valid_solution(wl, ps0, sol));
        }
        assert(do_solve_post(g, wl, out@));
    }
    out
}

} // verus!
