use crossfill::direction::Direction;
use crossfill::do_solve;
use crossfill::solver::{
    find_best_candidate, is_solved, word_contained, words_that_fit, SolveState,
    WordPlaceWithPossibleWords,
};
use crossfill::string_to_places::{
    input_places_from_visual, pretty_print, to_rows, trim_indent_and_whitespace,
};
use crossfill::word_place::{Character, WordPlace};

fn chars(s: &str) -> Vec<char> {
    s.chars().collect()
}

fn wordvecs(ws: &[&str]) -> Vec<Vec<char>> {
    ws.iter().map(|w| chars(w)).collect()
}

#[test]
fn trims_indentation_blank_lines_and_line_ends() {
    let cleaned = trim_indent_and_whitespace("  abc \r\n\n\t x.y \n");
    assert_eq!(cleaned, "abc\nx.y");
}

#[test]
fn splits_rows_on_newlines() {
    let rows = to_rows(String::from("ab\ncd"));
    assert_eq!(rows, vec![String::from("ab"), String::from("cd")]);
}

#[test]
fn extracts_slots_of_word_length_only() {
    // One horizontal run of five, one vertical run of three; every other
    // run is shorter than a word and is discarded.
    let places = input_places_from_visual(trim_indent_and_whitespace(
        "
            xxxxx
            ..x..
            ..x..
        ",
    ));
    assert_eq!(places.len(), 2);
    assert_eq!(places[0].dir, Direction::Horizontal);
    assert_eq!((places[0].x, places[0].y, places[0].chars.len()), (0, 0, 5));
    assert_eq!(places[1].dir, Direction::Vertical);
    assert_eq!((places[1].x, places[1].y, places[1].chars.len()), (2, 0, 3));
}

#[test]
fn parser_keeps_prefilled_letters() {
    let places = input_places_from_visual(trim_indent_and_whitespace("xAx"));
    assert_eq!(places.len(), 1);
    assert_eq!(places[0].chars[0], Character::Empty);
    assert_eq!(places[0].chars[1], Character::Letter('A'));
    assert_eq!(places[0].chars[2], Character::Empty);
}

#[test]
fn words_that_fit_filters_by_length_and_letters() {
    let list = wordvecs(&["CAT", "COW", "DOG", "GOOSE"]);
    let place = WordPlace {
        chars: vec![Character::Letter('C'), Character::Empty, Character::Empty],
        x: 0,
        y: 0,
        dir: Direction::Horizontal,
    };
    let fitting = words_that_fit(&list, &place);
    assert_eq!(fitting, wordvecs(&["CAT", "COW"]));
}

#[test]
fn best_candidate_prefers_fewest_words_then_later_slot() {
    let slot = |y: usize, cells: Vec<Character>| WordPlace {
        chars: cells,
        x: 0,
        y,
        dir: Direction::Horizontal,
    };
    let open = vec![Character::Empty, Character::Empty, Character::Empty];
    let state = vec![
        WordPlaceWithPossibleWords {
            place: slot(0, open.clone()),
            possible_words: wordvecs(&["CAT", "COW"]),
        },
        WordPlaceWithPossibleWords {
            place: slot(1, vec![Character::Letter('D'), Character::Letter('O'), Character::Letter('G')]),
            possible_words: wordvecs(&["DOG"]),
        },
        WordPlaceWithPossibleWords {
            place: slot(2, open.clone()),
            possible_words: wordvecs(&["CAT", "COW"]),
        },
        WordPlaceWithPossibleWords {
            place: slot(3, open),
            possible_words: wordvecs(&["CAT", "COW", "DOG"]),
        },
    ];
    assert!(!is_solved(&state));
    // The filled slot is skipped; of the two tied open slots the later wins.
    assert_eq!(find_best_candidate(&state), 2);
}

#[test]
fn word_contained_compares_by_characters() {
    let list = wordvecs(&["CAT", "DOG"]);
    assert!(word_contained(&list, &chars("DOG")));
    assert!(!word_contained(&list, &chars("DOT")));
}

#[test]
fn place_to_string_shows_spaces_for_unknown_cells() {
    let place = WordPlace {
        chars: vec![Character::Letter('A'), Character::Empty, Character::Letter('B')],
        x: 0,
        y: 0,
        dir: Direction::Horizontal,
    };
    assert_eq!(place.to_string(), "A B");
}

#[test]
fn default_cell_is_unknown() {
    assert_eq!(Character::default(), Character::Empty);
}

#[test]
fn pretty_print_reports_unsolved() {
    assert_eq!(pretty_print(SolveState::Unsolved), "Unsolved");
}

#[test]
fn prefilled_answers_join_the_word_pool() {
    // The top row is already spelled out; its word is not in the list but
    // must still be honored and reused for the first column.
    let out = do_solve(
        String::from("ODD\nxxx\nxxx"),
        vec![String::from("DIY"), String::from("DYE")],
    );
    assert_eq!(out, "ODD\nDIY\nDYE");
}

#[test]
fn empty_word_list_is_unsolved() {
    let out = do_solve(String::from("xxx"), Vec::new());
    assert_eq!(out, "Unsolved");
}

#[test]
fn grid_without_slots_is_unsolved() {
    let out = do_solve(String::from("xx\nxx"), vec![String::from("ABC")]);
    assert_eq!(out, "Unsolved");
}

#[test]
fn formatting_then_reparsing_keeps_the_slot_words() {
    let input = trim_indent_and_whitespace(
        "
            xxx
            xxx
            xxx
        ",
    );
    let places = input_places_from_visual(input);
    let words = vec![String::from("ODD"), String::from("DIY"), String::from("DYE")];
    let rendered = match crossfill::solver::solve(words, places) {
        SolveState::Solved(sol) => {
            let first: Vec<String> = sol.iter().map(|p| p.to_string()).collect();
            let text = pretty_print(SolveState::Solved(sol));
            let reparsed = input_places_from_visual(text);
            let second: Vec<String> = reparsed.iter().map(|p| p.to_string()).collect();
            assert_eq!(first, second);
            true
        },
        SolveState::Unsolved => false,
    };
    assert!(rendered);
}
