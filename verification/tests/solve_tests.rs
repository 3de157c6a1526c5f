use crossfill::solver::solve;
use crossfill::string_to_places::{input_places_from_visual, pretty_print, trim_indent_and_whitespace};

fn expect_solved(input: &str, expected: &str, wordlist: &[&str]) {
    let input_places = input_places_from_visual(trim_indent_and_whitespace(input));
    let words: Vec<String> = wordlist.iter().map(|s| s.to_string()).collect();
    let result = pretty_print(solve(words, input_places));
    let expected_trimmed = trim_indent_and_whitespace(expected);
    assert_eq!(result, expected_trimmed);
}

#[test]
fn places_simple_words() {
    expect_solved(
        "
            xxxxx
            x....
            x....
            x....
            x....
        ",
        "
            HELLO
            E....
            L....
            L....
            O....
        ",
        &["HELLO"],
    );
}

#[test]
fn discards_words_that_dont_fit() {
    expect_solved(
        "
            xxxxx
            x....
            x....
            x....
            x....
        ",
        "
            WORLD
            O....
            R....
            L....
            D....
        ",
        &["NOPE", "WORLD"],
    );
}

#[test]
fn finds_different_word_to_match_place() {
    expect_solved(
        "
            xxxxx
            .x...
            .x...
            .x...
            .x...
        ",
        "
            HELLO
            .M...
            .P...
            .T...
            .Y...
        ",
        &["HELLO", "EMPTY"],
    );
}

#[test]
fn does_backtrace() {
    expect_solved(
        "
            xxxxx
            ....x
            ....x
            xxxxx
            ....x
        ",
        "
            HELLO
            ....T
            ....H
            THERE
            ....R
        ",
        &["HELLO", "ODDLY", "OTHER", "THERE"],
    );
}

#[test]
fn returns_unsolved_if_cannot_be_solved() {
    expect_solved(
        "
            xxxxx
            ....x
            ....x
            xxxxx
            ....x
        ",
        "Unsolved",
        &["HELLO", "ODDLY", "THERE"],
    );
}

#[test]
fn needs_to_result_in_correct_words_in_all_directions() {
    expect_solved(
        "
            xxx
            xxx
            xxx
        ",
        "
            ODD
            DIY
            DYE",
        &["ODD", "DIY", "DYE"],
    );
}

#[test]
fn main_places_simple_words() {
    expect_solved(
        "
            xxxxx
            x....
            x....
            x....
            x....
        ",
        "
            HELLO
            E....
            L....
            L....
            O....
        ",
        &["HELLO"],
    );
}

#[test]
fn main_discards_words_that_dont_fit() {
    expect_solved(
        "
            xxxxx
            x....
            x....
            x....
            x....
        ",
        "
            WORLD
            O....
            R....
            L....
            D....
        ",
        &["NOPE", "WORLD"],
    );
}

#[test]
fn main_finds_different_word_to_match_place() {
    expect_solved(
        "
            xxxxx
            .x...
            .x...
            .x...
            .x...
        ",
        "
            HELLO
            .M...
            .P...
            .T...
            .Y...
        ",
        &["HELLO", "EMPTY"],
    );
}

#[test]
fn main_does_backtrace() {
    expect_solved(
        "
            xxxxx
            ....x
            ....x
            xxxxx
            ....x
        ",
        "
            HELLO
            ....T
            ....H
            THERE
            ....R
        ",
        &["HELLO", "ODDLY", "OTHER", "THERE"],
    );
}

#[test]
fn main_returns_unsolved_if_cannot_be_solved() {
    expect_solved(
        "
            xxxxx
            ....x
            ....x
            xxxxx
            ....x
        ",
        "Unsolved",
        &["HELLO", "ODDLY", "THERE"],
    );
}

#[test]
fn main_needs_to_result_in_correct_words_in_all_directions() {
    expect_solved(
        "
            xxx
            xxx
            xxx
        ",
        "
            ODD
            DIY
            DYE",
        &["ODD", "DIY", "DYE"],
    );
}
