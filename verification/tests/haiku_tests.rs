use haiku::syllables::count_syllables_in_word;
use haiku::transform::transform_to_haiku;
use haiku::words::split_whitespace_words;

#[test]
fn test_transform_to_haiku_valid() {
    let input = "one one on one one one on one one on".to_string();
    let expected_output = "one one on \none one one on \none one on \n".to_string();
    assert_eq!(transform_to_haiku(input), Some(expected_output));
}

// The running totals here land exactly on 5, 7 and 5 (after "Haiku",
// "celebrate" and "create"), so the segmenter accepts and discards the rest.
#[test]
fn test_transform_to_haiku_invalid_2() {
    let input = "A Friday Haiku Time to celebrate freedom to create my art.".to_string();
    let expected_output = "A Friday Haiku \nTime to celebrate \nfreedom to create \n".to_string();
    assert_eq!(transform_to_haiku(input), Some(expected_output));
}

// The third line of this verse counts four syllables under the run-collapse
// heuristic (the adjacent vowels of the last word form one run), so the
// segmenter rejects it.
#[test]
fn test_transform_to_haiku_valid_3() {
    let input = "\u{0422}\u{044b} \u{0443}\u{043b}\u{044b}\u{0431}\u{043d}\u{0443}\u{043b}\u{0430}\u{0441}\u{044c}. \u{0421} \u{043c}\u{0435}\u{0434}\u{043b}\u{0435}\u{043d}\u{043d}\u{043e}\u{0439} \u{043b}\u{044c}\u{0434}\u{0438}\u{043d}\u{044b} \u{0432}\u{0434}\u{0430}\u{043b}\u{0438} \u{041f}\u{0442}\u{0438}\u{0446}\u{0430} \u{0432}\u{0437}\u{043b}\u{0435}\u{0442}\u{0430}\u{0435}\u{0442}.".to_string();
    assert_eq!(transform_to_haiku(input), None);
}

#[test]
fn test_transform_to_haiku_invalid() {
    let input = "one one on one one one on one".to_string();
    assert_eq!(transform_to_haiku(input), None);
}

#[test]
fn test_count_syllables_in_word() {
    assert_eq!(count_syllables_in_word("hello"), 2);
    assert_eq!(count_syllables_in_word("world"), 1);
    assert_eq!(count_syllables_in_word("haiku"), 2);
}

#[test]
fn test_consonant_only_words_count_zero() {
    assert_eq!(count_syllables_in_word(""), 0);
    assert_eq!(count_syllables_in_word("grr"), 0);
    assert_eq!(count_syllables_in_word("shh"), 0);
    assert_eq!(count_syllables_in_word("1234,;"), 0);
}

#[test]
fn test_isolated_vowels_count_one_each() {
    assert_eq!(count_syllables_in_word("banana"), 3);
    assert_eq!(count_syllables_in_word("on"), 1);
    assert_eq!(count_syllables_in_word("celebrate"), 4);
}

#[test]
fn test_vowel_run_collapses() {
    assert_eq!(count_syllables_in_word("a"), 1);
    assert_eq!(count_syllables_in_word("aa"), 1);
    assert_eq!(count_syllables_in_word("oooo"), 1);
    assert_eq!(count_syllables_in_word("cool"), 1);
    assert_eq!(count_syllables_in_word("cooool"), 1);
}

#[test]
fn test_cyrillic_haiku_accepted() {
    let input = "\u{0422}\u{044b} \u{0443}\u{043b}\u{044b}\u{0431}\u{043d}\u{0443}\u{043b}\u{0430}\u{0441}\u{044c}. \u{0421} \u{043c}\u{0435}\u{0434}\u{043b}\u{0435}\u{043d}\u{043d}\u{043e}\u{0439} \u{043b}\u{044c}\u{0434}\u{0438}\u{043d}\u{044b} \u{0432}\u{0434}\u{0430}\u{043b}\u{0438} \u{041f}\u{0442}\u{0438}\u{0446}\u{0430} \u{043b}\u{0435}\u{0442}\u{0435}\u{043b}\u{0430}.".to_string();
    let expected_output = "\u{0422}\u{044b} \u{0443}\u{043b}\u{044b}\u{0431}\u{043d}\u{0443}\u{043b}\u{0430}\u{0441}\u{044c}. \n\u{0421} \u{043c}\u{0435}\u{0434}\u{043b}\u{0435}\u{043d}\u{043d}\u{043e}\u{0439} \u{043b}\u{044c}\u{0434}\u{0438}\u{043d}\u{044b} \u{0432}\u{0434}\u{0430}\u{043b}\u{0438} \n\u{041f}\u{0442}\u{0438}\u{0446}\u{0430} \u{043b}\u{0435}\u{0442}\u{0435}\u{043b}\u{0430}. \n".to_string();
    assert_eq!(transform_to_haiku(input), Some(expected_output));
}

// Every word here counts two syllables except the last, so the first line
// overshoots 5; the grand total is 17, yet the input is rejected.
#[test]
fn test_overshoot_rejected_even_with_total_17() {
    let input = "hello hello hello hello hello hello hello hello on".to_string();
    assert_eq!(transform_to_haiku(input), None);
}

#[test]
fn test_deterministic_on_same_input() {
    let input = "one one on one one one on one one on";
    let first = transform_to_haiku(input.to_string());
    let second = transform_to_haiku(input.to_string());
    assert_eq!(first, second);
}

#[test]
fn test_empty_and_blank_inputs_rejected() {
    assert_eq!(transform_to_haiku("".to_string()), None);
    assert_eq!(transform_to_haiku("   ".to_string()), None);
    assert_eq!(transform_to_haiku("\t\n ".to_string()), None);
}

#[test]
fn test_words_after_the_third_line_are_discarded() {
    let input = "one one on one one one on one one on extra words".to_string();
    let expected_output = "one one on \none one one on \none one on \n".to_string();
    assert_eq!(transform_to_haiku(input), Some(expected_output));
}

#[test]
fn test_split_whitespace_words_collapses_runs() {
    let words = split_whitespace_words("  a  b ");
    assert_eq!(words, vec!["a".to_string(), "b".to_string()]);
    let words = split_whitespace_words("one\ttwo\nthree");
    assert_eq!(words, vec!["one".to_string(), "two".to_string(), "three".to_string()]);
    let empty: Vec<String> = Vec::new();
    assert_eq!(split_whitespace_words("   "), empty);
}
