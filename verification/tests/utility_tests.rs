//! Tests of the utilities beside the directory core: statistics, the
//! pig-latin transformer, and the string helpers.

use employee_directory::basics::{first_word, last_char_of_first_line};
use employee_directory::pig_latin::convert_to_pig_latin;
use employee_directory::statistics::{median, mode};
use employee_directory::text::{sort_strings, split_tokens, str_eq, str_lex_le};

#[test]
fn median_of_odd_length_list() {
    let mut integers = vec![3, 4, 8, 2, 2, 5, 0, 9, 6, 6, 1, 10, 2];
    assert_eq!(median(&mut integers), 4);
    assert_eq!(integers, vec![0, 1, 2, 2, 2, 3, 4, 5, 6, 6, 8, 9, 10]);
}

#[test]
fn median_of_even_length_list_takes_lower_middle() {
    let mut integers = vec![4, 1, 3, 2];
    assert_eq!(median(&mut integers), 2);
}

#[test]
fn median_of_single_element() {
    let mut integers = vec![7];
    assert_eq!(median(&mut integers), 7);
}

#[test]
fn mode_picks_most_frequent() {
    let mut integers = vec![3, 4, 8, 2, 2, 5, 0, 9, 6, 6, 1, 10, 2];
    assert_eq!(mode(&mut integers), (2, 3));
}

#[test]
fn mode_tie_goes_to_first_to_reach_the_count() {
    // Both values occur twice; 2 completes its second occurrence first.
    let mut integers = vec![1, 2, 2, 1];
    assert_eq!(mode(&mut integers), (2, 2));
}

#[test]
fn mode_of_empty_list() {
    let mut integers: Vec<i32> = Vec::new();
    assert_eq!(mode(&mut integers), (0, 0));
}

#[test]
fn pig_latin_sentence() {
    let sentence = "first apple cbnm because".to_string();
    assert_eq!(convert_to_pig_latin(&sentence), "irstfay apple-hay cbnm ecausebay");
}

#[test]
fn pig_latin_leading_vowel_gets_hay() {
    assert_eq!(convert_to_pig_latin(&"apple".to_string()), "apple-hay");
    assert_eq!(convert_to_pig_latin(&"Apple".to_string()), "Apple-hay");
}

#[test]
fn pig_latin_consonant_cluster_moves() {
    assert_eq!(convert_to_pig_latin(&"strong".to_string()), "ongstray");
}

#[test]
fn pig_latin_word_without_vowel_unchanged() {
    assert_eq!(convert_to_pig_latin(&"zzz".to_string()), "zzz");
}

#[test]
fn pig_latin_collapses_whitespace() {
    assert_eq!(convert_to_pig_latin(&"  one   two  ".to_string()), "one-hay otway");
}

#[test]
fn pig_latin_empty_sentence() {
    assert_eq!(convert_to_pig_latin(&String::new()), "");
}

#[test]
fn first_word_stops_at_space() {
    assert_eq!(first_word("Hello World"), "Hello");
    assert_eq!(first_word("Hello"), "Hello");
    assert_eq!(first_word(" leading"), "");
}

#[test]
fn last_char_of_first_line_cases() {
    assert_eq!(last_char_of_first_line("kfg\nk\njsflsg"), Some('g'));
    assert_eq!(last_char_of_first_line("\nk\njsflsg"), None);
    assert_eq!(last_char_of_first_line(""), None);
    assert_eq!(last_char_of_first_line("abc\r\nx"), Some('c'));
}

#[test]
fn split_tokens_on_unicode_whitespace() {
    // Non-breaking space, em space and the ideographic space all split.
    assert_eq!(
        split_tokens("a\u{00A0}b\u{2003}c\u{3000}d\u{000B}e"),
        vec![
            "a".to_string(),
            "b".to_string(),
            "c".to_string(),
            "d".to_string(),
            "e".to_string(),
        ]
    );
}

#[test]
fn split_tokens_on_whitespace_runs() {
    assert_eq!(
        split_tokens("  a  bb\tccc \n"),
        vec!["a".to_string(), "bb".to_string(), "ccc".to_string()]
    );
    assert!(split_tokens("   ").is_empty());
}

#[test]
fn string_order_and_equality() {
    assert!(str_lex_le("Amir", "Sally"));
    assert!(!str_lex_le("Sally", "Amir"));
    assert!(str_lex_le("Pat", "Pat"));
    assert!(str_lex_le("Pat", "Patrick"));
    // Order is by scalar value, so upper case sorts before lower case.
    assert!(str_lex_le("Zed", "apple"));
    assert!(str_eq("Sales", "Sales"));
    assert!(!str_eq("Sales", "Sale"));
}

#[test]
fn sort_strings_sorts_lexicographically() {
    let mut v = vec![
        "pear".to_string(),
        "Apple".to_string(),
        "apple".to_string(),
        "Pear".to_string(),
    ];
    sort_strings(&mut v);
    assert_eq!(
        v,
        vec![
            "Apple".to_string(),
            "Pear".to_string(),
            "apple".to_string(),
            "pear".to_string(),
        ]
    );
}
