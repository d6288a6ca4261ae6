use linked_words::query::{
    build_substring_pattern, completion_of, completion_word, is_meta_char, token,
};
use linked_words::text::{chars_of, find, find_last, matches_at, split_at_spaces, string_of};

fn chars(s: &str) -> Vec<char> {
    s.chars().collect()
}

#[test]
fn chars_and_strings_convert_both_ways() {
    assert_eq!(chars_of("niño"), vec!['n', 'i', 'ñ', 'o']);
    assert_eq!(chars_of(""), Vec::<char>::new());
    assert_eq!(string_of(&['n', 'i', 'ñ', 'o']), "niño");
    assert_eq!(string_of(&chars_of("日本語 text")), "日本語 text");
}

#[test]
fn matches_at_compares_in_place() {
    let hay = chars("the cat sat");
    assert!(matches_at(&hay, &chars("cat"), 4));
    assert!(!matches_at(&hay, &chars("cat"), 3));
    assert!(!matches_at(&hay, &chars("sat!"), 8));
    assert!(matches_at(&hay, &chars(""), 11));
    assert!(!matches_at(&hay, &chars(""), 12));
}

#[test]
fn find_gives_first_occurrence() {
    let hay = chars("abcabcabc");
    assert_eq!(find(&hay, &chars("bc"), 0), Some(1));
    assert_eq!(find(&hay, &chars("bc"), 2), Some(4));
    assert_eq!(find(&hay, &chars("bc"), 8), None);
    assert_eq!(find(&hay, &chars("x"), 0), None);
    assert_eq!(find(&hay, &chars(""), 3), Some(3));
    assert_eq!(find(&hay, &chars(""), 9), Some(9));
    assert_eq!(find(&hay, &chars(""), 10), None);
    assert_eq!(find(&hay, &chars("abcabcabcd"), 0), None);
}

#[test]
fn find_last_gives_last_occurrence() {
    let hay = chars("abcabcabc");
    assert_eq!(find_last(&hay, &chars("bc"), 9), Some(7));
    assert_eq!(find_last(&hay, &chars("bc"), 6), Some(4));
    assert_eq!(find_last(&hay, &chars("bc"), 0), None);
    assert_eq!(find_last(&hay, &chars("abc"), 0), Some(0));
}

#[test]
fn split_keeps_empty_pieces() {
    let pieces = |s: &str| -> Vec<String> {
        split_at_spaces(&chars(s)).iter().map(|p| p.iter().collect()).collect()
    };
    assert_eq!(pieces("the cat sat"), vec!["the", "cat", "sat"]);
    assert_eq!(pieces(""), vec![""]);
    assert_eq!(pieces(" "), vec!["", ""]);
    assert_eq!(pieces("a  b "), vec!["a", "", "b", ""]);
    assert_eq!(pieces("single"), vec!["single"]);
}

#[test]
fn pattern_characters_are_escaped() {
    for c in "\\.+*?()|[]{}^$#".chars() {
        assert!(is_meta_char(c));
    }
    for c in "az09 -_&~\"'/<>=!@%,;:".chars() {
        assert!(!is_meta_char(c));
    }
    assert_eq!(build_substring_pattern(&token("cat")), ".* cat .*");
    assert_eq!(build_substring_pattern(&token("a.b")), ".* a\\.b .*");
    assert_eq!(build_substring_pattern(&token("(x|y)*")), ".* \\(x\\|y\\)\\* .*");
    assert_eq!(build_substring_pattern(&token("")), ".*  .*");
    assert_eq!(build_substring_pattern(&chars("cat")), ".*cat.*");
    assert_eq!(build_substring_pattern(&chars("c++")), ".*c\\+\\+.*");
    assert_eq!(build_substring_pattern(&chars("ñu")), ".*ñu.*");
    assert_eq!(build_substring_pattern(&chars("")), ".*.*");
}

#[test]
fn token_stands_between_spaces() {
    assert_eq!(token("cat"), chars(" cat "));
    assert_eq!(token(""), chars("  "));
    assert_eq!(token("a b"), chars(" a b "));
}

fn word(s: &str) -> Option<String> {
    Some(s.to_string())
}

#[test]
fn completion_runs_to_next_space() {
    assert_eq!(completion_word("the cataract fell", "cat"), word("cataract"));
    assert_eq!(completion_word("the catalog", "cat"), word("catalog"));
    assert_eq!(completion_word("concatenate this", "cat"), word("catenate"));
    assert_eq!(completion_word("cat", "cat"), word("cat"));
    assert_eq!(completion_word("a cat and a catalog", "cat"), word("cat"));
    assert_eq!(completion_word("el niño come", "ni"), word("niño"));
}

#[test]
fn sentence_without_prefix_offers_no_completion() {
    assert_eq!(completion_word("the dog sat", "cat"), None);
    assert_eq!(completion_word("", "cat"), None);
    assert_eq!(completion_word("the cat", "cat0"), None);
}

#[test]
fn completion_of_empty_prefix_is_first_word() {
    assert_eq!(completion_word("the dog sat", ""), word("the"));
    assert_eq!(completion_word("", ""), word(""));
    assert_eq!(completion_of(&chars("the dog"), &chars("e d")), Some(chars("e")));
}
