use linked_words::encoding::{decode_match, encode_build_key};
use linked_words::error::IndexError;
use linked_words::query::completion_word;
use linked_words::index::{
    autocomplete_more, autocomplete_search, build_shard, contains_word, decode_page, offer_completion,
    read_page, read_window, search_index, Shard,
};

fn line(sentence: &str, position: u32, document: u64) -> Vec<u8> {
    format!("{}{:08x}{:016x}", sentence, position, document).into_bytes()
}

fn shard_of(lines: Vec<Vec<u8>>) -> Shard {
    build_shard(&lines).unwrap()
}

#[test]
fn decode_reads_sentence_and_position() {
    let key = b"the quick fox00000007";
    assert_eq!(decode_match(key, 42), Ok(("the quick fox".to_string(), 7, 42)));
}

#[test]
fn decode_rejects_bad_keys() {
    assert_eq!(decode_match(b"short", 1), Err(IndexError::Encoding));
    assert_eq!(decode_match(b"the quick fox0000000z", 1), Err(IndexError::Encoding));
    assert_eq!(decode_match(b"\xff\xfe00000007", 1), Err(IndexError::Encoding));
    assert_eq!(decode_match(b"00000000", 9), Ok((String::new(), 0, 9)));
}

#[test]
fn encode_splits_line() {
    let l = line("the cat sat", 3, 0xabc);
    let (key, value) = encode_build_key(&l).unwrap();
    assert_eq!(key, b"the cat sat00000003".to_vec());
    assert_eq!(value, 0xabc);
}

#[test]
fn encode_rejects_line_without_identifier() {
    assert_eq!(encode_build_key(b"the cat sat00000003xyz"), Err(IndexError::Encoding));
    assert_eq!(encode_build_key(b"0123"), Err(IndexError::Encoding));
    assert_eq!(encode_build_key(b"the cat sat00000003+000000000000abc"), Err(IndexError::Encoding));
}

#[test]
fn token_must_stand_between_spaces() {
    let shard = shard_of(vec![line("the category is open", 0, 1)]);
    assert_eq!(search_index(&shard, "cat", 0, 10), Ok(vec![]));
    let shard = shard_of(vec![line("the cat sat", 0, 1)]);
    assert_eq!(search_index(&shard, "cat", 0, 10), Ok(vec![("the cat sat".to_string(), 0, 1)]));
}

#[test]
fn search_pages_do_not_overlap() {
    let lines = vec![
        line("a cat b", 1, 10),
        line("b cat c", 2, 11),
        line("c dog d", 3, 12),
        line("d cat e", 4, 13),
        line("e cat f", 5, 14),
    ];
    let shard = shard_of(lines);
    let all = search_index(&shard, "cat", 0, 4).unwrap();
    assert_eq!(
        all,
        vec![
            ("a cat b".to_string(), 1, 10),
            ("b cat c".to_string(), 2, 11),
            ("d cat e".to_string(), 4, 13),
            ("e cat f".to_string(), 5, 14),
        ]
    );
    assert_eq!(search_index(&shard, "cat", 4, 1), Ok(vec![]));
    assert_eq!(search_index(&shard, "cat", 9, 3), Ok(vec![]));
    let first = search_index(&shard, "cat", 0, 1).unwrap();
    let rest = search_index(&shard, "cat", 1, 3).unwrap();
    let mut joined = first.clone();
    joined.extend(rest);
    assert_eq!(joined, all);
    assert_eq!(search_index(&shard, "cat", 0, 0), Ok(vec![]));
    assert_eq!(search_index(&shard, "cat", 1, 100).unwrap().len(), 3);
}

#[test]
fn search_escapes_pattern_characters() {
    let lines = vec![line("is a.b here", 0, 1), line("is axb here", 1, 1), line("what ( now", 2, 2)];
    let shard = shard_of(lines);
    assert_eq!(search_index(&shard, "a.b", 0, 10), Ok(vec![("is a.b here".to_string(), 0, 1)]));
    assert_eq!(search_index(&shard, "(", 0, 10), Ok(vec![("what ( now".to_string(), 2, 2)]));
    assert_eq!(search_index(&shard, ".*", 0, 10), Ok(vec![]));
}

#[test]
fn search_fails_on_key_that_does_not_decode() {
    let mut bad = b"x cat y0000000g".to_vec();
    bad.extend_from_slice(b"0000000000000001");
    let shard = shard_of(vec![line("a cat b", 1, 10), bad]);
    assert_eq!(search_index(&shard, "cat", 0, 1), Ok(vec![("a cat b".to_string(), 1, 10)]));
    assert_eq!(search_index(&shard, "cat", 0, 2), Err(IndexError::Encoding));
    assert_eq!(search_index(&shard, "cat", 1, 1), Err(IndexError::Encoding));
    assert_eq!(search_index(&shard, "cat", 2, 1), Ok(vec![]));
}

#[test]
fn search_fails_on_word_too_long_for_a_pattern() {
    let shard = shard_of(vec![line("a cat b", 1, 10)]);
    let word = "x".repeat(5000);
    assert_eq!(search_index(&shard, &word, 0, 1), Err(IndexError::Query));
    assert_eq!(autocomplete_search(&shard, &word, 1), Err(IndexError::Query));
}

#[test]
fn autocomplete_gives_each_word_once() {
    let lines = vec![
        line("a catalog here", 9, 3),
        line("the catalog opened", 1, 1),
        line("the cataract fell", 0, 1),
        line("the cataract rose", 2, 1),
        line("xx concat yy", 5, 2),
    ];
    let shard = shard_of(lines);
    assert_eq!(
        autocomplete_search(&shard, "cat", 10),
        Ok(vec!["catalog".to_string(), "cataract".to_string(), "cat".to_string()])
    );
    assert_eq!(autocomplete_search(&shard, "cat", 1), Ok(vec!["catalog".to_string()]));
    assert_eq!(autocomplete_search(&shard, "cat", 0), Ok(vec![]));
    assert_eq!(autocomplete_search(&shard, "zebra", 10), Ok(vec![]));
}

#[test]
fn autocomplete_keeps_order_of_first_appearance() {
    let shard = shard_of(vec![line("the catalog opened", 1, 1), line("the cataract fell", 0, 1)]);
    let words = autocomplete_search(&shard, "cat", 10).unwrap();
    assert_eq!(words, vec!["catalog".to_string(), "cataract".to_string()]);
    let shard = shard_of(vec![
        line("the catalog opened", 1, 1),
        line("the cataract fell", 0, 1),
        line("the cataract fell again", 7, 1),
        line("the cataract of the catalog", 8, 1),
        line("this catalog", 9, 1),
    ]);
    let words = autocomplete_search(&shard, "cat", 10).unwrap();
    assert_eq!(words, vec!["catalog".to_string(), "cataract".to_string()]);
}

#[test]
fn autocomplete_word_at_end_of_sentence() {
    let shard = shard_of(vec![line("see the cataract", 0, 1)]);
    assert_eq!(autocomplete_search(&shard, "cat", 10), Ok(vec!["cataract".to_string()]));
}

#[test]
fn scan_yields_accepted_entries_in_key_order() {
    let shard = shard_of(vec![line("ab", 0, 1), line("ac", 1, 2), line("bb", 2, 3), line("bc", 3, 4)]);
    let mut stream = shard.scan_for(&['a']).unwrap();
    assert_eq!(
        read_window(&mut stream, 0, 10),
        vec![(b"ab00000000".to_vec(), 1), (b"ac00000001".to_vec(), 2)]
    );
    let mut stream = shard.scan_for(&[]).unwrap();
    assert_eq!(
        read_window(&mut stream, 1, 2),
        vec![(b"ac00000001".to_vec(), 2), (b"bb00000002".to_vec(), 3)]
    );
    assert_eq!(read_window(&mut stream, 0, 10), vec![(b"bc00000003".to_vec(), 4)]);
    assert_eq!(read_window(&mut stream, 0, 10), vec![]);
    let mut stream = shard.scan_for(&['c']).unwrap();
    assert_eq!(
        read_page(&mut stream, 1, 1),
        Ok(vec![("bc".to_string(), 3, 4)])
    );
    let mut stream = shard.scan_for(&['a', '(']).unwrap();
    assert_eq!(read_window(&mut stream, 0, 10), vec![]);
    let long: Vec<char> = "x".repeat(5000).chars().collect();
    assert!(matches!(shard.scan_for(&long), Err(IndexError::Query)));
}

#[test]
fn key_that_matches_through_its_digits_offers_nothing() {
    let shard = shard_of(vec![line("the cat0 sat", 2, 9), line("the cat", 1, 9)]);
    assert_eq!(autocomplete_search(&shard, "cat0", 10), Ok(vec!["cat0".to_string()]));
    let shard = shard_of(vec![line("the cat", 1, 9)]);
    assert_eq!(autocomplete_search(&shard, "cat0", 10), Ok(vec![]));
    assert_eq!(autocomplete_search(&shard, "0", 10), Ok(vec![]));
    let prefix: Vec<char> = "cat0".chars().collect();
    let mut found = vec![];
    assert_eq!(offer_completion(&mut found, b"the cat00000001", 9, &prefix), Ok(()));
    assert_eq!(found, Vec::<String>::new());
}

#[test]
fn completions_start_with_the_prefix() {
    let shard = shard_of(vec![
        line("a catalog of cats", 0, 1),
        line("concatenate", 1, 1),
        line("the cat", 2, 1),
        line("wildcat cat", 3, 1),
    ]);
    let words = autocomplete_search(&shard, "cat", 10).unwrap();
    assert_eq!(words, vec!["catalog".to_string(), "catenate".to_string(), "cat".to_string()]);
    for w in &words {
        assert!(w.starts_with("cat"));
        assert!(!w.contains(' '));
    }
}

#[test]
fn scan_for_literal_finds_what_holds_it() {
    let lines = vec![
        line("a.b", 0, 1),
        line("axb", 1, 2),
        line("line\nfeed a.b", 2, 3),
        line("xa.bx", 3, 4),
    ];
    let mut bad = b"\xffa.b".to_vec();
    bad.extend_from_slice(b"000000040000000000000005");
    let mut lines = lines;
    lines.push(bad);
    let shard = shard_of(lines);
    let literal: Vec<char> = "a.b".chars().collect();
    let mut stream = shard.scan_for(&literal).unwrap();
    assert_eq!(
        read_window(&mut stream, 0, 10),
        vec![(b"a.b00000000".to_vec(), 1), (b"xa.bx00000003".to_vec(), 4)]
    );
    let feed: Vec<char> = "e\nf".chars().collect();
    let mut stream = shard.scan_for(&feed).unwrap();
    assert_eq!(read_window(&mut stream, 0, 10), vec![(b"line\nfeed a.b00000002".to_vec(), 3)]);
    let nothing: Vec<char> = Vec::new();
    let mut stream = shard.scan_for(&nothing).unwrap();
    assert_eq!(read_window(&mut stream, 0, 10).len(), 3);
}

#[test]
fn page_of_entries_decodes_in_order() {
    let raw = vec![(b"one00000001".to_vec(), 10), (b"two000000ff".to_vec(), 11)];
    assert_eq!(
        decode_page(&raw),
        Ok(vec![("one".to_string(), 1, 10), ("two".to_string(), 255, 11)])
    );
    assert_eq!(decode_page(&Vec::new()), Ok(vec![]));
    let raw = vec![(b"one00000001".to_vec(), 10), (b"two".to_vec(), 11)];
    assert_eq!(decode_page(&raw), Err(IndexError::Encoding));
}

#[test]
fn completion_is_offered_once() {
    let prefix: Vec<char> = "cat".chars().collect();
    let mut found = vec!["catalog".to_string()];
    assert_eq!(offer_completion(&mut found, b"the cataract fell00000000", 1, &prefix), Ok(()));
    assert_eq!(found, vec!["catalog".to_string(), "cataract".to_string()]);
    assert_eq!(offer_completion(&mut found, b"a catalog00000001", 1, &prefix), Ok(()));
    assert_eq!(found, vec!["catalog".to_string(), "cataract".to_string()]);
    assert_eq!(offer_completion(&mut found, b"a cat0000000z", 1, &prefix), Err(IndexError::Encoding));
    assert_eq!(found, vec!["catalog".to_string(), "cataract".to_string()]);
    assert!(contains_word(&found, &"cataract".to_string()));
    assert!(!contains_word(&found, &"cat".to_string()));
}

#[test]
fn completions_go_on_from_words_held() {
    let shard = shard_of(vec![line("a cat", 0, 1), line("a catalog", 1, 1), line("a cataract", 2, 1)]);
    let held = vec!["catalog".to_string()];
    assert_eq!(
        autocomplete_more(&shard, "cat", 3, held.clone()),
        Ok(vec!["catalog".to_string(), "cat".to_string(), "cataract".to_string()])
    );
    assert_eq!(
        autocomplete_more(&shard, "cat", 2, held.clone()),
        Ok(vec!["catalog".to_string(), "cat".to_string()])
    );
    assert_eq!(autocomplete_more(&shard, "cat", 1, held.clone()), Ok(held.clone()));
    assert_eq!(autocomplete_more(&shard, "cat", 0, held.clone()), Ok(held));
}

#[test]
fn sentences_may_hold_any_text() {
    let shard = shard_of(vec![line("el niño come", 0, 1), line("日本語 の 文", 1, 2)]);
    assert_eq!(search_index(&shard, "niño", 0, 5), Ok(vec![("el niño come".to_string(), 0, 1)]));
    assert_eq!(search_index(&shard, "の", 0, 5), Ok(vec![("日本語 の 文".to_string(), 1, 2)]));
    assert_eq!(autocomplete_search(&shard, "ni", 5), Ok(vec!["niño".to_string()]));
}

#[test]
fn completions_are_the_first_distinct_candidates() {
    let sentences = [
        "a cat and a catalog",
        "b catalog",
        "c cataract cat",
        "d dog",
        "e concat",
        "f cataract",
        "g cats",
    ];
    let lines: Vec<Vec<u8>> =
        sentences.iter().enumerate().map(|(i, s)| line(s, i as u32, 1)).collect();
    let shard = shard_of(lines);
    let candidates: Vec<String> =
        sentences.iter().filter_map(|s| completion_word(s, "cat")).collect();
    assert_eq!(candidates, vec!["cat", "catalog", "cataract", "cat", "cataract", "cats"]);
    let mut distinct: Vec<String> = Vec::new();
    for c in &candidates {
        if !distinct.contains(c) {
            distinct.push(c.clone());
        }
    }
    for limit in 0..6 {
        let expected: Vec<String> = distinct.iter().take(limit).cloned().collect();
        assert_eq!(autocomplete_search(&shard, "cat", limit), Ok(expected));
    }
    let words = autocomplete_search(&shard, "cat", 10).unwrap();
    for i in 0..words.len() {
        for j in i + 1..words.len() {
            let first_i = candidates.iter().position(|c| *c == words[i]).unwrap();
            let first_j = candidates.iter().position(|c| *c == words[j]).unwrap();
            assert!(first_i < first_j);
        }
    }
}
