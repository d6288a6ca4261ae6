use linked_words::error::IndexError;
use linked_words::index::{build_shard, Language, Shard};
use linked_words::registry::{open_all, ConcordanceIndex};
use linked_words::results::{
    make_lang_selects, present, present_match, search_page, OffsetLimit, SearchResultWord,
};

fn line(sentence: &str, position: u32, document: u64) -> Vec<u8> {
    format!("{}{:08x}{:016x}", sentence, position, document).into_bytes()
}

fn shard_of(sentences: &[&str], document: u64) -> Shard {
    let mut lines: Vec<Vec<u8>> =
        sentences.iter().enumerate().map(|(i, s)| line(s, i as u32, document)).collect();
    lines.sort();
    build_shard(&lines).unwrap()
}

fn language(code: &str, english: &str, native: &str) -> Language {
    Language { code: code.to_string(), english: english.to_string(), native: native.to_string() }
}

fn catalog() -> Vec<Language> {
    vec![
        language("en", "English", "English"),
        language("de", "German", "Deutsch"),
        language("ga", "Irish", "Gaeilge"),
    ]
}

fn two_shard_index() -> ConcordanceIndex {
    let first = shard_of(&["a cat b", "b cat c", "the catalog opened"], 1);
    let second = shard_of(&["c cat d", "d cat e", "the cataract fell", "the catalog closed"], 2);
    let german = shard_of(&["die katze ist da"], 3);
    open_all(&catalog(), vec![vec![first, second], vec![german]])
}

#[test]
fn unregistered_language_gives_no_match_and_no_error() {
    let index = two_shard_index();
    assert_eq!(index.search("fr", "cat", 0, 10), Ok(vec![]));
    assert_eq!(index.autocomplete("fr", "cat", 10), Ok(vec![]));
    let empty = ConcordanceIndex::new();
    assert_eq!(empty.len(), 0);
    assert_eq!(empty.search("en", "cat", 0, 10), Ok(vec![]));
    assert_eq!(empty.autocomplete("en", "cat", 10), Ok(vec![]));
}

#[test]
fn language_without_shards_gives_no_match_and_no_error() {
    let index = two_shard_index();
    assert_eq!(index.len(), 3);
    assert!(index.has_data("en"));
    assert!(index.has_data("de"));
    assert!(!index.has_data("ga"));
    assert!(!index.has_data("fr"));
    assert_eq!(index.search("ga", "cat", 0, 10), Ok(vec![]));
    assert_eq!(index.autocomplete("ga", "cat", 10), Ok(vec![]));
    let long = "x".repeat(5000);
    assert_eq!(index.search("ga", &long, 0, 10), Ok(vec![]));
    assert_eq!(index.search("de", &long, 0, 10), Err(IndexError::Query));
    assert_eq!(index.autocomplete("de", &long, 10), Err(IndexError::Query));
}

#[test]
fn each_shard_gives_its_own_page() {
    let index = two_shard_index();
    assert_eq!(
        index.search("en", "cat", 0, 1),
        Ok(vec![("a cat b".to_string(), 0, 1), ("c cat d".to_string(), 0, 2)])
    );
    assert_eq!(
        index.search("en", "cat", 1, 5),
        Ok(vec![("b cat c".to_string(), 1, 1), ("d cat e".to_string(), 1, 2)])
    );
    assert_eq!(index.search("en", "cat", 2, 5), Ok(vec![]));
    assert_eq!(index.search("de", "katze", 0, 5), Ok(vec![("die katze ist da".to_string(), 0, 3)]));
}

#[test]
fn completions_are_distinct_across_shards() {
    let index = two_shard_index();
    assert_eq!(
        index.autocomplete("en", "cat", 10),
        Ok(vec!["cat".to_string(), "catalog".to_string(), "cataract".to_string()])
    );
    assert_eq!(index.autocomplete("en", "cat", 2), Ok(vec!["cat".to_string(), "catalog".to_string()]));
    assert_eq!(index.autocomplete("en", "cata", 1), Ok(vec!["catalog".to_string()]));
    assert_eq!(index.autocomplete("en", "cat", 0), Ok(vec![]));
}

#[test]
fn later_registration_replaces_earlier() {
    let mut index = ConcordanceIndex::new();
    index.register("en", vec![shard_of(&["a cat b"], 1)]);
    index.register("de", vec![]);
    index.register("en", vec![shard_of(&["z cat y"], 2)]);
    assert_eq!(index.len(), 3);
    assert_eq!(index.search("en", "cat", 0, 5), Ok(vec![("z cat y".to_string(), 0, 2)]));
}

#[test]
fn catalog_longer_than_shard_lists() {
    let index = open_all(&catalog(), vec![vec![shard_of(&["a cat b"], 1)]]);
    assert_eq!(index.len(), 3);
    assert!(index.has_data("en"));
    assert!(!index.has_data("de"));
    let index = open_all(&catalog()[..1].to_vec(), vec![vec![], vec![shard_of(&["a cat b"], 1)]]);
    assert_eq!(index.len(), 1);
    assert!(!index.has_data("en"));
    assert!(!index.has_data("de"));
}

#[test]
fn match_is_cut_into_words() {
    let shown = present_match("the cat sat on the cat", 7, 0x1f, "cat", "en");
    let words: Vec<(&str, bool)> = shown.words.iter().map(|w| (w.word.as_str(), w.focus)).collect();
    assert_eq!(
        words,
        vec![("the", false), ("cat", true), ("sat", false), ("on", false), ("the", false), ("cat", true)]
    );
    assert_eq!(shown.line_id, "00000007");
    assert_eq!(shown.doc_id, "000000000000001f");
    assert_eq!(shown.lang, "en");
    let shown = present_match(" cats ", u32::MAX, u64::MAX, "cat", "en");
    assert_eq!(
        shown.words,
        vec![
            SearchResultWord { word: String::new(), focus: false },
            SearchResultWord { word: "cats".to_string(), focus: false },
            SearchResultWord { word: String::new(), focus: false },
        ]
    );
    assert_eq!(shown.line_id, "ffffffff");
    assert_eq!(shown.doc_id, "ffffffffffffffff");
}

#[test]
fn matches_are_presented_in_order() {
    let found = vec![("a cat b".to_string(), 1, 10), ("b cat c".to_string(), 2, 11)];
    let results = present(&found, "cat", "en");
    assert_eq!(results.query_word, "cat");
    assert_eq!(results.lang, "en");
    assert_eq!(results.matches.len(), 2);
    assert_eq!(results.matches[0], present_match("a cat b", 1, 10, "cat", "en"));
    assert_eq!(results.matches[1], present_match("b cat c", 2, 11, "cat", "en"));
}

#[test]
fn page_is_searched_with_one_match_more() {
    let sentences: Vec<String> = (0..30).map(|i| format!("s{:02} cat t", i)).collect();
    let refs: Vec<&str> = sentences.iter().map(|s| s.as_str()).collect();
    let index = open_all(&catalog(), vec![vec![shard_of(&refs, 4)]]);
    let first = search_page(&index, "en", "cat", None).unwrap();
    assert_eq!(first.matches.len(), 21);
    assert_eq!(first.matches[0].words[0].word, "s00");
    let some = search_page(&index, "en", "cat", Some(OffsetLimit { offset: 25, limit: 3 })).unwrap();
    assert_eq!(some.matches.len(), 4);
    assert_eq!(some.matches[0].words[0].word, "s25");
    let last = search_page(&index, "en", "cat", Some(OffsetLimit { offset: 28, limit: 10 })).unwrap();
    assert_eq!(last.matches.len(), 2);
    let none = search_page(&index, "fr", "cat", None).unwrap();
    assert_eq!(none.matches.len(), 0);
    assert_eq!(none.lang, "fr");
}

#[test]
fn limit_that_cannot_grow_is_refused() {
    let index = two_shard_index();
    let request = Some(OffsetLimit { offset: 0, limit: usize::MAX });
    assert_eq!(search_page(&index, "en", "cat", request), Err(IndexError::Query));
}

#[test]
fn language_without_shards_has_an_empty_page_for_every_request() {
    let index = two_shard_index();
    let long = "x".repeat(5000);
    for lang in ["fr", "ga"] {
        for request in [
            None,
            Some(OffsetLimit { offset: 0, limit: usize::MAX }),
            Some(OffsetLimit { offset: usize::MAX, limit: 0 }),
        ] {
            for word in ["cat", long.as_str()] {
                let page = search_page(&index, lang, word, request).unwrap();
                assert_eq!(page.matches.len(), 0);
                assert_eq!(page.lang, lang);
                assert_eq!(page.query_word, word);
            }
        }
    }
}

#[test]
fn selection_list_names_languages_with_data() {
    let index = two_shard_index();
    assert_eq!(
        make_lang_selects(&catalog(), &index),
        "<option value=\"en\">English (English)</option>\n<option value=\"de\">German (Deutsch)</option>\n"
    );
    assert_eq!(make_lang_selects(&catalog(), &ConcordanceIndex::new()), "");
}

#[test]
fn errors_describe_themselves() {
    assert_eq!(IndexError::Io.message(), "cannot open shard data");
    assert_eq!(IndexError::Encoding.message(), "malformed hexadecimal field or text");
    assert_eq!(IndexError::Build.message(), "cannot write or seal the index");
    assert_eq!(IndexError::Query.message(), "cannot make a match pattern from the query");
}
