//! Search results in the shape that a page shows: each sentence cut into
//! words, the queried word marked, and the identifiers written in
//! hexadecimal. Positions take eight digits and documents sixteen, both
//! lowercase and zero-padded.

use crate::encoding::Match;
use crate::error::IndexError;
use crate::hex::{hex_digits, push_hex};
use crate::index::{query_language, Language};
use crate::query::token_of;
use crate::order::Entry;
use crate::registry::{search_all, shards_for, ConcordanceIndex, Listing};
use crate::text::{chars_of, matches_at, split_at_spaces, split_words, string_of};
use vstd::prelude::*;

verus! {

/// The number of matches on a page when the request names none.
pub const PAGE_SIZE: usize = 20;

/// One word of a sentence; `focus` marks the queried word.
#[derive(Clone, Debug, PartialEq, Eq)]
pub struct SearchResultWord {
    pub word: String,
    pub focus: bool,
}

/// One matching sentence.
#[derive(Clone, Debug, PartialEq, Eq)]
pub struct SearchResultSentence {
    pub words: Vec<SearchResultWord>,
    pub line_id: String,
    pub doc_id: String,
    pub lang: String,
}

/// The matches of one query.
#[derive(Clone, Debug, PartialEq, Eq)]
pub struct SearchResults {
    pub query_word: String,
    pub matches: Vec<SearchResultSentence>,
    pub lang: String,
}

/// The part of the matches that a request asks for.
#[derive(Clone, Copy, Debug, PartialEq, Eq)]
pub struct OffsetLimit {
    pub offset: usize,
    pub limit: usize,
}

/// The words of `sentence`, each with whether it is `word`.
pub open spec fn marked_words(sentence: Seq<char>, word: Seq<char>) -> Seq<(Seq<char>, bool)> {
    split_words(sentence).map_values(|w: Seq<char>| (w, w == word))
}

/// The text and the mark of each word.
pub open spec fn word_views(words: Seq<SearchResultWord>) -> Seq<(Seq<char>, bool)> {
    words.map_values(|w: SearchResultWord| (w.word@, w.focus))
}

/// Whether `shown` is the match `m` of a query for `word` in `lang`.
pub open spec fn shows(shown: SearchResultSentence, m: Match, word: Seq<char>, lang: Seq<char>) -> bool {
    &&& word_views(shown.words@) == marked_words(m.0, word)
    &&& shown.line_id@ == hex_digits(m.1 as nat, 8)
    &&& shown.doc_id@ == hex_digits(m.2 as nat, 16)
    &&& shown.lang@ == lang
}

/// Whether `results` are the matches `found` of a query for `word` in
/// `lang`, in the same order.
pub open spec fn presents(results: SearchResults, found: Seq<Match>, word: Seq<char>, lang: Seq<char>) -> bool {
    &&& results.query_word@ == word
    &&& results.lang@ == lang
    &&& results.matches@.len() == found.len()
    &&& forall|i: int|
        0 <= i < found.len() ==> shows(#[trigger] results.matches@[i], found[i], word, lang)
}

/// The offset and the limit to search with: a request is searched with one
/// match more than it asks for, so that the page can tell whether more
/// follow; without a request the first page is searched. `None` where the
/// limit cannot be raised by one.
pub open spec fn requested_window(request: Option<OffsetLimit>) -> Option<(nat, nat)> {
    match request {
        None => Some((0nat, (PAGE_SIZE + 1) as nat)),
        Some(r) => if r.limit < usize::MAX {
            Some((r.offset as nat, (r.limit + 1) as nat))
        } else {
            None
        },
    }
}

/// Writes `value` in `width` lowercase hexadecimal digits.
pub fn to_hex(value: u64, width: usize) -> (text: String)
    ensures
        text@ == hex_digits(value as nat, width as nat),
{
    let mut digits: Vec<char> = Vec::new();
    push_hex(&mut digits, value, width);
    proof {
        assert(digits@ =~= hex_digits(value as nat, width as nat));
    }
    string_of(digits.as_slice())
}

/// Tests whether two character sequences are equal.
pub fn same_chars(a: &[char], b: &[char]) -> (same: bool)
    ensures
        same == (a@ == b@),
{
    if a.len() != b.len() {
        return false;
    }
    let same = matches_at(a, b, 0);
    proof {
        assert(a@.subrange(0, a@.len() as int) =~= a@);
    }
    same
}

/// Shapes one match for a page.
pub fn present_match(sentence: &str, position: u32, document: u64, word: &str, lang: &str) -> (shown:
    SearchResultSentence)
    ensures
        shows(shown, (sentence@, position, document), word@, lang@),
{
    let wanted = chars_of(word);
    let text = chars_of(sentence);
    let pieces = split_at_spaces(text.as_slice());
    let mut words: Vec<SearchResultWord> = Vec::new();
    let mut i: usize = 0;
    while i < pieces.len()
        invariant
            i <= pieces@.len(),
            wanted@ == word@,
            pieces.deep_view() == split_words(sentence@),
            word_views(words@) == marked_words(sentence@, word@).take(i as int),
        decreases pieces@.len() - i,
    {
        let ghost before = word_views(words@);
        let piece = &pieces[i];
        proof {
            assert(piece.deep_view() =~= piece@);
            assert(pieces.deep_view()[i as int] == piece.deep_view());
        }
        let focus = same_chars(piece.as_slice(), wanted.as_slice());
        words.push(SearchResultWord { word: string_of(piece.as_slice()), focus });
        proof {
            assert(word_views(words@) =~= before.push((piece@, focus)));
            assert(marked_words(sentence@, word@).take(i + 1) =~= marked_words(
                sentence@,
                word@,
            ).take(i as int).push((piece@, focus)));
        }
        i = i + 1;
    }
    proof {
        assert(marked_words(sentence@, word@).take(i as int) =~= marked_words(sentence@, word@));
    }
    SearchResultSentence {
        words,
        line_id: to_hex(position as u64, 8),
        doc_id: to_hex(document, 16),
        lang: lang.to_owned(),
    }
}

/// Shapes the matches of a query for a page.
pub fn present(found: &Vec<(String, u32, u64)>, word: &str, lang: &str) -> (results: SearchResults)
    ensures
        presents(results, found.deep_view(), word@, lang@),
{
    let mut matches: Vec<SearchResultSentence> = Vec::new();
    let mut i: usize = 0;
    while i < found.len()
        invariant
            i <= found@.len(),
            matches@.len() == i,
            forall|k: int|
                0 <= k < i ==> shows(#[trigger] matches@[k], found.deep_view()[k], word@, lang@),
        decreases found@.len() - i,
    {
        let m = &found[i];
        let shown = present_match(m.0.as_str(), m.1, m.2, word, lang);
        proof {
            assert(found.deep_view()[i as int] == (m.0@, m.1, m.2));
        }
        matches.push(shown);
        i = i + 1;
    }
    SearchResults { query_word: word.to_owned(), matches, lang: lang.to_owned() }
}

/// The answer to a request for a page of the sentences of a language that
/// hold `word` as a token. A language without shards has no match and no
/// failure, whatever the request. Of a language with shards, a request
/// whose limit cannot be raised by one fails, and so does a search that
/// fails.
pub open spec fn page_answer(
    shards: Seq<Seq<Entry>>,
    word: Seq<char>,
    request: Option<OffsetLimit>,
) -> Result<Seq<Match>, IndexError> {
    if shards.len() == 0 {
        Ok(Seq::empty())
    } else {
        match requested_window(request) {
            None => Err(IndexError::Query),
            Some(w) => search_all(shards, query_language(token_of(word)), w.0, w.1),
        }
    }
}

/// Answers a request for a page of the sentences of `lang` that hold `word`
/// as a token.
pub fn search_page(index: &ConcordanceIndex, lang: &str, word: &str, request: Option<OffsetLimit>) -> (answer:
    Result<SearchResults, IndexError>)
    ensures
        match page_answer(shards_for(index@, lang@), word@, request) {
            Err(failure) => answer matches Err(e) && e == failure,
            Ok(found) => answer matches Ok(results) && presents(results, found, word@, lang@),
        },
{
    if !index.has_data(lang) {
        let nothing: Vec<(String, u32, u64)> = Vec::new();
        proof {
            assert(nothing.deep_view() =~= Seq::<Match>::empty());
        }
        return Ok(present(&nothing, word, lang));
    }
    let (offset, limit): (usize, usize) = match request {
        None => (0, PAGE_SIZE + 1),
        Some(r) => {
            if r.limit == usize::MAX {
                return Err(IndexError::Query);
            }
            (r.offset, r.limit + 1)
        },
    };
    match index.search(lang, word, offset, limit) {
        Ok(found) => Ok(present(&found, word, lang)),
        Err(e) => Err(e),
    }
}

/// What opens the entry of a language in a selection list: `<option value="`.
pub open spec fn option_open() -> Seq<char> {
    seq!['<', 'o', 'p', 't', 'i', 'o', 'n', ' ', 'v', 'a', 'l', 'u', 'e', '=', '"']
}

/// What closes it, with the end of the line: `)</option>`.
pub open spec fn option_close() -> Seq<char> {
    seq![')', '<', '/', 'o', 'p', 't', 'i', 'o', 'n', '>', '\n']
}

/// The entry of one language: its code as the value, its English name and,
/// in brackets, its native name.
pub open spec fn option_line(code: Seq<char>, english: Seq<char>, native: Seq<char>) -> Seq<char> {
    option_open() + code + seq!['"', '>'] + english + seq![' ', '('] + native + option_close()
}

/// The selection list of the languages that have data, in catalog order.
pub open spec fn language_options(languages: Seq<Language>, listing: Listing) -> Seq<char>
    decreases languages.len(),
{
    if languages.len() == 0 {
        Seq::empty()
    } else {
        let before = language_options(languages.drop_last(), listing);
        let last = languages.last();
        if shards_for(listing, last.code@).len() > 0 {
            before + option_line(last.code@, last.english@, last.native@)
        } else {
            before
        }
    }
}

/// Appends each character of `text` to `out`.
fn push_all(out: &mut Vec<char>, text: &[char])
    ensures
        final(out)@ == old(out)@ + text@,
{
    let ghost start = out@;
    let mut i: usize = 0;
    while i < text.len()
        invariant
            i <= text@.len(),
            out@ == start + text@.take(i as int),
        decreases text@.len() - i,
    {
        out.push(text[i]);
        proof {
            assert(out@ =~= start + text@.take(i + 1));
        }
        i = i + 1;
    }
    proof {
        assert(text@.take(i as int) =~= text@);
    }
}

/// Writes the selection list of the languages that have data.
pub fn make_lang_selects(languages: &Vec<Language>, corpora: &ConcordanceIndex) -> (selects: String)
    ensures
        selects@ == language_options(languages@, corpora@),
{
    let open: [char; 15] = ['<', 'o', 'p', 't', 'i', 'o', 'n', ' ', 'v', 'a', 'l', 'u', 'e', '=', '"'];
    let close: [char; 11] = [')', '<', '/', 'o', 'p', 't', 'i', 'o', 'n', '>', '\n'];
    proof {
        assert(open@ =~= option_open());
        assert(close@ =~= option_close());
    }
    let mut out: Vec<char> = Vec::new();
    let mut i: usize = 0;
    while i < languages.len()
        invariant
            i <= languages@.len(),
            open@ == option_open(),
            close@ == option_close(),
            out@ == language_options(languages@.take(i as int), corpora@),
        decreases languages@.len() - i,
    {
        let language = &languages[i];
        proof {
            assert(languages@.take(i + 1).drop_last() =~= languages@.take(i as int));
            assert(languages@.take(i + 1).last() == languages@[i as int]);
        }
        if corpora.has_data(language.code.as_str()) {
            let ghost before = out@;
            let code = chars_of(language.code.as_str());
            let english = chars_of(language.english.as_str());
            let native = chars_of(language.native.as_str());
            push_all(&mut out, open.as_slice());
            push_all(&mut out, code.as_slice());
            out.push('"');
            out.push('>');
            push_all(&mut out, english.as_slice());
            out.push(' ');
            out.push('(');
            push_all(&mut out, native.as_slice());
            push_all(&mut out, close.as_slice());
            proof {
                assert(out@ =~= before + option_line(
                    language.code@,
                    language.english@,
                    language.native@,
                ));
            }
        }
        i = i + 1;
    }
    proof {
        assert(languages@.take(i as int) =~= languages@);
    }
    string_of(out.as_slice())
}

} // verus!
