//! Shards: sealed indexes opened for search, and the two queries on them.

use crate::backend::{
    compile, map_entries, map_from_bytes, matching, next_entry, open_stream, pattern_compiles,
    sealed_entries, stream_rest, MatchStream, MIN_INDEX_BYTES,
};
use crate::order::{ascending, follows, lemma_ascending_sorted, Entry};
use crate::builder::{
    corpus_entries, indexed_entries, is_sorted_corpus, lemma_sorted_corpus_is_indexed, load_file,
};
use crate::encoding::{decode_match, decoded, Match};
use crate::error::IndexError;
use crate::query::{
    build_substring_pattern, completion, completion_of, holding, holds_literal, lemma_completion,
    substring_pattern, token, token_of,
};
use crate::text::{chars_of, stands_in, string_of};
use vstd::prelude::*;

verus! {

/// An entry of the language catalog.
#[derive(Clone, Debug, PartialEq, Eq)]
pub struct Language {
    pub code: String,
    pub english: String,
    pub native: String,
}

/// The part of `items` that a request for `limit` items after the first
/// `offset` gets.
pub open spec fn window<T>(items: Seq<T>, offset: nat, limit: nat) -> Seq<T> {
    if offset >= items.len() {
        Seq::empty()
    } else if offset + limit >= items.len() {
        items.skip(offset as int)
    } else {
        items.subrange(offset as int, (offset + limit) as int)
    }
}

/// Whether every entry decodes to a match.
pub open spec fn all_decodable(entries: Seq<Entry>) -> bool {
    forall|i: int| 0 <= i < entries.len() ==> decoded(#[trigger] entries[i].0, entries[i].1) is Some
}

/// The matches that the entries decode to, in their order.
pub open spec fn decode_all(entries: Seq<Entry>) -> Seq<Match> {
    entries.map_values(|e: Entry| decoded(e.0, e.1)->0)
}

/// The matches of the entries of one page: an entry that does not decode
/// fails the page.
pub open spec fn decoded_page(shown: Seq<Entry>) -> Result<Seq<Match>, IndexError> {
    if all_decodable(shown) {
        Ok(decode_all(shown))
    } else {
        Err(IndexError::Encoding)
    }
}

/// One page of matches out of `entries`, which come in key order: the
/// first `offset` are passed over, the next `limit` are decoded.
pub open spec fn page(entries: Seq<Entry>, offset: nat, limit: nat) -> Result<
    Seq<Match>,
    IndexError,
> {
    decoded_page(window(entries, offset, limit))
}

/// Whether `word` can be a completion of `prefix`: it holds no space, and
/// it starts with the prefix where the prefix holds no space.
pub open spec fn is_completion_of(word: Seq<char>, prefix: Seq<char>) -> bool {
    &&& !word.contains(' ')
    &&& !prefix.contains(' ') ==> prefix.is_prefix_of(word)
}

/// The sentence of an entry that decodes.
pub open spec fn sentence_of(entry: Entry) -> Seq<char> {
    let m = decoded(entry.0, entry.1)->0;
    m.0
}

/// Whether the entry decodes and its sentence offers `word` as a completion
/// of `prefix`.
pub open spec fn offers(entry: Entry, prefix: Seq<char>, word: Seq<char>) -> bool {
    decoded(entry.0, entry.1) matches Some(m) && completion(m.0, prefix) == Some(word)
}

/// The words `found` with `word` after them, unless it is among them.
pub open spec fn with_word(found: Seq<Seq<char>>, word: Seq<char>) -> Seq<Seq<char>> {
    if found.contains(word) {
        found
    } else {
        found.push(word)
    }
}

/// The words `found` with what a sentence offers: its word, if it offers
/// one that is not among them.
pub open spec fn with_offer(found: Seq<Seq<char>>, offer: Option<Seq<char>>) -> Seq<Seq<char>> {
    match offer {
        Some(word) => with_word(found, word),
        None => found,
    }
}

/// The completion words gathered from `entries`, which come in key order,
/// on top of the words `found` before them: each entry whose sentence holds
/// the prefix offers the word of its sentence, a word is kept the first
/// time it is seen, and the scan ends as soon as `limit` words are held. An
/// entry that is reached and does not decode fails the scan.
pub open spec fn completions(
    entries: Seq<Entry>,
    prefix: Seq<char>,
    limit: nat,
    found: Seq<Seq<char>>,
) -> Result<Seq<Seq<char>>, IndexError>
    decreases entries.len(),
{
    if found.len() >= limit || entries.len() == 0 {
        Ok(found)
    } else {
        match decoded(entries[0].0, entries[0].1) {
            None => Err(IndexError::Encoding),
            Some(m) => completions(
                entries.drop_first(),
                prefix,
                limit,
                with_offer(found, completion(m.0, prefix)),
            ),
        }
    }
}

/// The keys that a query for what holds `literal` accepts; `None` where no
/// pattern can be made for the literal.
pub open spec fn query_language(literal: Seq<char>) -> Option<Set<Seq<u8>>> {
    if pattern_compiles(substring_pattern(literal)) {
        Some(holding(literal))
    } else {
        None
    }
}

/// Whether `found` is what `expected` says: the same error, or values with
/// the same view.
pub open spec fn agrees<T: DeepView>(found: Result<T, IndexError>, expected: Result<
    T::V,
    IndexError,
>) -> bool {
    match found {
        Ok(v) => expected == Ok::<T::V, IndexError>(v.deep_view()),
        Err(e) => expected == Err::<T::V, IndexError>(e),
    }
}

/// One sealed index, opened for search.
pub struct Shard {
    map: fst::Map,
    entries: Ghost<Seq<Entry>>,
}

impl View for Shard {
    type V = Seq<Entry>;

    /// The entries of the shard, in key order.
    closed spec fn view(&self) -> Seq<Entry> {
        self.entries@
    }
}

impl Shard {
    #[verifier::type_invariant]
    spec fn inv(self) -> bool {
        map_entries(self.map) == Some(self.entries@) && ascending(self.entries@)
    }

    /// Starts a scan of the entries whose key holds `literal`, in key order.
    /// Fails where no pattern can be made for the literal.
    pub fn scan_for(&self, literal: &[char]) -> (started: Result<MatchStream<'_>, IndexError>)
        ensures
            match started {
                Ok(stream) => query_language(literal@) matches Some(language) && stream_rest(
                    stream,
                ) == matching(self@, language),
                Err(e) => e == IndexError::Query && query_language(literal@) is None,
            },
    {
        proof {
            use_type_invariant(self);
        }
        let pattern = build_substring_pattern(literal);
        match compile(pattern.as_str()) {
            Ok(regex) => Ok(open_stream(&self.map, regex)),
            Err(_) => Err(IndexError::Query),
        }
    }
}

/// Opens a sealed index. The bytes must be those that a build sealed, which
/// open, or too few to be an index at all, which is an error: nothing else
/// can be searched.
pub fn open_index(bytes: Vec<u8>) -> (opened: Result<Shard, IndexError>)
    requires
        sealed_entries(bytes@) is Some || bytes@.len() < MIN_INDEX_BYTES,
    ensures
        match opened {
            Ok(shard) => sealed_entries(bytes@) == Some(shard@) && ascending(shard@),
            Err(e) => e == IndexError::Io && sealed_entries(bytes@) is None,
        },
{
    let ghost entries = sealed_entries(bytes@)->0;
    match map_from_bytes(bytes) {
        Ok(map) => Ok(Shard { map, entries: Ghost(entries) }),
        Err(_) => Err(IndexError::Io),
    }
}

/// Reads the entries of one page off a scan: passes over `offset` entries,
/// then takes up to `limit`.
pub fn read_window(stream: &mut MatchStream<'_>, offset: usize, limit: usize) -> (raw: Vec<
    (Vec<u8>, u64),
>)
    ensures
        raw.deep_view() == window(stream_rest(*old(stream)), offset as nat, limit as nat),
{
    let ghost all = stream_rest(*stream);
    let mut raw: Vec<(Vec<u8>, u64)> = Vec::new();
    let mut skipped: usize = 0;
    while skipped < offset
        invariant
            all == stream_rest(*old(stream)),
            skipped <= offset,
            skipped <= all.len(),
            stream_rest(*stream) == all.skip(skipped as int),
            raw@.len() == 0,
        decreases offset - skipped,
    {
        match next_entry(stream) {
            None => {
                proof {
                    assert(raw.deep_view() =~= window(all, offset as nat, limit as nat));
                }
                return raw;
            },
            Some(_) => {
                proof {
                    assert(all.skip(skipped as int).drop_first() =~= all.skip(skipped + 1));
                }
            },
        }
        skipped = skipped + 1;
    }
    let mut taken: usize = 0;
    proof {
        assert(raw.deep_view() =~= all.subrange(offset as int, offset as int));
    }
    while taken < limit
        invariant
            all == stream_rest(*old(stream)),
            taken <= limit,
            offset + taken <= all.len(),
            stream_rest(*stream) == all.skip(offset + taken),
            raw.deep_view() == all.subrange(offset as int, offset + taken),
        decreases limit - taken,
    {
        let ghost seen = raw.deep_view();
        match next_entry(stream) {
            None => {
                proof {
                    assert(window(all, offset as nat, limit as nat) =~= seen);
                }
                return raw;
            },
            Some(entry) => {
                let ghost e: Entry = (entry.0@, entry.1);
                proof {
                    assert(all.skip(offset + taken).drop_first() =~= all.skip(offset + taken + 1));
                    assert(entry.0.deep_view() =~= entry.0@);
                }
                raw.push(entry);
                proof {
                    assert(raw.deep_view() =~= seen.push(e));
                    assert(seen.push(e) =~= all.subrange(offset as int, offset + taken + 1));
                }
            },
        }
        taken = taken + 1;
    }
    proof {
        assert(window(all, offset as nat, limit as nat) =~= all.subrange(
            offset as int,
            offset + taken,
        ));
    }
    raw
}

/// Decodes the entries of one page, in order.
pub fn decode_page(raw: &Vec<(Vec<u8>, u64)>) -> (found: Result<
    Vec<(String, u32, u64)>,
    IndexError,
>)
    ensures
        agrees(found, decoded_page(raw.deep_view())),
{
    let ghost shown = raw.deep_view();
    let mut results: Vec<(String, u32, u64)> = Vec::new();
    let mut i: usize = 0;
    proof {
        assert(results.deep_view() =~= decode_all(shown.take(0)));
    }
    while i < raw.len()
        invariant
            i <= raw@.len(),
            shown == raw.deep_view(),
            all_decodable(shown.take(i as int)),
            results.deep_view() == decode_all(shown.take(i as int)),
        decreases raw@.len() - i,
    {
        let ghost before = results.deep_view();
        let ghost seen = shown.take(i as int);
        let ghost more = shown.take(i + 1);
        let entry = &raw[i];
        proof {
            assert(entry.0.deep_view() =~= entry.0@);
            assert(shown[i as int] == (entry.0@, entry.1));
            assert(more =~= seen.push(shown[i as int]));
        }
        match decode_match(entry.0.as_slice(), entry.1) {
            Err(_) => {
                proof {
                    assert(decoded(shown[i as int].0, shown[i as int].1) is None);
                }
                return Err(IndexError::Encoding);
            },
            Ok(m) => {
                let ghost decoded_entry = (m.0@, m.1, m.2);
                results.push(m);
                proof {
                    assert(results.deep_view() =~= before.push(decoded_entry));
                    assert(decode_all(more) =~= decode_all(seen).push(decoded_entry));
                    assert forall|k: int| 0 <= k < more.len() implies decoded(
                        #[trigger] more[k].0,
                        more[k].1,
                    ) is Some by {
                        if k < seen.len() {
                            assert(more[k] == seen[k]);
                        }
                    }
                }
            },
        }
        i = i + 1;
    }
    proof {
        assert(shown.take(i as int) =~= shown);
    }
    Ok(results)
}

/// Reads one page of matches off a scan: passes over `offset` entries, then
/// decodes up to `limit`.
pub fn read_page(stream: &mut MatchStream<'_>, offset: usize, limit: usize) -> (found: Result<
    Vec<(String, u32, u64)>,
    IndexError,
>)
    ensures
        agrees(found, page(stream_rest(*old(stream)), offset as nat, limit as nat)),
{
    let raw = read_window(stream, offset, limit);
    decode_page(&raw)
}

/// Builds the index of a sorted corpus in memory and opens it. The shard
/// holds the entry of each well-formed line whose key sorts after the key
/// indexed before it, in ascending key order.
pub fn build_shard(lines: &Vec<Vec<u8>>) -> (built: Result<Shard, IndexError>)
    ensures
        built matches Ok(shard) && shard@ == indexed_entries(lines.deep_view()) && ascending(
            shard@,
        ),
{
    match load_file(lines) {
        Ok(sealed) => open_index(sealed.bytes),
        Err(e) => Err(e),
    }
}

/// Searches one shard for the sentences that hold `word` as a token
/// between two spaces, and returns one page of them in key order: the
/// matches after the first `offset`, at most `limit` of them.
pub fn search_index(corpus: &Shard, word: &str, offset: usize, limit: usize) -> (found: Result<
    Vec<(String, u32, u64)>,
    IndexError,
>)
    ensures
        match query_language(token_of(word@)) {
            None => found matches Err(e) && e == IndexError::Query,
            Some(language) => agrees(
                found,
                page(matching(corpus@, language), offset as nat, limit as nat),
            ),
        },
{
    let literal = token(word);
    match corpus.scan_for(literal.as_slice()) {
        Ok(mut stream) => read_page(&mut stream, offset, limit),
        Err(e) => Err(e),
    }
}

/// Tests whether `word` is among `found`.
pub fn contains_word(found: &Vec<String>, word: &String) -> (held: bool)
    ensures
        held == found.deep_view().contains(word@),
{
    let mut i: usize = 0;
    while i < found.len()
        invariant
            i <= found@.len(),
            forall|j: int| 0 <= j < i ==> found.deep_view()[j] != word@,
        decreases found@.len() - i,
    {
        if found[i] == *word {
            proof {
                assert(found.deep_view()[i as int] == word@);
            }
            return true;
        }
        i = i + 1;
    }
    false
}

/// Takes the completion word that one entry offers: decodes the entry, cuts
/// the word out of its sentence and keeps it unless it is held already. An
/// entry whose sentence lacks the prefix offers nothing.
pub fn offer_completion(found: &mut Vec<String>, key: &[u8], value: u64, prefix: &[char]) -> (taken:
    Result<(), IndexError>)
    ensures
        match taken {
            Ok(()) => decoded(key@, value) matches Some(m) && final(found).deep_view()
                == with_offer(old(found).deep_view(), completion(m.0, prefix@)),
            Err(e) => e == IndexError::Encoding && decoded(key@, value) is None && *final(found)
                == *old(found),
        },
{
    let ghost before = found.deep_view();
    match decode_match(key, value) {
        Err(e) => Err(e),
        Ok(m) => {
            let sentence = chars_of(m.0.as_str());
            match completion_of(sentence.as_slice(), prefix) {
                None => {},
                Some(cut) => {
                    proof {
                        assert(cut.deep_view() =~= cut@);
                    }
                    let word = string_of(cut.as_slice());
                    if !contains_word(found, &word) {
                        let ghost w = word@;
                        found.push(word);
                        proof {
                            assert(found.deep_view() =~= before.push(w));
                        }
                    }
                },
            }
            Ok(())
        },
    }
}

/// Gathers completion words off a scan on top of the words in `found`,
/// until `limit` words are held or the scan is exhausted.
pub fn extend_completions(
    stream: &mut MatchStream<'_>,
    prefix: &[char],
    limit: usize,
    found: Vec<String>,
) -> (gathered: Result<Vec<String>, IndexError>)
    ensures
        agrees(
            gathered,
            completions(stream_rest(*old(stream)), prefix@, limit as nat, found.deep_view()),
        ),
{
    let ghost goal = completions(
        stream_rest(*stream),
        prefix@,
        limit as nat,
        found.deep_view(),
    );
    let mut results = found;
    while results.len() < limit
        invariant
            goal == completions(stream_rest(*stream), prefix@, limit as nat, results.deep_view()),
            goal == completions(
                stream_rest(*old(stream)),
                prefix@,
                limit as nat,
                found.deep_view(),
            ),
        decreases stream_rest(*stream).len(),
    {
        match next_entry(stream) {
            None => {
                return Ok(results);
            },
            Some(entry) => {
                match offer_completion(&mut results, entry.0.as_slice(), entry.1, prefix) {
                    Err(e) => {
                        return Err(e);
                    },
                    Ok(()) => {},
                }
            },
        }
    }
    Ok(results)
}

/// Offers completions of `word` from one shard: for each sentence that
/// holds `word` anywhere, in key order, what stands from the first
/// occurrence of `word` up to the next space. Each word is given once, in
/// the order of first appearance, and at most `limit` of them.
pub fn autocomplete_search(corpus: &Shard, word: &str, limit: usize) -> (found: Result<
    Vec<String>,
    IndexError,
>)
    ensures
        match query_language(word@) {
            None => found matches Err(e) && e == IndexError::Query,
            Some(language) => agrees(
                found,
                completions(
                    matching(corpus@, language),
                    word@,
                    limit as nat,
                    Seq::<Seq<char>>::empty(),
                ),
            ),
        },
        found matches Ok(words) ==> forall|k: int|
            0 <= k < words@.len() ==> is_completion_of(#[trigger] words.deep_view()[k], word@),
{
    let nothing: Vec<String> = Vec::new();
    proof {
        assert(nothing.deep_view() =~= Seq::<Seq<char>>::empty());
    }
    let found = autocomplete_more(corpus, word, limit, nothing);
    proof {
        if found is Ok {
            let words = found->Ok_0;
            let entries = matching(corpus@, query_language(word@)->0);
            assert forall|k: int| 0 <= k < words@.len() implies is_completion_of(
                #[trigger] words.deep_view()[k],
                word@,
            ) by {
                lemma_completions_start_with_prefix(
                    entries,
                    word@,
                    limit as nat,
                    Seq::<Seq<char>>::empty(),
                    words.deep_view()[k],
                );
            }
        }
    }
    found
}

/// Gathers completions of `word` from one shard on top of the words in
/// `found`, until `limit` words are held.
pub fn autocomplete_more(corpus: &Shard, word: &str, limit: usize, found: Vec<String>) -> (gathered:
    Result<Vec<String>, IndexError>)
    ensures
        match query_language(word@) {
            None => gathered matches Err(e) && e == IndexError::Query,
            Some(language) => agrees(
                gathered,
                completions(matching(corpus@, language), word@, limit as nat, found.deep_view()),
            ),
        },
{
    let prefix = chars_of(word);
    match corpus.scan_for(prefix.as_slice()) {
        Ok(mut stream) => extend_completions(&mut stream, prefix.as_slice(), limit, found),
        Err(e) => Err(e),
    }
}

/// The entries that a query accepts come in ascending key order, as the
/// entries of the shard do.
pub proof fn lemma_matches_ascend(entries: Seq<Entry>, language: Set<Seq<u8>>)
    requires
        ascending(entries),
    ensures
        ascending(matching(entries, language)),
    decreases entries.len(),
{
    reveal(Seq::filter);
    if entries.len() > 0 {
        let accepted = |e: Entry| language.contains(e.0);
        let front = entries.drop_last();
        let last = entries.last();
        assert(ascending(front)) by {
            assert forall|i: int| 0 <= i < front.len() implies follows(
                #[trigger] front.take(i),
                front[i].0,
            ) by {
                assert(front.take(i) =~= entries.take(i));
            }
        }
        lemma_matches_ascend(front, language);
        let hits = matching(front, language);
        if language.contains(last.0) {
            let all = hits.push(last);
            assert(matching(entries, language) == all);
            assert forall|i: int| 0 <= i < all.len() implies follows(
                #[trigger] all.take(i),
                all[i].0,
            ) by {
                if i < hits.len() {
                    assert(all.take(i) =~= hits.take(i));
                } else {
                    assert(all.take(i) =~= hits);
                    if hits.len() > 0 {
                        assert(hits.contains(hits.last()));
                        front.lemma_filter_contains_rev(accepted, hits.last());
                        let k = choose|k: int| 0 <= k < front.len() && front[k] == hits.last();
                        lemma_ascending_sorted(entries, k, entries.len() - 1);
                    }
                }
            }
        }
    }
}

/// Two pages in a row as one: the matches of both, or the failure of
/// either.
pub open spec fn join_pages(
    first: Result<Seq<Match>, IndexError>,
    second: Result<Seq<Match>, IndexError>,
) -> Result<Seq<Match>, IndexError> {
    match (first, second) {
        (Ok(a), Ok(b)) => Ok(a + b),
        _ => Err(IndexError::Encoding),
    }
}

/// A page that starts at the first entry and has room for all of them holds
/// every match, in key order.
pub proof fn lemma_page_of_all(entries: Seq<Entry>, limit: nat)
    requires
        all_decodable(entries),
        limit >= entries.len(),
    ensures
        page(entries, 0, limit) == Ok::<Seq<Match>, IndexError>(decode_all(entries)),
{
    assert(window(entries, 0, limit) =~= entries);
}

/// A page holds no more than `limit` matches, and no more than there are
/// after the first `offset`.
pub proof fn lemma_page_is_bounded(entries: Seq<Entry>, offset: nat, limit: nat)
    ensures
        page(entries, offset, limit) matches Ok(found) ==> found.len() <= limit && found.len()
            <= entries.len(),
{
}

/// A page that starts at or after the end is empty and no failure.
pub proof fn lemma_page_past_end(entries: Seq<Entry>, offset: nat, limit: nat)
    requires
        offset >= entries.len(),
    ensures
        page(entries, offset, limit) == Ok::<Seq<Match>, IndexError>(Seq::empty()),
{
    assert(decode_all(Seq::<Entry>::empty()) =~= Seq::<Match>::empty());
}

/// Pages neither overlap nor leave a gap: a page of `m` followed by the
/// page of `n` after it is the page of `m + n`.
pub proof fn lemma_pages_join(entries: Seq<Entry>, offset: nat, m: nat, n: nat)
    ensures
        page(entries, offset, m + n) == join_pages(
            page(entries, offset, m),
            page(entries, offset + m, n),
        ),
{
    let first = window(entries, offset, m);
    let second = window(entries, offset + m, n);
    let both = window(entries, offset, m + n);
    assert(both =~= first + second);
    if all_decodable(first) && all_decodable(second) {
        assert forall|i: int| 0 <= i < both.len() implies decoded(
            #[trigger] both[i].0,
            both[i].1,
        ) is Some by {
            if i < first.len() {
                assert(both[i] == first[i]);
            } else {
                assert(both[i] == second[i - first.len()]);
            }
        }
        assert(decode_all(both) =~= decode_all(first) + decode_all(second));
    } else if !all_decodable(first) {
        let i = choose|i: int| 0 <= i < first.len() && !(decoded(first[i].0, first[i].1) is Some);
        assert(both[i] == first[i]);
    } else {
        let i = choose|i: int|
            0 <= i < second.len() && !(decoded(second[i].0, second[i].1) is Some);
        assert(both[i + first.len()] == second[i]);
    }
}

/// Whether the lines are well formed and sorted, and the key of each is a
/// sentence in UTF-8 followed by eight hexadecimal digits.
pub open spec fn is_proper_corpus(lines: Seq<Seq<u8>>) -> bool {
    is_sorted_corpus(lines) && all_decodable(corpus_entries(lines))
}

/// The entries that a query accepts decode where all entries do.
pub proof fn lemma_matches_decode(entries: Seq<Entry>, language: Set<Seq<u8>>)
    requires
        all_decodable(entries),
    ensures
        all_decodable(matching(entries, language)),
{
    let accepted = |e: Entry| language.contains(e.0);
    let hits = matching(entries, language);
    assert forall|j: int| 0 <= j < hits.len() implies decoded(#[trigger] hits[j].0, hits[j].1)
        is Some by {
        assert(hits.contains(hits[j]));
        entries.lemma_filter_contains_rev(accepted, hits[j]);
        let k = choose|k: int| 0 <= k < entries.len() && entries[k] == hits[j];
        assert(decoded(entries[k].0, entries[k].1) is Some);
    }
}

/// In the index of a proper corpus, a first page with room for the whole
/// corpus holds the sentence of every line whose key the query accepts.
pub proof fn lemma_indexed_sentence_is_found(
    lines: Seq<Seq<u8>>,
    i: int,
    language: Set<Seq<u8>>,
    limit: nat,
)
    requires
        is_proper_corpus(lines),
        0 <= i < lines.len(),
        language.contains(corpus_entries(lines)[i].0),
        limit >= lines.len(),
    ensures
        page(matching(indexed_entries(lines), language), 0, limit) matches Ok(found)
            && found.contains(decoded(corpus_entries(lines)[i].0, corpus_entries(lines)[i].1)->0),
{
    lemma_sorted_corpus_is_indexed(lines);
    let entries = corpus_entries(lines);
    let accepted = |e: Entry| language.contains(e.0);
    let hits = matching(entries, language);
    entries.lemma_filter_len(accepted);
    entries.lemma_filter_contains(accepted, i);
    lemma_matches_decode(entries, language);
    lemma_page_of_all(hits, limit);
    let j = choose|j: int| 0 <= j < hits.len() && hits[j] == entries[i];
    assert(decode_all(hits)[j] == decoded(entries[i].0, entries[i].1)->0);
}

/// In the index of a proper corpus, a search for `word` with room for the
/// whole corpus finds the sentence of every line whose key holds the word
/// between two spaces.
pub proof fn lemma_sentence_with_token_is_found(
    lines: Seq<Seq<u8>>,
    i: int,
    word: Seq<char>,
    limit: nat,
)
    requires
        is_proper_corpus(lines),
        0 <= i < lines.len(),
        holds_literal(corpus_entries(lines)[i].0, token_of(word)),
        limit >= lines.len(),
    ensures
        page(matching(indexed_entries(lines), holding(token_of(word))), 0, limit) matches Ok(found)
            && found.contains(decoded(corpus_entries(lines)[i].0, corpus_entries(lines)[i].1)->0),
{
    lemma_indexed_sentence_is_found(lines, i, holding(token_of(word)), limit);
}

/// Completion words stay distinct.
pub proof fn lemma_completions_distinct(
    entries: Seq<Entry>,
    prefix: Seq<char>,
    limit: nat,
    found: Seq<Seq<char>>,
)
    requires
        found.no_duplicates(),
    ensures
        completions(entries, prefix, limit, found) matches Ok(words) ==> words.no_duplicates(),
    decreases entries.len(),
{
    if found.len() < limit && entries.len() > 0 {
        if let Some(m) = decoded(entries[0].0, entries[0].1) {
            let held = with_offer(found, completion(m.0, prefix));
            lemma_completions_distinct(entries.drop_first(), prefix, limit, held);
        }
    }
}

/// Each completion word was held before or is the word that an entry
/// offers.
pub proof fn lemma_completions_are_offered(
    entries: Seq<Entry>,
    prefix: Seq<char>,
    limit: nat,
    found: Seq<Seq<char>>,
    word: Seq<char>,
)
    requires
        completions(entries, prefix, limit, found) matches Ok(words) && words.contains(word),
    ensures
        found.contains(word) || exists|j: int|
            0 <= j < entries.len() && #[trigger] offers(entries[j], prefix, word),
    decreases entries.len(),
{
    if found.len() < limit && entries.len() > 0 {
        let m = decoded(entries[0].0, entries[0].1)->0;
        let held = with_offer(found, completion(m.0, prefix));
        let rest = entries.drop_first();
        lemma_completions_are_offered(rest, prefix, limit, held, word);
        if held.contains(word) {
            if !found.contains(word) {
                let k = choose|k: int| 0 <= k < held.len() && held[k] == word;
                if k < found.len() {
                    assert(found[k] == word);
                }
                assert(offers(entries[0], prefix, word));
            }
        } else {
            let j = choose|j: int| 0 <= j < rest.len() && offers(rest[j], prefix, word);
            assert(rest[j] == entries[j + 1]);
            assert(offers(entries[j + 1], prefix, word));
        }
    }
}

/// Each completion word that was not held before holds no space and stands
/// in the sentence of an entry; it starts with the prefix where the prefix
/// holds no space.
pub proof fn lemma_completions_start_with_prefix(
    entries: Seq<Entry>,
    prefix: Seq<char>,
    limit: nat,
    found: Seq<Seq<char>>,
    word: Seq<char>,
)
    requires
        completions(entries, prefix, limit, found) matches Ok(words) && words.contains(word),
        !found.contains(word),
    ensures
        !word.contains(' '),
        !prefix.contains(' ') ==> prefix.is_prefix_of(word),
        exists|j: int|
            0 <= j < entries.len() && #[trigger] offers(entries[j], prefix, word) && stands_in(
                sentence_of(entries[j]),
                word,
            ),
{
    lemma_completions_are_offered(entries, prefix, limit, found, word);
    let j = choose|j: int| 0 <= j < entries.len() && offers(entries[j], prefix, word);
    lemma_completion(sentence_of(entries[j]), prefix);
    assert(offers(entries[j], prefix, word) && stands_in(sentence_of(entries[j]), word));
}

/// Where fewer than `limit` words were gathered, the scan reached the end:
/// the word that any entry offers is among them.
pub proof fn lemma_completions_are_complete(
    entries: Seq<Entry>,
    prefix: Seq<char>,
    limit: nat,
    found: Seq<Seq<char>>,
    j: int,
    word: Seq<char>,
)
    requires
        0 <= j < entries.len(),
        completions(entries, prefix, limit, found) matches Ok(words) && words.len() < limit,
        offers(entries[j], prefix, word),
    ensures
        completions(entries, prefix, limit, found)->Ok_0.contains(word),
    decreases entries.len(),
{
    let words = completions(entries, prefix, limit, found)->Ok_0;
    assert(found.len() < limit) by {
        if found.len() >= limit {
            assert(words == found);
        }
    }
    let m = decoded(entries[0].0, entries[0].1)->0;
    let rest = entries.drop_first();
    let held = with_offer(found, completion(m.0, prefix));
    if j == 0 {
        if held.len() <= limit {
            lemma_completions_bounded(rest, prefix, limit, held);
            assert(held.contains(word)) by {
                if !found.contains(word) {
                    assert(held[held.len() - 1] == word);
                }
            }
            let k = choose|k: int| 0 <= k < held.len() && held[k] == word;
            assert(words[k] == word);
        }
    } else {
        assert(rest[j - 1] == entries[j]);
        lemma_completions_are_complete(rest, prefix, limit, held, j - 1, word);
    }
}

/// No more than `limit` completion words are gathered, and the words held
/// before come first, in their order.
pub proof fn lemma_completions_bounded(
    entries: Seq<Entry>,
    prefix: Seq<char>,
    limit: nat,
    found: Seq<Seq<char>>,
)
    requires
        found.len() <= limit,
    ensures
        completions(entries, prefix, limit, found) matches Ok(words) ==> words.len() <= limit
            && found.is_prefix_of(words),
    decreases entries.len(),
{
    if found.len() < limit && entries.len() > 0 {
        if let Some(m) = decoded(entries[0].0, entries[0].1) {
            let held = with_offer(found, completion(m.0, prefix));
            lemma_completions_bounded(entries.drop_first(), prefix, limit, held);
            if let Ok(words) = completions(entries, prefix, limit, found) {
                assert(found =~= held.subrange(0, found.len() as int));
                assert(found =~= words.subrange(0, found.len() as int));
            }
        }
    } else {
        assert(found =~= found.subrange(0, found.len() as int));
    }
}

/// The candidates of the entries, in their order: the word that each
/// sentence offers, for the sentences that offer one.
pub open spec fn candidates(entries: Seq<Entry>, prefix: Seq<char>) -> Seq<Seq<char>>
    decreases entries.len(),
{
    if entries.len() == 0 {
        Seq::empty()
    } else {
        let first = match completion(sentence_of(entries[0]), prefix) {
            Some(word) => seq![word],
            None => Seq::empty(),
        };
        first + candidates(entries.drop_first(), prefix)
    }
}

/// The words `found` and after them the words of `words`, each taken where
/// it is seen first and only there.
pub open spec fn gathered(found: Seq<Seq<char>>, words: Seq<Seq<char>>) -> Seq<Seq<char>>
    decreases words.len(),
{
    if words.len() == 0 {
        found
    } else {
        gathered(with_word(found, words[0]), words.drop_first())
    }
}

/// The first `n` of the items, or all of them where they are fewer.
pub open spec fn first_of<T>(items: Seq<T>, n: nat) -> Seq<T> {
    if items.len() <= n {
        items
    } else {
        items.take(n as int)
    }
}

/// The index at which `word` is seen first among `words`; their number
/// where it is not among them.
pub open spec fn first_seen(words: Seq<Seq<char>>, word: Seq<char>) -> int
    decreases words.len(),
{
    if words.len() == 0 {
        0
    } else if words[0] == word {
        0
    } else {
        1 + first_seen(words.drop_first(), word)
    }
}

/// A word is seen first at an index where it stands, if it is among the
/// words at all.
pub proof fn lemma_first_seen(words: Seq<Seq<char>>, word: Seq<char>)
    ensures
        0 <= first_seen(words, word) <= words.len(),
        words.contains(word) <==> first_seen(words, word) < words.len(),
        first_seen(words, word) < words.len() ==> words[first_seen(words, word)] == word,
        forall|k: int| 0 <= k < first_seen(words, word) ==> words[k] != word,
    decreases words.len(),
{
    if words.len() > 0 {
        let rest = words.drop_first();
        lemma_first_seen(rest, word);
        if words[0] != word {
            if words.contains(word) {
                let k = choose|k: int| 0 <= k < words.len() && words[k] == word;
                assert(rest[k - 1] == word);
            }
            if first_seen(rest, word) < rest.len() {
                assert(words[first_seen(rest, word) + 1] == word);
            }
            assert forall|k: int| 0 <= k < first_seen(words, word) implies words[k] != word by {
                if k > 0 {
                    assert(words[k] == rest[k - 1]);
                }
            }
        }
    }
}

/// What is gathered starts with the words held before. Each word after
/// them is new, is among the words gathered from, and stands in the order
/// in which the words are seen first; no word stands twice.
pub proof fn lemma_gathered(found: Seq<Seq<char>>, words: Seq<Seq<char>>)
    ensures
        found.is_prefix_of(gathered(found, words)),
        forall|i: int|
            found.len() <= i < gathered(found, words).len() ==> !found.contains(
                #[trigger] gathered(found, words)[i],
            ) && words.contains(gathered(found, words)[i]),
        forall|i: int, j: int|
            found.len() <= i < j < gathered(found, words).len() ==> first_seen(
                words,
                #[trigger] gathered(found, words)[i],
            ) < first_seen(words, #[trigger] gathered(found, words)[j]),
        found.no_duplicates() ==> gathered(found, words).no_duplicates(),
    decreases words.len(),
{
    let all = gathered(found, words);
    if words.len() == 0 {
        assert(found =~= all.subrange(0, found.len() as int));
    } else {
        let held = with_word(found, words[0]);
        let rest = words.drop_first();
        lemma_gathered(held, rest);
        assert(found =~= held.subrange(0, found.len() as int));
        assert(found =~= all.subrange(0, found.len() as int));
        assert forall|i: int| found.len() <= i < all.len() implies !found.contains(
            #[trigger] all[i],
        ) && words.contains(all[i]) by {
            if i < held.len() {
                assert(all[i] == held[i]);
                assert(words[0] == all[i]);
            } else {
                if found.contains(all[i]) {
                    let k = choose|k: int| 0 <= k < found.len() && found[k] == all[i];
                    assert(held[k] == all[i]);
                }
                let k = choose|k: int| 0 <= k < rest.len() && rest[k] == all[i];
                assert(words[k + 1] == all[i]);
            }
        }
        assert forall|i: int, j: int| found.len() <= i < j < all.len() implies first_seen(
            words,
            #[trigger] all[i],
        ) < first_seen(words, #[trigger] all[j]) by {
            lemma_first_seen(rest, all[j]);
            assert(!held.contains(all[j]));
            assert(words[0] != all[j]) by {
                if words[0] == all[j] {
                    if found.contains(words[0]) {
                        assert(held.contains(all[j]));
                    } else {
                        assert(held[held.len() - 1] == all[j]);
                    }
                }
            }
            if i < held.len() {
                assert(all[i] == held[i]);
                assert(words[0] == all[i]);
            } else {
                assert(!held.contains(all[i]));
                assert(words[0] != all[i]) by {
                    if words[0] == all[i] {
                        if found.contains(words[0]) {
                            assert(held.contains(all[i]));
                        } else {
                            assert(held[held.len() - 1] == all[i]);
                        }
                    }
                }
            }
        }
        if found.no_duplicates() {
            assert(held.no_duplicates());
        }
    }
}

/// Where every entry decodes, the completion words are the first `limit`
/// of the candidates, each taken where it is seen first and only there.
pub proof fn lemma_completions_are_first_candidates(
    entries: Seq<Entry>,
    prefix: Seq<char>,
    limit: nat,
    found: Seq<Seq<char>>,
)
    requires
        all_decodable(entries),
        found.len() <= limit,
    ensures
        completions(entries, prefix, limit, found) == Ok::<Seq<Seq<char>>, IndexError>(
            first_of(gathered(found, candidates(entries, prefix)), limit),
        ),
    decreases entries.len(),
{
    let offered = candidates(entries, prefix);
    let all = gathered(found, offered);
    lemma_gathered(found, offered);
    if found.len() >= limit {
        assert(first_of(all, limit) =~= found);
    } else if entries.len() > 0 {
        let rest = entries.drop_first();
        assert(decoded(entries[0].0, entries[0].1) is Some);
        let offer = completion(sentence_of(entries[0]), prefix);
        let held = with_offer(found, offer);
        assert(all_decodable(rest)) by {
            assert forall|i: int| 0 <= i < rest.len() implies decoded(
                #[trigger] rest[i].0,
                rest[i].1,
            ) is Some by {
                assert(rest[i] == entries[i + 1]);
            }
        }
        lemma_completions_are_first_candidates(rest, prefix, limit, held);
        match offer {
            Some(word) => {
                assert(offered.drop_first() =~= candidates(rest, prefix));
                assert(offered[0] == word);
            },
            None => {
                assert(offered =~= candidates(rest, prefix));
            },
        }
    }
}

/// The completion words of a shard whose entries decode stand in the order
/// in which they are seen first among the candidates: of two of them, the one
/// that stands first is seen first.
pub proof fn lemma_completions_keep_first_seen_order(
    entries: Seq<Entry>,
    prefix: Seq<char>,
    limit: nat,
    i: int,
    j: int,
)
    requires
        all_decodable(entries),
        completions(entries, prefix, limit, Seq::empty()) matches Ok(words) && 0 <= i < j
            < words.len(),
    ensures
        ({
            let words = completions(entries, prefix, limit, Seq::empty())->Ok_0;
            let offered = candidates(entries, prefix);
            &&& first_seen(offered, words[i]) < first_seen(offered, words[j])
            &&& first_seen(offered, words[j]) < offered.len()
        }),
{
    let offered = candidates(entries, prefix);
    let all = gathered(Seq::empty(), offered);
    lemma_completions_are_first_candidates(entries, prefix, limit, Seq::empty());
    lemma_gathered(Seq::empty(), offered);
    let words = first_of(all, limit);
    assert(words[i] == all[i]);
    assert(words[j] == all[j]);
    lemma_first_seen(offered, all[j]);
}

} // verus!
