//! The registry of shards by language, and the two queries on a language.

use crate::backend::matching;
use crate::encoding::Match;
use crate::error::IndexError;
use crate::index::{
    agrees, autocomplete_more, completions, is_completion_of, lemma_completions_bounded,
    lemma_completions_distinct, lemma_completions_start_with_prefix, page, query_language,
    search_index, Language, Shard,
};
use crate::order::Entry;
use crate::query::token_of;
use vstd::prelude::*;

verus! {

/// The languages of a registry in the order of registration, each with its
/// code and the entries of its shards.
pub type Listing = Seq<(Seq<char>, Seq<Seq<Entry>>)>;

/// The shards that a query on `code` reads: those of the language
/// registered last under that code, and none where there is no such
/// language.
pub open spec fn shards_for(listing: Listing, code: Seq<char>) -> Seq<Seq<Entry>>
    decreases listing.len(),
{
    if listing.len() == 0 {
        Seq::empty()
    } else if listing.last().0 == code {
        listing.last().1
    } else {
        shards_for(listing.drop_last(), code)
    }
}

/// The pages of the shards, one after the other in shard order: offset and
/// limit apply to each shard on its own. With shards to read, a query whose
/// pattern does not compile fails; so does a page that fails.
pub open spec fn search_all(
    shards: Seq<Seq<Entry>>,
    language: Option<Set<Seq<u8>>>,
    offset: nat,
    limit: nat,
) -> Result<Seq<Match>, IndexError>
    decreases shards.len(),
{
    if shards.len() == 0 {
        Ok(Seq::empty())
    } else {
        match language {
            None => Err(IndexError::Query),
            Some(accepted) => match search_all(shards.drop_last(), language, offset, limit) {
                Err(e) => Err(e),
                Ok(before) => match page(matching(shards.last(), accepted), offset, limit) {
                    Err(e) => Err(e),
                    Ok(shown) => Ok(before + shown),
                },
            },
        }
    }
}

/// The completion words gathered from the shards in shard order, on top of
/// `found`: a word is kept the first time it is seen in any shard, and no
/// more than `limit` words are held.
pub open spec fn complete_all(
    shards: Seq<Seq<Entry>>,
    language: Option<Set<Seq<u8>>>,
    prefix: Seq<char>,
    limit: nat,
    found: Seq<Seq<char>>,
) -> Result<Seq<Seq<char>>, IndexError>
    decreases shards.len(),
{
    if shards.len() == 0 {
        Ok(found)
    } else {
        match language {
            None => Err(IndexError::Query),
            Some(accepted) => match completions(
                matching(shards[0], accepted),
                prefix,
                limit,
                found,
            ) {
                Err(e) => Err(e),
                Ok(more) => complete_all(shards.drop_first(), language, prefix, limit, more),
            },
        }
    }
}

/// The entries of each shard of a list.
pub open spec fn shard_views(shards: Seq<Shard>) -> Seq<Seq<Entry>> {
    shards.map_values(|s: Shard| s@)
}

/// The shards of one language.
struct LanguageShards {
    code: String,
    shards: Vec<Shard>,
}

/// The opened shards of every language, built once and read by every query.
pub struct ConcordanceIndex {
    languages: Vec<LanguageShards>,
}

impl View for ConcordanceIndex {
    type V = Listing;

    closed spec fn view(&self) -> Listing {
        self.languages@.map_values(|l: LanguageShards| (l.code@, shard_views(l.shards@)))
    }
}

impl ConcordanceIndex {
    /// A registry without languages.
    pub fn new() -> (index: Self)
        ensures
            index@ == Seq::<(Seq<char>, Seq<Seq<Entry>>)>::empty(),
    {
        let index = ConcordanceIndex { languages: Vec::new() };
        proof {
            assert(index@ =~= Seq::<(Seq<char>, Seq<Seq<Entry>>)>::empty());
        }
        index
    }

    /// Registers a language with its shards, which may be none. A language
    /// registered before under the same code is no longer read.
    pub fn register(&mut self, code: &str, shards: Vec<Shard>)
        ensures
            final(self)@ == old(self)@.push((code@, shard_views(shards@))),
    {
        let entry = LanguageShards { code: code.to_owned(), shards };
        self.languages.push(entry);
        proof {
            assert(final(self)@ =~= old(self)@.push((code@, shard_views(shards@))));
        }
    }

    /// The number of languages registered.
    pub fn len(&self) -> (n: usize)
        ensures
            n == self@.len(),
    {
        self.languages.len()
    }

    /// Finds the language that a query on `code` reads.
    fn position_of(&self, code: &str) -> (at: Option<usize>)
        ensures
            match at {
                Some(i) => i < self.languages@.len() && shards_for(self@, code@) == shard_views(
                    self.languages@[i as int].shards@,
                ),
                None => shards_for(self@, code@) == Seq::<Seq<Entry>>::empty(),
            },
    {
        let wanted = code.to_owned();
        let mut i: usize = self.languages.len();
        proof {
            assert(self@.take(i as int) =~= self@);
        }
        while i > 0
            invariant
                i <= self.languages@.len(),
                wanted@ == code@,
                shards_for(self@, code@) == shards_for(self@.take(i as int), code@),
            decreases i,
        {
            proof {
                assert(self@.take(i as int).drop_last() =~= self@.take(i - 1));
            }
            i = i - 1;
            if self.languages[i].code == wanted {
                return Some(i);
            }
        }
        None
    }

    /// Whether the language has at least one shard to read.
    pub fn has_data(&self, language: &str) -> (some: bool)
        ensures
            some == (shards_for(self@, language@).len() > 0),
    {
        match self.position_of(language) {
            Some(i) => self.languages[i].shards.len() > 0,
            None => false,
        }
    }

    /// Searches the shards of `language` for the sentences that hold `word`
    /// as a token. Each shard gives its own page; the pages follow each
    /// other in shard order. A language without shards gives no match and no
    /// error.
    pub fn search(&self, language: &str, word: &str, offset: usize, limit: usize) -> (found:
        Result<Vec<(String, u32, u64)>, IndexError>)
        ensures
            agrees(
                found,
                search_all(
                    shards_for(self@, language@),
                    query_language(token_of(word@)),
                    offset as nat,
                    limit as nat,
                ),
            ),
            shards_for(self@, language@).len() == 0 ==> (found matches Ok(none) && none@.len()
                == 0),
    {
        let mut results: Vec<(String, u32, u64)> = Vec::new();
        proof {
            assert(results.deep_view() =~= Seq::<Match>::empty());
        }
        let at = match self.position_of(language) {
            Some(i) => i,
            None => {
                return Ok(results);
            },
        };
        let shards = &self.languages[at].shards;
        let ghost views = shard_views(shards@);
        let ghost accepted = query_language(token_of(word@));
        let mut j: usize = 0;
        while j < shards.len()
            invariant
                j <= shards@.len(),
                views == shard_views(shards@),
                views == shards_for(self@, language@),
                accepted == query_language(token_of(word@)),
                search_all(views.take(j as int), accepted, offset as nat, limit as nat) == Ok::<
                    Seq<Match>,
                    IndexError,
                >(results.deep_view()),
            decreases shards@.len() - j,
        {
            proof {
                assert(views.take(j + 1).drop_last() =~= views.take(j as int));
                assert(views.take(j + 1).last() == shards@[j as int]@);
            }
            let ghost before = results.deep_view();
            match search_index(&shards[j], word, offset, limit) {
                Err(e) => {
                    proof {
                        lemma_search_all_fails(
                            views,
                            j + 1,
                            accepted,
                            offset as nat,
                            limit as nat,
                        );
                    }
                    return Err(e);
                },
                Ok(mut shown) => {
                    let ghost more = shown.deep_view();
                    results.append(&mut shown);
                    proof {
                        assert(results.deep_view() =~= before + more);
                    }
                },
            }
            j = j + 1;
        }
        proof {
            assert(views.take(j as int) =~= views);
        }
        Ok(results)
    }

    /// Offers completions of `prefix` from the shards of `language`, read
    /// in shard order: distinct words in the order of first appearance, at
    /// most `limit` of them. A language without shards offers none.
    pub fn autocomplete(&self, language: &str, prefix: &str, limit: usize) -> (found: Result<
        Vec<String>,
        IndexError,
    >)
        ensures
            agrees(
                found,
                complete_all(
                    shards_for(self@, language@),
                    query_language(prefix@),
                    prefix@,
                    limit as nat,
                    Seq::<Seq<char>>::empty(),
                ),
            ),
            shards_for(self@, language@).len() == 0 ==> (found matches Ok(none) && none@.len()
                == 0),
            found matches Ok(words) ==> forall|k: int|
                0 <= k < words@.len() ==> is_completion_of(#[trigger] words.deep_view()[k], prefix@),
    {
        let mut results: Vec<String> = Vec::new();
        proof {
            assert(results.deep_view() =~= Seq::<Seq<char>>::empty());
        }
        let at = match self.position_of(language) {
            Some(i) => i,
            None => {
                return Ok(results);
            },
        };
        let shards = &self.languages[at].shards;
        let ghost views = shard_views(shards@);
        let ghost accepted = query_language(prefix@);
        let ghost goal = complete_all(
            views,
            accepted,
            prefix@,
            limit as nat,
            Seq::<Seq<char>>::empty(),
        );
        let mut j: usize = 0;
        proof {
            assert(views.skip(0) =~= views);
        }
        while j < shards.len()
            invariant
                j <= shards@.len(),
                views == shard_views(shards@),
                goal == complete_all(
                    shards_for(self@, language@),
                    accepted,
                    prefix@,
                    limit as nat,
                    Seq::<Seq<char>>::empty(),
                ),
                accepted == query_language(prefix@),
                goal == complete_all(
                    views.skip(j as int),
                    accepted,
                    prefix@,
                    limit as nat,
                    results.deep_view(),
                ),
            decreases shards@.len() - j,
        {
            proof {
                assert(views.skip(j as int).drop_first() =~= views.skip(j + 1));
                assert(views.skip(j as int)[0] == shards@[j as int]@);
            }
            match autocomplete_more(&shards[j], prefix, limit, results) {
                Err(e) => {
                    return Err(e);
                },
                Ok(more) => {
                    results = more;
                },
            }
            j = j + 1;
        }
        proof {
            assert forall|k: int| 0 <= k < results@.len() implies is_completion_of(
                #[trigger] results.deep_view()[k],
                prefix@,
            ) by {
                lemma_complete_all_start_with_prefix(
                    views,
                    accepted,
                    prefix@,
                    limit as nat,
                    Seq::<Seq<char>>::empty(),
                    results.deep_view()[k],
                );
            }
        }
        Ok(results)
    }
}

/// A search that fails on the first shards fails on all of them.
proof fn lemma_search_all_fails(
    shards: Seq<Seq<Entry>>,
    n: int,
    language: Option<Set<Seq<u8>>>,
    offset: nat,
    limit: nat,
)
    requires
        0 <= n <= shards.len(),
        search_all(shards.take(n), language, offset, limit) is Err,
    ensures
        search_all(shards, language, offset, limit) == search_all(
            shards.take(n),
            language,
            offset,
            limit,
        ),
    decreases shards.len() - n,
{
    if n < shards.len() {
        assert(shards.take(n + 1).drop_last() =~= shards.take(n));
        assert(shards.take(n).len() > 0);
        lemma_search_all_fails(shards, n + 1, language, offset, limit);
    } else {
        assert(shards.take(n) =~= shards);
    }
}

/// Makes the registry of a catalog: each language with the shards opened
/// for it, in catalog order. A language for which `shards` holds no list
/// has no shard.
pub fn open_all(languages: &Vec<Language>, shards: Vec<Vec<Shard>>) -> (index: ConcordanceIndex)
    ensures
        index@.len() == languages@.len(),
        forall|i: int|
            0 <= i < languages@.len() ==> (#[trigger] index@[i]).0 == languages@[i].code@,
        forall|i: int|
            0 <= i < languages@.len() ==> (#[trigger] index@[i]).1 == if i < shards@.len() {
                shard_views(shards@[i]@)
            } else {
                Seq::empty()
            },
{
    let mut index = ConcordanceIndex::new();
    let mut lists = shards;
    let mut reversed: Vec<Vec<Shard>> = Vec::new();
    while lists.len() > 0
        invariant
            lists@.len() + reversed@.len() == shards@.len(),
            forall|k: int| 0 <= k < lists@.len() ==> lists@[k] == shards@[k],
            forall|k: int|
                0 <= k < reversed@.len() ==> reversed@[k] == shards@[shards@.len() - 1 - k],
        decreases lists@.len(),
    {
        match lists.pop() {
            Some(list) => {
                reversed.push(list);
            },
            None => {},
        }
    }
    let mut i: usize = 0;
    while i < languages.len()
        invariant
            i <= languages@.len(),
            index@.len() == i,
            reversed@.len() == if i < shards@.len() {
                shards@.len() - i
            } else {
                0
            },
            forall|k: int|
                0 <= k < reversed@.len() ==> reversed@[k] == shards@[shards@.len() - 1 - k],
            forall|k: int| 0 <= k < i ==> (#[trigger] index@[k]).0 == languages@[k].code@,
            forall|k: int|
                0 <= k < i ==> (#[trigger] index@[k]).1 == if k < shards@.len() {
                    shard_views(shards@[k]@)
                } else {
                    Seq::empty()
                },
        decreases languages@.len() - i,
    {
        let list: Vec<Shard> = match reversed.pop() {
            Some(list) => list,
            None => Vec::new(),
        };
        proof {
            if i >= shards@.len() {
                assert(shard_views(list@) =~= Seq::<Seq<Entry>>::empty());
            }
        }
        index.register(languages[i].code.as_str(), list);
        i = i + 1;
    }
    index
}

/// A language that was never registered has no shard, so that a query on
/// it finds nothing and does not fail.
pub proof fn lemma_unregistered_language(
    listing: Listing,
    code: Seq<char>,
    language: Option<Set<Seq<u8>>>,
    prefix: Seq<char>,
    offset: nat,
    limit: nat,
)
    requires
        forall|i: int| 0 <= i < listing.len() ==> (#[trigger] listing[i]).0 != code,
    ensures
        shards_for(listing, code).len() == 0,
        search_all(shards_for(listing, code), language, offset, limit) == Ok::<
            Seq<Match>,
            IndexError,
        >(Seq::empty()),
        complete_all(shards_for(listing, code), language, prefix, limit, Seq::empty()) == Ok::<
            Seq<Seq<char>>,
            IndexError,
        >(Seq::empty()),
    decreases listing.len(),
{
    if listing.len() > 0 {
        assert(listing.last() == listing[listing.len() - 1]);
        assert forall|i: int| 0 <= i < listing.drop_last().len() implies (
        #[trigger] listing.drop_last()[i]).0 != code by {
            assert(listing.drop_last()[i] == listing[i]);
        }
        lemma_unregistered_language(listing.drop_last(), code, language, prefix, offset, limit);
    }
}

/// The completion words of a language are distinct and no more than
/// `limit`, whatever the number of its shards.
pub proof fn lemma_complete_all_distinct(
    shards: Seq<Seq<Entry>>,
    language: Option<Set<Seq<u8>>>,
    prefix: Seq<char>,
    limit: nat,
    found: Seq<Seq<char>>,
)
    requires
        found.no_duplicates(),
        found.len() <= limit,
    ensures
        complete_all(shards, language, prefix, limit, found) matches Ok(words) ==> (
        words.no_duplicates() && words.len() <= limit),
    decreases shards.len(),
{
    if shards.len() > 0 {
        if let Some(accepted) = language {
            let entries = matching(shards[0], accepted);
            lemma_completions_distinct(entries, prefix, limit, found);
            lemma_completions_bounded(entries, prefix, limit, found);
            if let Ok(more) = completions(entries, prefix, limit, found) {
                lemma_complete_all_distinct(shards.drop_first(), language, prefix, limit, more);
            }
        }
    }
}

/// Each completion word of a language that was not held before holds no
/// space, and starts with the prefix where the prefix holds no space.
pub proof fn lemma_complete_all_start_with_prefix(
    shards: Seq<Seq<Entry>>,
    language: Option<Set<Seq<u8>>>,
    prefix: Seq<char>,
    limit: nat,
    found: Seq<Seq<char>>,
    word: Seq<char>,
)
    requires
        complete_all(shards, language, prefix, limit, found) matches Ok(words) && words.contains(
            word,
        ),
        !found.contains(word),
    ensures
        !word.contains(' '),
        !prefix.contains(' ') ==> prefix.is_prefix_of(word),
    decreases shards.len(),
{
    if shards.len() > 0 {
        let entries = matching(shards[0], language->0);
        let more = completions(entries, prefix, limit, found)->Ok_0;
        if more.contains(word) {
            lemma_completions_start_with_prefix(entries, prefix, limit, found, word);
        } else {
            lemma_complete_all_start_with_prefix(
                shards.drop_first(),
                language,
                prefix,
                limit,
                more,
                word,
            );
        }
    }
}

} // verus!
