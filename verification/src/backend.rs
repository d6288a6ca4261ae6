//! The ordered map that backs a shard, and the regular expressions that
//! search it. Both come from outside this crate: the items here state what
//! the rest of the crate relies on and is not proved.

use crate::order::{ascending, follows, Entry};
use crate::query::{holding, substring_pattern};
use vstd::prelude::*;

verus! {

/// `fst::MapBuilder`: builds an ordered map from keys given in ascending
/// order, writing it to `W` as it goes.
#[verifier::external_type_specification]
#[verifier::external_body]
#[verifier::reject_recursive_types(W)]
pub struct ExMapBuilder<W>(fst::MapBuilder<W>);

/// `fst::Map`: a sealed ordered map from byte strings to `u64`.
#[verifier::external_type_specification]
#[verifier::external_body]
pub struct ExMap(fst::Map);

/// `fst::Error`: why a map could not be built or opened.
#[verifier::external_type_specification]
#[verifier::external_body]
pub struct ExMapError(fst::Error);

/// `fst_regex::Regex`: a regular expression compiled to an automaton over
/// bytes.
#[verifier::external_type_specification]
#[verifier::external_body]
pub struct ExRegex(fst_regex::Regex);

/// `fst_regex::Error`: why a pattern could not be compiled.
#[verifier::external_type_specification]
#[verifier::external_body]
pub struct ExRegexError(fst_regex::Error);

/// A forward-only scan of the entries of one map whose keys a regular
/// expression accepts. It holds an `fst::map::Stream`, whose declaration
/// is bound by a trait of the `fst` crate.
#[verifier::external_body]
pub struct MatchStream<'m> {
    inner: fst::map::Stream<'m, fst_regex::Regex>,
}

/// The entries that a builder has accepted so far, in the order of insertion.
pub uninterp spec fn builder_entries(b: fst::MapBuilder<Vec<u8>>) -> Seq<(Seq<u8>, u64)>;

/// The entries of the map that `bytes` are the sealed form of, in key order;
/// `None` where no builder seals to these bytes.
pub uninterp spec fn sealed_entries(bytes: Seq<u8>) -> Option<Seq<(Seq<u8>, u64)>>;

/// The entries of a map, in key order; `None` where the map was opened from
/// bytes that no builder sealed.
pub uninterp spec fn map_entries(m: fst::Map) -> Option<Seq<(Seq<u8>, u64)>>;

/// Whether `pattern`, the pattern of a literal, compiles to an automaton.
pub uninterp spec fn pattern_compiles(pattern: Seq<char>) -> bool;

/// The set of keys that a compiled regular expression accepts.
pub uninterp spec fn regex_language(r: fst_regex::Regex) -> Set<Seq<u8>>;

/// The entries that a scan has yet to yield, in order.
pub uninterp spec fn stream_rest(s: MatchStream<'_>) -> Seq<(Seq<u8>, u64)>;

/// The entries whose key is in `language`, in their order.
pub open spec fn matching(entries: Seq<Entry>, language: Set<Seq<u8>>) -> Seq<Entry> {
    entries.filter(|e: Entry| language.contains(e.0))
}

/// The least number of bytes of a sealed index.
pub const MIN_INDEX_BYTES: usize = 32;

/// `fst::MapBuilder::memory`: a builder that writes to memory and holds no
/// entry yet.
#[verifier::external_body]
pub(crate) fn new_builder() -> (b: fst::MapBuilder<Vec<u8>>)
    ensures
        builder_entries(b) == Seq::<Entry>::empty(),
{
    fst::MapBuilder::memory()
}

/// `fst::MapBuilder::insert`: the builder first compares the key with the
/// last key it accepted. A key that is equal or smaller is refused with
/// `DuplicateKey` or `OutOfOrder` and nothing changes. Otherwise the entry is
/// appended: the only other failure is one of the writer, and this builder
/// writes to a `Vec<u8>`, which takes every write. The builder counts its
/// entries in a `usize`, which must not be full.
#[verifier::external_body]
pub(crate) fn insert_entry(b: &mut fst::MapBuilder<Vec<u8>>, key: &[u8], value: u64) -> (inserted:
    bool)
    requires
        builder_entries(*old(b)).len() < usize::MAX,
    ensures
        inserted == follows(builder_entries(*old(b)), key@),
        inserted ==> builder_entries(*final(b)) == builder_entries(*old(b)).push((key@, value)),
        !inserted ==> builder_entries(*final(b)) == builder_entries(*old(b)),
{
    b.insert(key, value).is_ok()
}

/// `fst::MapBuilder::into_inner`: finishes the map and hands out the bytes
/// written. It fails only where the writer fails, and a `Vec<u8>` takes
/// every write. Read back as a map the bytes hold the entries that the
/// builder accepted, and no others.
#[verifier::external_body]
pub(crate) fn seal(b: fst::MapBuilder<Vec<u8>>) -> (sealed: Result<Vec<u8>, fst::Error>)
    ensures
        sealed is Ok,
        sealed matches Ok(bytes) ==> sealed_entries(bytes@) == Some(builder_entries(b)),
{
    b.into_inner()
}

/// `fst::Map::from_bytes`: refuses fewer than 32 bytes, checks the version
/// in the header and keeps the bytes as the map. Bytes that a builder sealed
/// are at least 32 and carry its version, so they open. It does not read
/// the entries: what the map holds is what the bytes seal, and a builder
/// seals only keys that it took in ascending order. Of other bytes it reads
/// two numbers that need not fit the machine's word.
#[verifier::external_body]
pub(crate) fn map_from_bytes(bytes: Vec<u8>) -> (opened: Result<fst::Map, fst::Error>)
    requires
        sealed_entries(bytes@) is Some || bytes@.len() < MIN_INDEX_BYTES,
    ensures
        opened matches Ok(m) ==> map_entries(m) == sealed_entries(bytes@),
        opened matches Ok(m) ==> ascending(map_entries(m)->0),
        sealed_entries(bytes@) is Some ==> opened is Ok,
        bytes@.len() < MIN_INDEX_BYTES ==> opened is Err,
{
    fst::Map::from_bytes(bytes)
}

/// `fst_regex::Regex::new`, on the pattern of a literal: the literal with
/// its pattern characters escaped, between `.*` and `.*`. It parses the
/// pattern and compiles it to an automaton over bytes, or fails where the
/// automaton would be too large; which of the two depends on the pattern
/// alone. The automaton accepts a key where the pattern matches the whole
/// key, read as UTF-8, and `.` is any character but a line feed: so it
/// accepts the keys that hold the literal. Of a pattern of another form the
/// compiler may call itself too often, once for each choice in a row.
#[verifier::external_body]
pub(crate) fn compile(pattern: &str) -> (compiled: Result<fst_regex::Regex, fst_regex::Error>)
    requires
        exists|literal: Seq<char>| pattern@ == #[trigger] substring_pattern(literal),
    ensures
        (compiled is Ok) == pattern_compiles(pattern@),
        compiled matches Ok(r) ==> forall|literal: Seq<char>|
            pattern@ == #[trigger] substring_pattern(literal) ==> regex_language(r) == holding(
                literal,
            ),
{
    fst_regex::Regex::new(pattern)
}

/// `fst::Map::search` and `into_stream`: a scan of a map yields, in key
/// order, the entries whose whole key the automaton accepts. The map must
/// hold bytes that a builder sealed: on other bytes a scan may panic.
#[verifier::external_body]
pub(crate) fn open_stream<'m>(map: &'m fst::Map, regex: fst_regex::Regex) -> (s: MatchStream<'m>)
    requires
        map_entries(*map) is Some,
    ensures
        stream_rest(s) == matching(map_entries(*map)->0, regex_language(regex)),
{
    MatchStream { inner: fst::IntoStreamer::into_stream(map.search(regex)) }
}

/// `fst::Streamer::next` on a map's stream: yields the next entry, or `None`
/// once the scan is exhausted and at every call after that.
#[verifier::external_body]
pub(crate) fn next_entry(s: &mut MatchStream<'_>) -> (item: Option<(Vec<u8>, u64)>)
    ensures
        match item {
            Some(e) => stream_rest(*old(s)).len() > 0 && (e.0@, e.1) == stream_rest(*old(s))[0]
                && stream_rest(*final(s)) == stream_rest(*old(s)).drop_first(),
            None => stream_rest(*old(s)).len() == 0 && stream_rest(*final(s)).len() == 0,
        },
{
    match fst::Streamer::next(&mut s.inner) {
        Some((key, value)) => Some((key.to_vec(), value)),
        None => None,
    }
}

} // verus!
