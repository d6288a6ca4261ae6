//! Document metadata: the records of the document store and the lines they
//! are read from.
//!
//! A metadata line holds the sixteen lowercase hexadecimal digits under which
//! the document is stored, then ` <doc id="`, the document's own identifier,
//! `" url="`, its address, `" title="`, its title, and `">`. Text may stand
//! before and after. Where a line can be read in more than one way, the
//! record starts as far left as it can and each field is as long as it can
//! be.

use crate::text::{chars_of, find_last, lemma_find_back, matches_at, occurs_at, string_of};
use vstd::prelude::*;

verus! {

/// A source document of the corpus.
#[derive(Clone, Debug, PartialEq, Eq)]
pub struct Doc {
    pub id: String,
    pub url: String,
    pub title: String,
}

/// Token and type counts of one ingested collection.
#[derive(Clone, Debug, PartialEq, Eq)]
pub struct CollectionStatistics {
    pub lang: String,
    pub collection: String,
    pub tokens: u32,
    pub types: u32,
}

/// A document and the key under which the store holds it.
#[derive(Clone, Debug, PartialEq, Eq)]
pub struct DocRecord {
    pub key: String,
    pub doc: Doc,
}

/// The number of digits in a document's key.
pub const KEY_DIGITS: usize = 16;

/// What follows the key: ` <doc id="`.
pub open spec fn id_mark() -> Seq<char> {
    seq![' ', '<', 'd', 'o', 'c', ' ', 'i', 'd', '=', '"']
}

/// What follows the identifier: `" url="`.
pub open spec fn url_mark() -> Seq<char> {
    seq!['"', ' ', 'u', 'r', 'l', '=', '"']
}

/// What follows the address: `" title="`.
pub open spec fn title_mark() -> Seq<char> {
    seq!['"', ' ', 't', 'i', 't', 'l', 'e', '=', '"']
}

/// What follows the title: `">`.
pub open spec fn end_mark() -> Seq<char> {
    seq!['"', '>']
}

/// Whether `c` is a decimal digit or a letter from `a` to `f`.
pub open spec fn is_key_digit(c: char) -> bool {
    ('0' <= c && c <= '9') || ('a' <= c && c <= 'f')
}

/// Whether sixteen key digits stand at `p`, followed by the identifier's
/// mark.
pub open spec fn starts_record(line: Seq<char>, p: int) -> bool {
    &&& 0 <= p
    &&& p + 26 <= line.len()
    &&& forall|k: int| 0 <= k < 16 ==> is_key_digit(#[trigger] line[p + k])
    &&& occurs_at(line, id_mark(), p + 16)
}

/// Whether the line reads as a record that starts at `p`, with the marks
/// of the address, the title and the end at `u`, `t` and `e`.
pub open spec fn is_layout(line: Seq<char>, p: int, u: int, t: int, e: int) -> bool {
    &&& starts_record(line, p)
    &&& p + 26 <= u
    &&& occurs_at(line, url_mark(), u)
    &&& u + 7 <= t
    &&& occurs_at(line, title_mark(), t)
    &&& t + 9 <= e
    &&& occurs_at(line, end_mark(), e)
}

/// Whether the reading is the one that starts leftmost and gives each
/// field its greatest length. No line has two such readings.
pub open spec fn is_best_layout(line: Seq<char>, p: int, u: int, t: int, e: int) -> bool {
    &&& is_layout(line, p, u, t, e)
    &&& forall|q: int, v: int, w: int, f: int| #[trigger]
        is_layout(line, q, v, w, f) ==> p <= q && v <= u && w <= t && f <= e
}

/// Whether `record` holds the fields of the reading.
pub open spec fn reads_as(record: DocRecord, line: Seq<char>, p: int, u: int, t: int, e: int) -> bool {
    &&& record.key@ == line.subrange(p, p + 16)
    &&& record.doc.id@ == line.subrange(p + 26, u)
    &&& record.doc.url@ == line.subrange(u + 7, t)
    &&& record.doc.title@ == line.subrange(t + 9, e)
}

/// No line has two best readings.
pub proof fn lemma_best_layout_is_unique(
    line: Seq<char>,
    first: (int, int, int, int),
    second: (int, int, int, int),
)
    requires
        is_best_layout(line, first.0, first.1, first.2, first.3),
        is_best_layout(line, second.0, second.1, second.2, second.3),
    ensures
        first == second,
{
}

/// Tests whether `c` is a decimal digit or a letter from `a` to `f`.
pub fn is_key_digit_char(c: char) -> (digit: bool)
    ensures
        digit == is_key_digit(c),
{
    ('0' <= c && c <= '9') || ('a' <= c && c <= 'f')
}

/// Tests whether a record starts at `p`.
fn starts_record_at(line: &[char], mark: &[char], p: usize) -> (starts: bool)
    requires
        mark@ == id_mark(),
    ensures
        starts == starts_record(line@, p as int),
{
    if line.len() < 26 || p > line.len() - 26 {
        return false;
    }
    let mut k: usize = 0;
    while k < KEY_DIGITS
        invariant
            k <= 16,
            p + 26 <= line@.len() <= usize::MAX,
            forall|j: int| 0 <= j < k ==> is_key_digit(#[trigger] line@[p + j]),
        decreases 16 - k,
    {
        if !is_key_digit_char(line[p + k]) {
            return false;
        }
        k = k + 1;
    }
    matches_at(line, mark, p + KEY_DIGITS)
}

/// Finds the leftmost place where a record starts.
fn first_record(line: &[char], mark: &[char]) -> (found: Option<usize>)
    requires
        mark@ == id_mark(),
    ensures
        match found {
            Some(p) => starts_record(line@, p as int) && forall|q: int|
                0 <= q < p ==> !starts_record(line@, q),
            None => forall|q: int| !starts_record(line@, q),
        },
{
    let mut p: usize = 0;
    while p < line.len()
        invariant
            mark@ == id_mark(),
            forall|q: int| 0 <= q < p ==> !starts_record(line@, q),
        decreases line@.len() - p,
    {
        if starts_record_at(line, mark, p) {
            return Some(p);
        }
        p = p + 1;
    }
    None
}

/// Copies the characters from `from` up to `to` into a string.
fn field(line: &[char], from: usize, to: usize) -> (text: String)
    requires
        from <= to <= line@.len(),
    ensures
        text@ == line@.subrange(from as int, to as int),
{
    string_of(vstd::slice::slice_subrange(line, from, to))
}

/// Reads a line of document metadata. A line that holds no record gives
/// `None`.
pub fn parse_doc_line(line: &str) -> (parsed: Option<DocRecord>)
    ensures
        match parsed {
            Some(record) => exists|p: int, u: int, t: int, e: int| #[trigger]
                is_best_layout(line@, p, u, t, e) && reads_as(record, line@, p, u, t, e),
            None => forall|p: int, u: int, t: int, e: int| !#[trigger] is_layout(line@, p, u, t, e),
        },
{
    let chars = chars_of(line);
    let text = chars.as_slice();
    let id_mark: [char; 10] = [' ', '<', 'd', 'o', 'c', ' ', 'i', 'd', '=', '"'];
    let url_mark: [char; 7] = ['"', ' ', 'u', 'r', 'l', '=', '"'];
    let title_mark: [char; 9] = ['"', ' ', 't', 'i', 't', 'l', 'e', '=', '"'];
    let end_mark: [char; 2] = ['"', '>'];
    proof {
        assert(id_mark@ =~= self::id_mark());
        assert(url_mark@ =~= self::url_mark());
        assert(title_mark@ =~= self::title_mark());
        assert(end_mark@ =~= self::end_mark());
        lemma_find_back(text@, self::end_mark(), text@.len() as int);
    }
    let e: usize = match find_last(text, end_mark.as_slice(), text.len()) {
        Some(e) => e,
        None => {
            return None;
        },
    };
    if e < 9 {
        return None;
    }
    proof {
        lemma_find_back(text@, self::title_mark(), e - 9);
    }
    let t: usize = match find_last(text, title_mark.as_slice(), e - 9) {
        Some(t) => t,
        None => {
            return None;
        },
    };
    if t < 7 {
        return None;
    }
    proof {
        lemma_find_back(text@, self::url_mark(), t - 7);
    }
    let u: usize = match find_last(text, url_mark.as_slice(), t - 7) {
        Some(u) => u,
        None => {
            return None;
        },
    };
    let p: usize = match first_record(text, id_mark.as_slice()) {
        Some(p) => p,
        None => {
            return None;
        },
    };
    if u < 26 || p > u - 26 {
        return None;
    }
    let record = DocRecord {
        key: field(text, p, p + KEY_DIGITS),
        doc: Doc {
            id: field(text, p + 26, u),
            url: field(text, u + 7, t),
            title: field(text, t + 9, e),
        },
    };
    proof {
        assert(is_best_layout(line@, p as int, u as int, t as int, e as int));
        assert(reads_as(record, line@, p as int, u as int, t as int, e as int));
    }
    Some(record)
}

} // verus!
