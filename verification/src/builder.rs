//! Building a sealed index from sorted corpus lines.

use crate::backend::{builder_entries, insert_entry, new_builder, seal, sealed_entries};
use crate::order::{ascending, bytes_lt, follows, Entry};
use crate::encoding::{build_entry, encode_build_key};
use crate::error::IndexError;
use vstd::prelude::*;

verus! {

/// What became of one corpus line.
#[derive(Clone, Copy, Debug, PartialEq, Eq, Structural)]
pub enum LineOutcome {
    /// The line's entry was appended to the index.
    Indexed,
    /// The line does not end in sixteen hexadecimal digits and was skipped.
    Malformed,
    /// The line's key does not sort after the last indexed key; the line was
    /// skipped.
    OutOfOrder,
}

/// What becomes of `line` when `entries` have been indexed before it.
pub open spec fn line_fate(entries: Seq<Entry>, line: Seq<u8>) -> LineOutcome {
    match build_entry(line) {
        None => LineOutcome::Malformed,
        Some(e) => if follows(entries, e.0) {
            LineOutcome::Indexed
        } else {
            LineOutcome::OutOfOrder
        },
    }
}

/// The entries of the index built from `lines`: the entry of each
/// well-formed line whose key sorts strictly after the key indexed last.
pub open spec fn indexed_entries(lines: Seq<Seq<u8>>) -> Seq<Entry>
    decreases lines.len(),
{
    if lines.len() == 0 {
        Seq::empty()
    } else {
        let before = indexed_entries(lines.drop_last());
        if line_fate(before, lines.last()) == LineOutcome::Indexed {
            before.push(build_entry(lines.last())->0)
        } else {
            before
        }
    }
}

/// A sealed index and the number of entries in it.
#[derive(Debug)]
pub struct SealedIndex {
    pub bytes: Vec<u8>,
    pub entries: usize,
}

/// Builds one index in memory from the lines it is given, one at a time.
pub struct IndexBuilder {
    inner: fst::MapBuilder<Vec<u8>>,
    written: usize,
    lines: Ghost<Seq<Seq<u8>>>,
}

impl IndexBuilder {
    #[verifier::type_invariant]
    spec fn inv(self) -> bool {
        &&& builder_entries(self.inner) == indexed_entries(self.lines@)
        &&& self.written == indexed_entries(self.lines@).len()
    }

    /// The lines given so far.
    pub closed spec fn lines(&self) -> Seq<Seq<u8>> {
        self.lines@
    }

    /// A builder that has seen no line.
    pub fn new() -> (b: Self)
        ensures
            b.lines() == Seq::<Seq<u8>>::empty(),
    {
        IndexBuilder { inner: new_builder(), written: 0, lines: Ghost(Seq::empty()) }
    }

    /// The number of entries indexed so far.
    pub fn written(&self) -> (n: usize)
        ensures
            n == indexed_entries(self.lines()).len(),
    {
        proof {
            use_type_invariant(self);
        }
        self.written
    }

    /// Takes the next corpus line and gives the builder back with what
    /// became of the line. A malformed line and a line out of order are
    /// skipped; the build goes on. The entries are counted in a `usize`,
    /// which must not be full.
    pub fn add_line(self, line: &[u8]) -> (next: (IndexBuilder, LineOutcome))
        requires
            indexed_entries(self.lines()).len() < usize::MAX,
        ensures
            next.0.lines() == self.lines().push(line@),
            next.1 == line_fate(indexed_entries(self.lines()), line@),
    {
        proof {
            use_type_invariant(&self);
        }
        let ghost after = self.lines@.push(line@);
        proof {
            assert(after.drop_last() =~= self.lines@);
        }
        let IndexBuilder { inner, written, lines: _ } = self;
        let mut inner = inner;
        let (key, value) = match encode_build_key(line) {
            Ok(e) => e,
            Err(_) => {
                return (IndexBuilder { inner, written, lines: Ghost(after) }, LineOutcome::Malformed);
            },
        };
        if insert_entry(&mut inner, key.as_slice(), value) {
            (IndexBuilder { inner, written: written + 1, lines: Ghost(after) }, LineOutcome::Indexed)
        } else {
            (IndexBuilder { inner, written, lines: Ghost(after) }, LineOutcome::OutOfOrder)
        }
    }

    /// Seals the index. An index that is built in memory always seals.
    pub fn finish(self) -> (sealed: Result<SealedIndex, IndexError>)
        ensures
            sealed matches Ok(index) && sealed_entries(index.bytes@) == Some(
                indexed_entries(self.lines()),
            ) && index.entries == indexed_entries(self.lines()).len(),
            ascending(indexed_entries(self.lines())),
    {
        proof {
            use_type_invariant(&self);
            lemma_indexed_ascending(self.lines@);
        }
        let entries = self.written;
        match seal(self.inner) {
            Ok(bytes) => Ok(SealedIndex { bytes, entries }),
            Err(_) => Err(IndexError::Build),
        }
    }
}

/// No more entries are indexed than lines were given.
pub proof fn lemma_indexed_len(lines: Seq<Seq<u8>>)
    ensures
        indexed_entries(lines).len() <= lines.len(),
    decreases lines.len(),
{
    if lines.len() > 0 {
        lemma_indexed_len(lines.drop_last());
    }
}

/// The keys of a built index ascend strictly.
pub proof fn lemma_indexed_ascending(lines: Seq<Seq<u8>>)
    ensures
        ascending(indexed_entries(lines)),
    decreases lines.len(),
{
    if lines.len() > 0 {
        let before = indexed_entries(lines.drop_last());
        lemma_indexed_ascending(lines.drop_last());
        if line_fate(before, lines.last()) == LineOutcome::Indexed {
            let e = build_entry(lines.last())->0;
            let all = before.push(e);
            assert forall|i: int| 0 <= i < all.len() implies follows(
                #[trigger] all.take(i),
                all[i].0,
            ) by {
                if i < before.len() {
                    assert(all.take(i) =~= before.take(i));
                } else {
                    assert(all.take(i) =~= before);
                }
            }
        }
    }
}

/// Builds a sealed index from the lines of a sorted corpus, each line a key
/// followed by the sixteen digits of its document. Malformed lines and lines
/// out of order are skipped. An index that is built in memory always
/// builds.
pub fn load_file(lines: &Vec<Vec<u8>>) -> (sealed: Result<SealedIndex, IndexError>)
    ensures
        sealed matches Ok(index) && sealed_entries(index.bytes@) == Some(
            indexed_entries(lines.deep_view()),
        ) && index.entries == indexed_entries(lines.deep_view()).len(),
        ascending(indexed_entries(lines.deep_view())),
{
    let mut builder = IndexBuilder::new();
    let mut i: usize = 0;
    while i < lines.len()
        invariant
            i <= lines@.len(),
            builder.lines() == lines.deep_view().take(i as int),
        decreases lines@.len() - i,
    {
        proof {
            lemma_indexed_len(lines.deep_view().take(i as int));
            assert(lines@[i as int].deep_view() =~= lines@[i as int]@);
            assert(lines.deep_view().take(i + 1) =~= lines.deep_view().take(i as int).push(
                lines@[i as int]@,
            ));
        }
        let (next, _) = builder.add_line(lines[i].as_slice());
        builder = next;
        i = i + 1;
    }
    proof {
        assert(lines.deep_view().take(i as int) =~= lines.deep_view());
    }
    builder.finish()
}

/// The key of a well-formed line.
pub open spec fn line_key(line: Seq<u8>) -> Seq<u8> {
    let entry = build_entry(line)->0;
    entry.0
}

/// Whether every line is well formed and each key sorts strictly after the
/// key of the line before it.
pub open spec fn is_sorted_corpus(lines: Seq<Seq<u8>>) -> bool {
    &&& forall|i: int| 0 <= i < lines.len() ==> build_entry(#[trigger] lines[i]) is Some
    &&& forall|i: int|
        0 < i < lines.len() ==> bytes_lt(
            line_key(lines[i - 1]),
            line_key(#[trigger] lines[i]),
        )
}

/// The entry of each line, in order.
pub open spec fn corpus_entries(lines: Seq<Seq<u8>>) -> Seq<Entry> {
    lines.map_values(|line: Seq<u8>| build_entry(line)->0)
}

/// A malformed line is skipped and changes nothing else: the index built
/// from the lines is the index built from the lines without it.
pub proof fn lemma_malformed_line_is_skipped(lines: Seq<Seq<u8>>, i: int)
    requires
        0 <= i < lines.len(),
        build_entry(lines[i]) is None,
    ensures
        indexed_entries(lines) == indexed_entries(lines.remove(i)),
    decreases lines.len(),
{
    if i == lines.len() - 1 {
        assert(lines.remove(i) =~= lines.drop_last());
    } else {
        lemma_malformed_line_is_skipped(lines.drop_last(), i);
        assert(lines.remove(i).drop_last() =~= lines.drop_last().remove(i));
        assert(lines.remove(i).last() == lines.last());
    }
}

/// A line whose key does not sort after the key indexed last is skipped
/// and changes nothing else.
pub proof fn lemma_line_out_of_order_is_skipped(lines: Seq<Seq<u8>>, i: int)
    requires
        0 <= i < lines.len(),
        line_fate(indexed_entries(lines.take(i)), lines[i]) == LineOutcome::OutOfOrder,
    ensures
        indexed_entries(lines) == indexed_entries(lines.remove(i)),
    decreases lines.len(),
{
    if i == lines.len() - 1 {
        assert(lines.remove(i) =~= lines.drop_last());
        assert(lines.take(i) =~= lines.drop_last());
    } else {
        assert(lines.drop_last().take(i) =~= lines.take(i));
        lemma_line_out_of_order_is_skipped(lines.drop_last(), i);
        assert(lines.remove(i).drop_last() =~= lines.drop_last().remove(i));
        assert(lines.remove(i).last() == lines.last());
    }
}

/// Every line of a well-formed, sorted corpus is indexed, in order.
pub proof fn lemma_sorted_corpus_is_indexed(lines: Seq<Seq<u8>>)
    requires
        is_sorted_corpus(lines),
    ensures
        indexed_entries(lines) == corpus_entries(lines),
    decreases lines.len(),
{
    if lines.len() > 0 {
        let front = lines.drop_last();
        assert(is_sorted_corpus(front)) by {
            assert forall|i: int| 0 <= i < front.len() implies build_entry(
                #[trigger] front[i],
            ) is Some by {
                assert(front[i] == lines[i]);
            }
            assert forall|i: int| 0 < i < front.len() implies bytes_lt(
                line_key(front[i - 1]),
                line_key(#[trigger] front[i]),
            ) by {
                assert(front[i] == lines[i]);
                assert(front[i - 1] == lines[i - 1]);
            }
        }
        lemma_sorted_corpus_is_indexed(front);
        let n = lines.len() as int;
        assert(build_entry(lines[n - 1]) is Some);
        if n > 1 {
            assert(front[n - 2] == lines[n - 2]);
            assert(bytes_lt(line_key(lines[n - 2]), line_key(lines[n - 1])));
            assert(corpus_entries(front).last() == build_entry(lines[n - 2])->0);
        }
        assert(corpus_entries(lines) =~= corpus_entries(front).push(build_entry(lines.last())->0));
    } else {
        assert(corpus_entries(lines) =~= Seq::<Entry>::empty());
    }
}

} // verus!
