//! The order of keys: byte strings compared byte by byte, a proper prefix
//! before what it is a prefix of.

use vstd::prelude::*;

verus! {

/// One entry of an ordered map: a key and the value stored under it.
pub type Entry = (Seq<u8>, u64);

/// Byte strings in lexicographic order: `a` sorts strictly before `b`.
pub open spec fn bytes_lt(a: Seq<u8>, b: Seq<u8>) -> bool
    decreases a.len(),
{
    if b.len() == 0 {
        false
    } else if a.len() == 0 {
        true
    } else if a[0] != b[0] {
        a[0] < b[0]
    } else {
        bytes_lt(a.drop_first(), b.drop_first())
    }
}

/// Whether `key` may be inserted after `entries`: it sorts strictly after
/// the last key.
pub open spec fn follows(entries: Seq<Entry>, key: Seq<u8>) -> bool {
    entries.len() == 0 || bytes_lt(entries.last().0, key)
}

/// Whether each key sorts strictly after the one before it.
pub open spec fn ascending(entries: Seq<Entry>) -> bool {
    forall|i: int| 0 <= i < entries.len() ==> follows(#[trigger] entries.take(i), entries[i].0)
}

/// The order is transitive.
pub proof fn lemma_bytes_lt_transitive(a: Seq<u8>, b: Seq<u8>, c: Seq<u8>)
    requires
        bytes_lt(a, b),
        bytes_lt(b, c),
    ensures
        bytes_lt(a, c),
    decreases a.len(),
{
    if a.len() > 0 && a[0] == b[0] && b[0] == c[0] {
        lemma_bytes_lt_transitive(a.drop_first(), b.drop_first(), c.drop_first());
    }
}

/// In an ascending list every key sorts before every later key.
pub proof fn lemma_ascending_sorted(entries: Seq<Entry>, i: int, j: int)
    requires
        ascending(entries),
        0 <= i < j < entries.len(),
    ensures
        bytes_lt(entries[i].0, entries[j].0),
    decreases j - i,
{
    assert(follows(entries.take(j), entries[j].0));
    assert(entries.take(j).last() == entries[j - 1]);
    if i < j - 1 {
        lemma_ascending_sorted(entries, i, j - 1);
        lemma_bytes_lt_transitive(entries[i].0, entries[j - 1].0, entries[j].0);
    }
}

} // verus!
