//! Character sequences: conversion between bytes, strings and their
//! characters, and the search for one sequence inside another.

use vstd::prelude::*;
use vstd::utf8::{decode_utf8, valid_utf8};

verus! {

broadcast use vstd::string::group_string_axioms;

/// `String::from_utf8` of std: the text that the bytes encode, or `None`
/// where they are not valid UTF-8.
#[verifier::external_body]
pub(crate) fn text_of(bytes: Vec<u8>) -> (text: Option<String>)
    ensures
        match text {
            Some(s) => valid_utf8(bytes@) && s@ == decode_utf8(bytes@),
            None => !valid_utf8(bytes@),
        },
{
    match String::from_utf8(bytes) {
        Ok(s) => Some(s),
        Err(_) => None,
    }
}

/// The characters of `s`, in order.
pub fn chars_of(s: &str) -> (chars: Vec<char>)
    ensures
        chars@ == s@,
{
    let mut chars: Vec<char> = Vec::new();
    for c in it: s.chars()
        invariant
            it.seq() == s@,
            chars@ == it.seq().take(it.index() as int),
    {
        proof {
            assert(it.seq().take(it.index() + 1) =~= it.seq().take(it.index() as int).push(c));
        }
        chars.push(c);
    }
    proof {
        assert(s@.take(s@.len() as int) =~= s@);
    }
    chars
}

/// `String::push` of std appends one character to the end of the string
/// and leaves the characters before it as they were.
pub assume_specification[ String::push ](s: &mut String, c: char)
    ensures
        final(s)@ == old(s)@.push(c),
;

/// The string made of `chars`, in order.
pub fn string_of(chars: &[char]) -> (s: String)
    ensures
        s@ == chars@,
{
    let mut s = String::new();
    let mut i: usize = 0;
    while i < chars.len()
        invariant
            i <= chars@.len(),
            s@ == chars@.take(i as int),
        decreases chars@.len() - i,
    {
        s.push(chars[i]);
        proof {
            assert(chars@.take(i + 1) =~= chars@.take(i as int).push(chars@[i as int]));
        }
        i = i + 1;
    }
    proof {
        assert(chars@.take(i as int) =~= chars@);
    }
    s
}

/// Whether `needle` stands in `hay` at index `i`.
pub open spec fn occurs_at(hay: Seq<char>, needle: Seq<char>, i: int) -> bool {
    0 <= i && i + needle.len() <= hay.len() && hay.subrange(i, i + needle.len()) == needle
}

/// Whether `needle` stands somewhere in `hay`.
pub open spec fn stands_in(hay: Seq<char>, needle: Seq<char>) -> bool {
    exists|i: int| occurs_at(hay, needle, i)
}

/// The first index at or after `from` where `needle` stands in `hay`.
pub open spec fn find_from(hay: Seq<char>, needle: Seq<char>, from: int) -> Option<int>
    decreases hay.len() - from + 1,
{
    if from < 0 || from + needle.len() > hay.len() {
        None
    } else if occurs_at(hay, needle, from) {
        Some(from)
    } else {
        find_from(hay, needle, from + 1)
    }
}

/// The last index at or before `start` where `needle` stands in `hay`.
pub open spec fn find_back(hay: Seq<char>, needle: Seq<char>, start: int) -> Option<int>
    decreases start + 1,
{
    if start < 0 {
        None
    } else if occurs_at(hay, needle, start) {
        Some(start)
    } else {
        find_back(hay, needle, start - 1)
    }
}

/// What `find_from` finds is an occurrence, and no occurrence from `from`
/// on stands before it; where it finds none, there is none from `from` on.
pub proof fn lemma_find_from(hay: Seq<char>, needle: Seq<char>, from: int)
    requires
        0 <= from,
    ensures
        match find_from(hay, needle, from) {
            Some(i) => from <= i && occurs_at(hay, needle, i) && forall|j: int|
                from <= j < i ==> !occurs_at(hay, needle, j),
            None => forall|j: int| from <= j ==> !occurs_at(hay, needle, j),
        },
    decreases hay.len() - from + 1,
{
    if from + needle.len() <= hay.len() && !occurs_at(hay, needle, from) {
        lemma_find_from(hay, needle, from + 1);
    }
}

/// What `find_back` finds is an occurrence, and no occurrence up to `start`
/// stands after it; where it finds none, there is none up to `start`.
pub proof fn lemma_find_back(hay: Seq<char>, needle: Seq<char>, start: int)
    ensures
        match find_back(hay, needle, start) {
            Some(i) => i <= start && occurs_at(hay, needle, i) && forall|j: int|
                i < j <= start ==> !occurs_at(hay, needle, j),
            None => forall|j: int| j <= start ==> !occurs_at(hay, needle, j),
        },
    decreases start + 1,
{
    if start >= 0 && !occurs_at(hay, needle, start) {
        lemma_find_back(hay, needle, start - 1);
    }
}

/// Tests whether `needle` stands in `hay` at index `i`.
pub fn matches_at(hay: &[char], needle: &[char], i: usize) -> (found: bool)
    ensures
        found == occurs_at(hay@, needle@, i as int),
{
    if needle.len() > hay.len() || i > hay.len() - needle.len() {
        return false;
    }
    let mut k: usize = 0;
    while k < needle.len()
        invariant
            k <= needle@.len(),
            i + needle@.len() <= hay@.len() <= usize::MAX,
            forall|j: int| 0 <= j < k ==> hay@[i + j] == needle@[j],
        decreases needle@.len() - k,
    {
        if hay[i + k] != needle[k] {
            proof {
                assert(hay@.subrange(i as int, i + needle@.len())[k as int] == hay@[i + k]);
            }
            return false;
        }
        k = k + 1;
    }
    proof {
        assert(hay@.subrange(i as int, i + needle@.len()) =~= needle@);
    }
    true
}

/// Finds the first occurrence of `needle` in `hay` at or after `from`.
pub fn find(hay: &[char], needle: &[char], from: usize) -> (found: Option<usize>)
    ensures
        match found {
            Some(i) => find_from(hay@, needle@, from as int) == Some(i as int),
            None => find_from(hay@, needle@, from as int) is None,
        },
{
    if needle.len() > hay.len() {
        return None;
    }
    let last: usize = hay.len() - needle.len();
    let mut i: usize = from;
    while i <= last
        invariant
            last == hay@.len() - needle@.len(),
            from <= i,
            find_from(hay@, needle@, from as int) == find_from(hay@, needle@, i as int),
        decreases last - i,
    {
        if matches_at(hay, needle, i) {
            return Some(i);
        }
        if i == last {
            proof {
                assert(find_from(hay@, needle@, i + 1) is None);
            }
            return None;
        }
        i = i + 1;
    }
    None
}

/// Finds the last occurrence of `needle` in `hay` at or before `start`.
pub fn find_last(hay: &[char], needle: &[char], start: usize) -> (found: Option<usize>)
    ensures
        match found {
            Some(i) => find_back(hay@, needle@, start as int) == Some(i as int),
            None => find_back(hay@, needle@, start as int) is None,
        },
{
    let mut i: usize = start;
    loop
        invariant
            i <= start,
            find_back(hay@, needle@, start as int) == find_back(hay@, needle@, i as int),
        decreases i,
    {
        if matches_at(hay, needle, i) {
            return Some(i);
        }
        if i == 0 {
            proof {
                assert(find_back(hay@, needle@, -1) is None);
            }
            return None;
        }
        i = i - 1;
    }
}

/// The pieces of `s` between its spaces, from index `from` on. Two spaces
/// in a row have an empty piece between them, and a space at the end has an
/// empty piece after it.
pub open spec fn split_from(s: Seq<char>, from: int) -> Seq<Seq<char>>
    decreases s.len() - from,
{
    match find_from(s, seq![' '], from) {
        Some(i) => if from <= i < s.len() {
            seq![s.subrange(from, i)] + split_from(s, i + 1)
        } else {
            seq![s.subrange(from, s.len() as int)]
        },
        None => seq![s.subrange(from, s.len() as int)],
    }
}

/// The pieces of `s` between its spaces; never empty.
pub open spec fn split_words(s: Seq<char>) -> Seq<Seq<char>> {
    split_from(s, 0)
}

/// The pieces with a space between each two of them.
pub open spec fn joined(pieces: Seq<Seq<char>>) -> Seq<char>
    decreases pieces.len(),
{
    if pieces.len() == 0 {
        Seq::empty()
    } else if pieces.len() == 1 {
        pieces[0]
    } else {
        pieces[0] + seq![' '] + joined(pieces.drop_first())
    }
}

/// The pieces between the spaces hold no space, and with the spaces put
/// back between them they are the text again.
pub proof fn lemma_split_from(s: Seq<char>, from: int)
    requires
        0 <= from <= s.len(),
    ensures
        split_from(s, from).len() > 0,
        forall|k: int|
            0 <= k < split_from(s, from).len() ==> !(#[trigger] split_from(s, from)[k]).contains(
                ' ',
            ),
        joined(split_from(s, from)) == s.skip(from),
    decreases s.len() - from,
{
    let pieces = split_from(s, from);
    lemma_find_from(s, seq![' '], from);
    match find_from(s, seq![' '], from) {
        Some(i) => {
            assert(s.subrange(i, i + 1)[0] == ' ');
            let head = s.subrange(from, i);
            let rest = split_from(s, i + 1);
            lemma_split_from(s, i + 1);
            assert(pieces == seq![head] + rest);
            assert(pieces.drop_first() =~= rest);
            assert(!head.contains(' ')) by {
                if head.contains(' ') {
                    let k = choose|k: int| 0 <= k < head.len() && head[k] == ' ';
                    assert(s.subrange(from + k, from + k + 1) =~= seq![' ']);
                    assert(occurs_at(s, seq![' '], from + k));
                }
            }
            assert forall|k: int| 0 <= k < pieces.len() implies !(#[trigger] pieces[k]).contains(
                ' ',
            ) by {
                if k > 0 {
                    assert(pieces[k] == rest[k - 1]);
                }
            }
            assert(joined(pieces) =~= s.skip(from));
        },
        None => {
            let whole = s.subrange(from, s.len() as int);
            assert(!whole.contains(' ')) by {
                if whole.contains(' ') {
                    let k = choose|k: int| 0 <= k < whole.len() && whole[k] == ' ';
                    assert(s.subrange(from + k, from + k + 1) =~= seq![' ']);
                    assert(occurs_at(s, seq![' '], from + k));
                }
            }
            assert(whole =~= s.skip(from));
        },
    }
}

/// Splits `s` at each space.
pub fn split_at_spaces(s: &[char]) -> (pieces: Vec<Vec<char>>)
    ensures
        pieces.deep_view() == split_words(s@),
{
    let space: [char; 1] = [' '];
    proof {
        assert(space@ =~= seq![' ']);
    }
    let mut pieces: Vec<Vec<char>> = Vec::new();
    let end: usize = s.len();
    let mut from: usize = 0;
    loop
        invariant
            from <= s@.len() == end,
            space@ == seq![' '],
            split_words(s@) == pieces.deep_view() + split_from(s@, from as int),
        decreases s@.len() - from,
    {
        let ghost before = pieces.deep_view();
        proof {
            lemma_find_from(s@, seq![' '], from as int);
        }
        match find(s, space.as_slice(), from) {
            Some(i) => {
                let piece = vstd::slice::slice_to_vec(vstd::slice::slice_subrange(s, from, i));
                let ghost p = piece@;
                proof {
                    assert(piece.deep_view() =~= p);
                }
                pieces.push(piece);
                proof {
                    assert(pieces.deep_view() =~= before.push(p));
                    assert(before + (seq![p] + split_from(s@, i + 1)) =~= before.push(p)
                        + split_from(s@, i + 1));
                }
                from = i + 1;
            },
            None => {
                let piece = vstd::slice::slice_to_vec(vstd::slice::slice_subrange(s, from, end));
                let ghost p = piece@;
                proof {
                    assert(piece.deep_view() =~= p);
                }
                pieces.push(piece);
                proof {
                    assert(pieces.deep_view() =~= before.push(p));
                    assert(before + seq![p] =~= before.push(p));
                }
                return pieces;
            },
        }
    }
}

} // verus!
