//! The match pattern of a query, the keys that it accepts, and the
//! completion word that a matching sentence offers.

use crate::text::{
    chars_of, find, find_from, lemma_find_from, occurs_at, stands_in, string_of,
};
use vstd::prelude::*;
use vstd::utf8::{decode_utf8, valid_utf8};

verus! {

/// Whether `c` has a meaning of its own in a pattern.
pub open spec fn is_meta(c: char) -> bool {
    c == '\\' || c == '.' || c == '+' || c == '*' || c == '?' || c == '(' || c == ')' || c == '|'
        || c == '[' || c == ']' || c == '{' || c == '}' || c == '^' || c == '$' || c == '#'
}

/// `word` with a backslash before each character that has a meaning of its
/// own in a pattern, so that the pattern stands for the word itself.
pub open spec fn escaped(word: Seq<char>) -> Seq<char>
    decreases word.len(),
{
    if word.len() == 0 {
        Seq::empty()
    } else if is_meta(word.last()) {
        escaped(word.drop_last()).push('\\').push(word.last())
    } else {
        escaped(word.drop_last()).push(word.last())
    }
}

/// The pattern of what holds `literal`: any text, the literal itself, any
/// text. In a pattern `.` stands for any character but a line feed.
pub open spec fn substring_pattern(literal: Seq<char>) -> Seq<char> {
    seq!['.', '*'] + escaped(literal) + seq!['.', '*']
}

/// `word` as a token of its own: between a space and a space.
pub open spec fn token_of(word: Seq<char>) -> Seq<char> {
    seq![' '] + word + seq![' ']
}

/// Whether `literal` stands in `text` at index `i`, with no line feed
/// before it and none after it.
pub open spec fn holds_at(text: Seq<char>, literal: Seq<char>, i: int) -> bool {
    &&& occurs_at(text, literal, i)
    &&& !text.take(i).contains('\n')
    &&& !text.skip(i + literal.len()).contains('\n')
}

/// Whether `key` is UTF-8 text that holds `literal`, with no line feed
/// before it and none after it.
pub open spec fn holds_literal(key: Seq<u8>, literal: Seq<char>) -> bool {
    valid_utf8(key) && exists|i: int| holds_at(decode_utf8(key), literal, i)
}

/// The keys that hold `literal`.
pub open spec fn holding(literal: Seq<char>) -> Set<Seq<u8>> {
    Set::new(|key: Seq<u8>| holds_literal(key, literal))
}

/// The word that `sentence` offers as a completion of `prefix`: what stands
/// from the first occurrence of the prefix up to the next space or the end.
/// A sentence without the prefix offers no word.
pub open spec fn completion(sentence: Seq<char>, prefix: Seq<char>) -> Option<Seq<char>> {
    match find_from(sentence, prefix, 0) {
        None => None,
        Some(start) => {
            let end = match find_from(sentence, seq![' '], start) {
                Some(j) => j,
                None => sentence.len() as int,
            };
            Some(sentence.subrange(start, end))
        },
    }
}

/// A completion word stands in the sentence and holds no space; it starts
/// with the prefix where the prefix holds no space.
pub proof fn lemma_completion(sentence: Seq<char>, prefix: Seq<char>)
    ensures
        completion(sentence, prefix) matches Some(word) ==> {
            &&& !word.contains(' ')
            &&& stands_in(sentence, word)
            &&& !prefix.contains(' ') ==> prefix.is_prefix_of(word)
        },
{
    if let Some(word) = completion(sentence, prefix) {
        let start = find_from(sentence, prefix, 0)->0;
        lemma_find_from(sentence, prefix, 0);
        lemma_find_from(sentence, seq![' '], start);
        let end = match find_from(sentence, seq![' '], start) {
            Some(j) => j,
            None => sentence.len() as int,
        };
        assert(sentence.subrange(start, start + word.len()) =~= word);
        assert(occurs_at(sentence, word, start));
        if word.contains(' ') {
            let k = choose|k: int| 0 <= k < word.len() && word[k] == ' ';
            assert(sentence.subrange(start + k, start + k + 1) =~= seq![' ']);
            assert(occurs_at(sentence, seq![' '], start + k));
        }
        if !prefix.contains(' ') {
            if end < start + prefix.len() {
                assert(sentence.subrange(end, end + 1)[0] == ' ');
                assert(sentence.subrange(start, start + prefix.len())[end - start] == ' ');
                assert(prefix[end - start] == ' ');
            }
            assert(prefix =~= word.subrange(0, prefix.len() as int));
        }
    }
}

/// Tests whether `c` has a meaning of its own in a pattern.
pub fn is_meta_char(c: char) -> (meta: bool)
    ensures
        meta == is_meta(c),
{
    c == '\\' || c == '.' || c == '+' || c == '*' || c == '?' || c == '(' || c == ')' || c == '|'
        || c == '[' || c == ']' || c == '{' || c == '}' || c == '^' || c == '$' || c == '#'
}

/// Appends the escaped form of `word` to `out`.
fn push_escaped(out: &mut Vec<char>, word: &[char])
    ensures
        final(out)@ == old(out)@ + escaped(word@),
{
    let ghost start = out@;
    let mut i: usize = 0;
    while i < word.len()
        invariant
            i <= word@.len(),
            out@ == start + escaped(word@.take(i as int)),
        decreases word@.len() - i,
    {
        proof {
            assert(word@.take(i + 1).drop_last() =~= word@.take(i as int));
        }
        let c = word[i];
        if is_meta_char(c) {
            out.push('\\');
        }
        out.push(c);
        proof {
            assert(out@ =~= start + escaped(word@.take(i + 1)));
        }
        i = i + 1;
    }
    proof {
        assert(word@.take(i as int) =~= word@);
    }
}

/// Makes the pattern of what holds `literal`.
pub fn build_substring_pattern(literal: &[char]) -> (pattern: String)
    ensures
        pattern@ == substring_pattern(literal@),
{
    let mut out: Vec<char> = Vec::new();
    out.push('.');
    out.push('*');
    push_escaped(&mut out, literal);
    out.push('.');
    out.push('*');
    proof {
        assert(out@ =~= substring_pattern(literal@));
    }
    string_of(out.as_slice())
}

/// Puts `word` between a space and a space.
pub fn token(word: &str) -> (literal: Vec<char>)
    ensures
        literal@ == token_of(word@),
{
    let chars = chars_of(word);
    let mut literal: Vec<char> = Vec::new();
    literal.push(' ');
    let mut i: usize = 0;
    while i < chars.len()
        invariant
            i <= chars@.len(),
            literal@ == seq![' '] + chars@.take(i as int),
        decreases chars@.len() - i,
    {
        literal.push(chars[i]);
        proof {
            assert(literal@ =~= seq![' '] + chars@.take(i + 1));
        }
        i = i + 1;
    }
    literal.push(' ');
    proof {
        assert(chars@.take(i as int) =~= chars@);
        assert(literal@ =~= token_of(word@));
    }
    literal
}

/// Cuts the completion word out of the characters of a sentence.
pub fn completion_of(sentence: &[char], prefix: &[char]) -> (word: Option<Vec<char>>)
    ensures
        word.deep_view() == completion(sentence@, prefix@),
{
    let start: usize = match find(sentence, prefix, 0) {
        Some(i) => i,
        None => {
            return None;
        },
    };
    let space: [char; 1] = [' '];
    proof {
        assert(space@ =~= seq![' ']);
    }
    let end: usize = match find(sentence, space.as_slice(), start) {
        Some(j) => j,
        None => sentence.len(),
    };
    proof {
        lemma_find_from(sentence@, prefix@, 0);
        lemma_find_from(sentence@, seq![' '], start as int);
    }
    let mut word: Vec<char> = Vec::new();
    let mut i: usize = start;
    while i < end
        invariant
            start <= i <= end <= sentence@.len(),
            word@ == sentence@.subrange(start as int, i as int),
        decreases end - i,
    {
        word.push(sentence[i]);
        proof {
            assert(word@ =~= sentence@.subrange(start as int, i + 1));
        }
        i = i + 1;
    }
    proof {
        assert(word.deep_view() =~= word@);
    }
    Some(word)
}

/// The completion word that `sentence` offers for `prefix`, if it offers
/// one.
pub fn completion_word(sentence: &str, prefix: &str) -> (word: Option<String>)
    ensures
        word.deep_view() == completion(sentence@, prefix@),
{
    let s = chars_of(sentence);
    let p = chars_of(prefix);
    match completion_of(s.as_slice(), p.as_slice()) {
        Some(w) => {
            proof {
                assert(w.deep_view() =~= w@);
            }
            Some(string_of(w.as_slice()))
        },
        None => None,
    }
}

} // verus!
