//! The layout of corpus lines and index keys.
//!
//! A corpus line is an index key followed by sixteen hexadecimal digits: the
//! document's identifier. An index key is a sentence followed by eight
//! hexadecimal digits: the sentence's position in its document.

use crate::error::IndexError;
use crate::hex::{
    digit_bytes, hex_alphabet, hex_digits, hex_value, is_hex, lemma_hex_digits_are_digits,
    lemma_hex_limits, lemma_hex_round_trip, lemma_hex_value_bound, parse_hex,
};
use crate::query::{holds_at, holds_literal};
use crate::text::text_of;
use crate::order::Entry;
use vstd::prelude::*;
use vstd::slice::{slice_subrange, slice_to_vec};
use vstd::utf8::{
    decode_utf8, decode_utf8_encode_utf8, encode_utf8, encode_utf8_decode_utf8,
    encode_utf8_valid_utf8, is_ascii_chars, is_ascii_chars_encode_utf8, valid_utf8,
};

verus! {

/// The number of digits that end a corpus line.
pub const DOCUMENT_DIGITS: usize = 16;

/// The number of digits that end an index key.
pub const POSITION_DIGITS: usize = 8;

/// A decoded match: the sentence, its position and its document.
pub type Match = (Seq<char>, u32, u64);

/// The entry that a corpus line stands for: the bytes before the last
/// sixteen as the key, and the number that the last sixteen write as the
/// value. `None` for a line that does not end in sixteen hexadecimal digits.
pub open spec fn build_entry(line: Seq<u8>) -> Option<Entry> {
    let cut = line.len() - DOCUMENT_DIGITS;
    if cut >= 0 && is_hex(line.skip(cut)) {
        Some((line.take(cut), hex_value(line.skip(cut)) as u64))
    } else {
        None
    }
}

/// The match that an index entry stands for: the bytes before the last eight
/// read as UTF-8, the number that the last eight write, and the value.
/// `None` for a key whose text is not UTF-8 or that does not end in eight
/// hexadecimal digits.
pub open spec fn decoded(key: Seq<u8>, value: u64) -> Option<Match> {
    let cut = key.len() - POSITION_DIGITS;
    if cut >= 0 && valid_utf8(key.take(cut)) && is_hex(key.skip(cut)) {
        Some((decode_utf8(key.take(cut)), hex_value(key.skip(cut)) as u32, value))
    } else {
        None
    }
}

/// Splits a corpus line into the key and the value of its index entry.
pub fn encode_build_key(line: &[u8]) -> (entry: Result<(Vec<u8>, u64), IndexError>)
    ensures
        match entry {
            Ok(e) => build_entry(line@) == Some((e.0@, e.1)),
            Err(e) => e == IndexError::Encoding && build_entry(line@) is None,
        },
{
    if line.len() < DOCUMENT_DIGITS {
        return Err(IndexError::Encoding);
    }
    let cut: usize = line.len() - DOCUMENT_DIGITS;
    let digits = slice_subrange(line, cut, line.len());
    proof {
        assert(digits@ =~= line@.skip(cut as int));
        lemma_hex_value_bound(digits@);
        lemma_hex_limits();
    }
    match parse_hex(digits) {
        Some(value) => {
            let key = slice_to_vec(slice_subrange(line, 0, cut));
            proof {
                assert(key@ =~= line@.take(cut as int));
            }
            Ok((key, value))
        },
        None => Err(IndexError::Encoding),
    }
}

/// Decodes an index entry into the sentence, its position and its document.
pub fn decode_match(key: &[u8], value: u64) -> (found: Result<(String, u32, u64), IndexError>)
    ensures
        match found {
            Ok(m) => decoded(key@, value) == Some((m.0@, m.1, m.2)),
            Err(e) => e == IndexError::Encoding && decoded(key@, value) is None,
        },
{
    if key.len() < POSITION_DIGITS {
        return Err(IndexError::Encoding);
    }
    let cut: usize = key.len() - POSITION_DIGITS;
    let digits = slice_subrange(key, cut, key.len());
    let text = slice_to_vec(slice_subrange(key, 0, cut));
    proof {
        assert(digits@ =~= key@.skip(cut as int));
        assert(text@ =~= key@.take(cut as int));
        lemma_hex_value_bound(digits@);
        lemma_hex_limits();
    }
    let sentence = match text_of(text) {
        Some(s) => s,
        None => {
            return Err(IndexError::Encoding);
        },
    };
    match parse_hex(digits) {
        Some(n) => Ok((sentence, n as u32, value)),
        None => Err(IndexError::Encoding),
    }
}

/// A line made of a key and the document's identifier in sixteen digits
/// gives back the key and the identifier.
pub proof fn lemma_written_line_is_read(key: Seq<u8>, document: u64)
    ensures
        build_entry(key + digit_bytes(hex_digits(document as nat, 16))) == Some((key, document)),
{
    let digits = digit_bytes(hex_digits(document as nat, 16));
    let line = key + digits;
    lemma_hex_round_trip(document as nat, 16);
    lemma_hex_limits();
    assert(line.skip(line.len() - 16) =~= digits);
    assert(line.take(line.len() - 16) =~= key);
}

/// A key made of a sentence and its position in eight digits decodes to the
/// sentence and the position.
pub proof fn lemma_written_key_is_read(sentence: Seq<u8>, position: u32, document: u64)
    requires
        valid_utf8(sentence),
    ensures
        decoded(sentence + digit_bytes(hex_digits(position as nat, 8)), document) == Some(
            (decode_utf8(sentence), position, document),
        ),
{
    let digits = digit_bytes(hex_digits(position as nat, 8));
    let key = sentence + digits;
    lemma_hex_round_trip(position as nat, 8);
    lemma_hex_limits();
    assert(key.skip(key.len() - 8) =~= digits);
    assert(key.take(key.len() - 8) =~= sentence);
}

/// Two texts in a row are encoded as the one and then the other.
pub proof fn lemma_encode_in_a_row(a: Seq<char>, b: Seq<char>)
    ensures
        encode_utf8(a + b) == encode_utf8(a) + encode_utf8(b),
    decreases a.len(),
{
    if a.len() == 0 {
        assert(a + b =~= b);
        assert(encode_utf8(a) + encode_utf8(b) =~= encode_utf8(b));
    } else {
        assert((a + b).drop_first() =~= a.drop_first() + b);
        assert((a + b)[0] == a[0]);
        lemma_encode_in_a_row(a.drop_first(), b);
        assert(encode_utf8(a + b) =~= encode_utf8(a) + encode_utf8(b));
    }
}

/// The text of a key is the sentence followed by the eight digits of the
/// position.
pub proof fn lemma_key_text(sentence: Seq<u8>, position: u32)
    requires
        valid_utf8(sentence),
    ensures
        valid_utf8(sentence + digit_bytes(hex_digits(position as nat, 8))),
        decode_utf8(sentence + digit_bytes(hex_digits(position as nat, 8))) == decode_utf8(
            sentence,
        ) + hex_digits(position as nat, 8),
{
    let digits = hex_digits(position as nat, 8);
    let text = decode_utf8(sentence);
    lemma_hex_digits_are_digits(position as nat, 8);
    assert(is_ascii_chars(digits)) by {
        assert forall|i: int| 0 <= i < digits.len() implies '\0' <= #[trigger] digits[i]
            <= '\u{7f}' by {
            let k = choose|k: int| 0 <= k < 16 && hex_alphabet()[k] == digits[i];
            assert(hex_alphabet()[k] <= 'f');
        }
    }
    is_ascii_chars_encode_utf8(digits);
    assert(encode_utf8(digits) =~= digit_bytes(digits));
    decode_utf8_encode_utf8(sentence);
    lemma_encode_in_a_row(text, digits);
    encode_utf8_valid_utf8(text + digits);
    encode_utf8_decode_utf8(text + digits);
}

/// A key holds what its sentence holds: the digits of the position are no
/// line feed.
pub proof fn lemma_key_holds_what_sentence_holds(
    sentence: Seq<u8>,
    position: u32,
    literal: Seq<char>,
)
    requires
        holds_literal(sentence, literal),
    ensures
        holds_literal(sentence + digit_bytes(hex_digits(position as nat, 8)), literal),
{
    let digits = hex_digits(position as nat, 8);
    let text = decode_utf8(sentence);
    let all = text + digits;
    lemma_key_text(sentence, position);
    lemma_hex_digits_are_digits(position as nat, 8);
    let i = choose|i: int| holds_at(text, literal, i);
    assert(all.subrange(i, i + literal.len()) =~= text.subrange(i, i + literal.len()));
    assert(all.take(i) =~= text.take(i));
    let after = all.skip(i + literal.len());
    assert(after =~= text.skip(i + literal.len()) + digits);
    if after.contains('\n') {
        let j = choose|j: int| 0 <= j < after.len() && after[j] == '\n';
        let cut = text.skip(i + literal.len()).len();
        if j < cut {
            assert(text.skip(i + literal.len())[j] == '\n');
        } else {
            let k = choose|k: int| 0 <= k < 16 && hex_alphabet()[k] == digits[j - cut];
            assert(hex_alphabet()[k] != '\n');
        }
    }
    assert(holds_at(all, literal, i));
}

} // verus!
