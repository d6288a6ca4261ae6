//! Hexadecimal fields: the fixed-width identifiers of keys, lines and results.

use vstd::prelude::*;

verus! {

/// Whether `b` is an ASCII hexadecimal digit, of either case.
pub open spec fn is_hex_digit(b: u8) -> bool {
    (0x30 <= b <= 0x39) || (0x61 <= b <= 0x66) || (0x41 <= b <= 0x46)
}

/// The value of a hexadecimal digit; 0 for any other byte.
pub open spec fn hex_digit_value(b: u8) -> nat {
    if 0x30 <= b <= 0x39 {
        (b - 0x30) as nat
    } else if 0x61 <= b <= 0x66 {
        (b - 0x61 + 10) as nat
    } else if 0x41 <= b <= 0x46 {
        (b - 0x41 + 10) as nat
    } else {
        0
    }
}

/// Whether every byte of `s` is a hexadecimal digit.
pub open spec fn is_hex(s: Seq<u8>) -> bool {
    forall|i: int| 0 <= i < s.len() ==> is_hex_digit(#[trigger] s[i])
}

/// The number that the digits of `s` write, most significant digit first.
pub open spec fn hex_value(s: Seq<u8>) -> nat
    decreases s.len(),
{
    if s.len() == 0 {
        0
    } else {
        16 * hex_value(s.drop_last()) + hex_digit_value(s.last())
    }
}

/// Sixteen to the power `n`: one more than the largest value of `n` digits.
pub open spec fn hex_limit(n: nat) -> nat
    decreases n,
{
    if n == 0 {
        1
    } else {
        16 * hex_limit((n - 1) as nat)
    }
}

/// The sixteen lowercase digits, in the order of their values.
pub open spec fn hex_alphabet() -> Seq<char> {
    seq!['0', '1', '2', '3', '4', '5', '6', '7', '8', '9', 'a', 'b', 'c', 'd', 'e', 'f']
}

/// The lowercase digit that writes `v`, for `v` below sixteen.
pub open spec fn hex_digit_char(v: nat) -> char {
    hex_alphabet()[v as int]
}

/// `value` written in exactly `width` lowercase digits, zero-padded on the
/// left; the digits above `width` are dropped.
pub open spec fn hex_digits(value: nat, width: nat) -> Seq<char>
    decreases width,
{
    if width == 0 {
        Seq::empty()
    } else {
        hex_digits(value / 16, (width - 1) as nat).push(hex_digit_char(value % 16))
    }
}

/// The bytes of a text whose characters are all ASCII.
pub open spec fn digit_bytes(digits: Seq<char>) -> Seq<u8> {
    digits.map_values(|c: char| c as u8)
}

/// More digits reach further.
pub proof fn lemma_hex_limit_increases(a: nat, b: nat)
    requires
        a <= b,
    ensures
        hex_limit(a) <= hex_limit(b),
    decreases b,
{
    if a < b {
        lemma_hex_limit_increases(a, (b - 1) as nat);
    }
}

/// `n` digits write a value below sixteen to the `n`.
pub proof fn lemma_hex_value_bound(s: Seq<u8>)
    ensures
        hex_value(s) < hex_limit(s.len()),
    decreases s.len(),
{
    if s.len() > 0 {
        lemma_hex_value_bound(s.drop_last());
    }
}

/// Eight digits stay below 2 to the 32, sixteen digits below 2 to the 64.
pub proof fn lemma_hex_limits()
    ensures
        hex_limit(8) == 0x1_0000_0000,
        hex_limit(16) == 0x1_0000_0000_0000_0000,
{
    reveal_with_fuel(hex_limit, 17);
}

/// Each lowercase digit is read back with the value it was written for.
pub proof fn lemma_digit_char_value(v: nat)
    requires
        v < 16,
    ensures
        is_hex_digit(hex_digit_char(v) as u8),
        hex_digit_value(hex_digit_char(v) as u8) == v,
{
    let table = hex_alphabet();
    assert(table[0] == '0' && table[1] == '1' && table[2] == '2' && table[3] == '3');
    assert(table[4] == '4' && table[5] == '5' && table[6] == '6' && table[7] == '7');
    assert(table[8] == '8' && table[9] == '9' && table[10] == 'a' && table[11] == 'b');
    assert(table[12] == 'c' && table[13] == 'd' && table[14] == 'e' && table[15] == 'f');
}

/// What is written holds `width` characters, each of them one of the
/// sixteen digits.
pub proof fn lemma_hex_digits_are_digits(value: nat, width: nat)
    ensures
        hex_digits(value, width).len() == width,
        forall|i: int|
            0 <= i < width ==> hex_alphabet().contains(#[trigger] hex_digits(value, width)[i]),
    decreases width,
{
    if width > 0 {
        let high = hex_digits(value / 16, (width - 1) as nat);
        lemma_hex_digits_are_digits(value / 16, (width - 1) as nat);
        assert forall|i: int| 0 <= i < width implies hex_alphabet().contains(
            #[trigger] hex_digits(value, width)[i],
        ) by {
            if i < width - 1 {
                assert(hex_digits(value, width)[i] == high[i]);
            } else {
                assert(hex_digits(value, width)[i] == hex_alphabet()[(value % 16) as int]);
            }
        }
    }
}

/// A number written in `width` digits is read back as it was, up to the
/// digits that did not fit.
pub proof fn lemma_hex_round_trip(value: nat, width: nat)
    ensures
        digit_bytes(hex_digits(value, width)).len() == width,
        is_hex(digit_bytes(hex_digits(value, width))),
        hex_value(digit_bytes(hex_digits(value, width))) == value % hex_limit(width),
    decreases width,
{
    if width > 0 {
        let high = hex_digits(value / 16, (width - 1) as nat);
        let low = hex_digit_char(value % 16);
        let bytes = digit_bytes(hex_digits(value, width));
        lemma_hex_round_trip(value / 16, (width - 1) as nat);
        lemma_digit_char_value(value % 16);
        assert(bytes.drop_last() =~= digit_bytes(high));
        assert(bytes.last() == low as u8);
        assert forall|i: int| 0 <= i < bytes.len() implies is_hex_digit(#[trigger] bytes[i]) by {
            if i < bytes.len() - 1 {
                assert(bytes[i] == digit_bytes(high)[i]);
            }
        }
        lemma_hex_limit_increases(0, (width - 1) as nat);
        vstd::arithmetic::div_mod::lemma_mod_breakdown(
            value as int,
            16,
            hex_limit((width - 1) as nat) as int,
        );
    } else {
        assert(digit_bytes(hex_digits(value, width)) =~= Seq::<u8>::empty());
    }
}

/// The value of one digit, or `None` for a byte that is no digit.
pub fn digit_value(b: u8) -> (v: Option<u8>)
    ensures
        v is Some <==> is_hex_digit(b),
        v matches Some(d) ==> d == hex_digit_value(b) && d < 16,
{
    if 0x30 <= b && b <= 0x39 {
        Some(b - 0x30)
    } else if 0x61 <= b && b <= 0x66 {
        Some(b - 0x61 + 10)
    } else if 0x41 <= b && b <= 0x46 {
        Some(b - 0x41 + 10)
    } else {
        None
    }
}

/// The digits read so far never write more than all of them.
pub proof fn lemma_hex_value_grows(s: Seq<u8>, k: int)
    requires
        0 <= k <= s.len(),
    ensures
        hex_value(s.take(k)) <= hex_value(s),
    decreases s.len() - k,
{
    if k < s.len() {
        assert(s.take(k + 1).drop_last() =~= s.take(k));
        lemma_hex_value_grows(s, k + 1);
    } else {
        assert(s.take(k) =~= s);
    }
}

/// Reads a field of hexadecimal digits. A sign, a space or any other byte
/// that is no digit makes the field invalid, and so does a value that does
/// not fit in 64 bits.
pub fn parse_hex(digits: &[u8]) -> (v: Option<u64>)
    ensures
        v is Some <==> is_hex(digits@) && hex_value(digits@) <= u64::MAX,
        v matches Some(n) ==> n == hex_value(digits@),
{
    let mut acc: u64 = 0;
    let mut i: usize = 0;
    while i < digits.len()
        invariant
            i <= digits@.len(),
            is_hex(digits@.take(i as int)),
            acc == hex_value(digits@.take(i as int)),
        decreases digits@.len() - i,
    {
        let d = match digit_value(digits[i]) {
            Some(d) => d,
            None => {
                return None;
            },
        };
        proof {
            let before = digits@.take(i as int);
            let after = digits@.take(i + 1);
            assert(after.drop_last() =~= before);
            assert(after.last() == digits@[i as int]);
            assert forall|j: int| 0 <= j < after.len() implies is_hex_digit(#[trigger] after[j]) by {
                if j < i {
                    assert(after[j] == before[j]);
                }
            }
        }
        if acc > u64::MAX / 16 {
            proof {
                lemma_hex_value_grows(digits@, i + 1);
            }
            return None;
        }
        acc = acc * 16 + d as u64;
        i = i + 1;
    }
    proof {
        assert(digits@.take(i as int) =~= digits@);
    }
    Some(acc)
}

/// The lowercase digit that writes `v`.
fn digit_char(v: u8) -> (c: char)
    requires
        v < 16,
    ensures
        c == hex_digit_char(v as nat),
{
    let table: [char; 16] = [
        '0',
        '1',
        '2',
        '3',
        '4',
        '5',
        '6',
        '7',
        '8',
        '9',
        'a',
        'b',
        'c',
        'd',
        'e',
        'f',
    ];
    proof {
        assert(table@ =~= hex_alphabet());
    }
    table[v as usize]
}

/// Appends `value` in `width` lowercase digits to `out`.
pub fn push_hex(out: &mut Vec<char>, value: u64, width: usize)
    ensures
        final(out)@ == old(out)@ + hex_digits(value as nat, width as nat),
    decreases width,
{
    if width > 0 {
        push_hex(out, value / 16, width - 1);
        out.push(digit_char((value % 16) as u8));
    }
}

} // verus!
