//! What holds across encoding and decoding.
use vstd::prelude::*;
use vstd::utf8::*;

use crate::codec::{all_decodable, decoded_text, fragments, piece, text_of_bytes, MAX_CHARS};
use crate::felt::render_hex;
use crate::hex_text::{
    canonical_digits, digits_value, hex_decodable, hex_digit, hex_of, hex_pairs, hex_val,
    is_hex_char, is_lower_hex_char, lemma_digit_round_trip, lemma_hex_of_digits_value,
};

verus! {

broadcast use {encode_utf8_valid_utf8, encode_utf8_decode_utf8};

/// A character whose scalar value is written with exactly two hexadecimal
/// digits and whose UTF-8 encoding is that one byte.
pub open spec fn two_digit_ascii(c: char) -> bool {
    '\u{10}' <= c <= '\u{7f}'
}

proof fn lemma_two_digits(c: char)
    requires
        two_digit_ascii(c),
    ensures
        hex_of(c as u32 as nat) == seq![
            hex_digit((c as u32 / 16) as nat),
            hex_digit((c as u32 % 16) as nat),
        ],
        1 <= c as u32 / 16 < 8,
{
    let n = c as u32 as nat;
    assert(hex_of(n / 16) == seq![hex_digit(n / 16)]);
}

/// For such characters, the fragments are two digits per character.
proof fn lemma_fragments_of_ascii(s: Seq<char>)
    requires
        forall|i: int| 0 <= i < s.len() ==> two_digit_ascii(#[trigger] s[i]),
    ensures
        fragments(s).len() == 2 * s.len(),
        forall|i: int|
            0 <= i < s.len() ==> fragments(s)[2 * i] == hex_digit((#[trigger] s[i] as u32 / 16) as nat)
                && fragments(s)[2 * i + 1] == hex_digit((s[i] as u32 % 16) as nat),
    decreases s.len(),
{
    if s.len() > 0 {
        let p = s.drop_last();
        lemma_fragments_of_ascii(p);
        lemma_two_digits(s.last());
        assert forall|i: int| 0 <= i < s.len() implies fragments(s)[2 * i] == hex_digit(
            (#[trigger] s[i] as u32 / 16) as nat,
        ) && fragments(s)[2 * i + 1] == hex_digit((s[i] as u32 % 16) as nat) by {
            if i < p.len() {
                assert(s[i] == p[i]);
            }
        }
    }
}

/// Decoding the encoding of a non-empty string of at most `MAX_CHARS`
/// characters, each with a scalar value from 0x10 to 0x7f, gives the string back.
/// (The empty string encodes to zero, which renders as the odd-length "0";
/// other characters render to fragments that do not spell their UTF-8 bytes.)
pub proof fn lemma_ascii_round_trip(s: Seq<char>)
    requires
        0 < s.len() <= MAX_CHARS,
        forall|i: int| 0 <= i < s.len() ==> two_digit_ascii(#[trigger] s[i]),
    ensures
        all_decodable(seq![digits_value(fragments(s)) as int]),
        decoded_text(seq![digits_value(fragments(s)) as int]) == s,
{
    let f = fragments(s);
    let v = digits_value(f) as int;
    lemma_fragments_of_ascii(s);
    assert forall|k: int| 0 <= k < f.len() implies is_hex_char(#[trigger] f[k])
        && is_lower_hex_char(f[k]) by {
        let i = k / 2;
        assert(k == 2 * i || k == 2 * i + 1);
        lemma_two_digits(s[i]);
        lemma_digit_round_trip((s[i] as u32 / 16) as nat);
        lemma_digit_round_trip((s[i] as u32 % 16) as nat);
    }
    lemma_two_digits(s[0]);
    assert(f[0] != 48u8);
    assert(canonical_digits(f));
    lemma_hex_of_digits_value(f);
    assert(render_hex(v) == f);
    assert(hex_decodable(f));
    let vs = seq![v];
    assert(all_decodable(vs));
    let bytes = hex_pairs(f);
    assert forall|i: int| 0 <= i < s.len() implies '\0' <= #[trigger] s[i] <= '\u{7f}' by {
        assert(two_digit_ascii(s[i]));
    }
    assert(is_ascii_chars(s));
    is_ascii_chars_encode_utf8(s);
    assert forall|i: int| 0 <= i < s.len() implies bytes[i] == encode_utf8(s)[i] by {
        let c = s[i] as u32;
        lemma_two_digits(s[i]);
        lemma_digit_round_trip((c / 16) as nat);
        lemma_digit_round_trip((c % 16) as nat);
        assert(bytes[i] == (hex_val(f[2 * i]) * 16 + hex_val(f[2 * i + 1])) as u8);
        assert((c / 16) * 16 + c % 16 == c);
        assert(s[i] as u8 == c as u8);
    }
    assert(bytes =~= encode_utf8(s));
    assert(text_of_bytes(bytes) == s);
    assert(piece(v) == s);
    assert(vs.drop_last() =~= Seq::<int>::empty());
    assert(decoded_text(vs) == decoded_text(vs.drop_last()) + piece(v));
    assert(decoded_text(vs) =~= s);
}

/// Decoding two runs of felts one after the other succeeds exactly when each
/// run decodes, and gives the two texts joined in order.
pub proof fn lemma_decode_concat(a: Seq<int>, b: Seq<int>)
    ensures
        all_decodable(a + b) <==> all_decodable(a) && all_decodable(b),
        decoded_text(a + b) == decoded_text(a) + decoded_text(b),
    decreases b.len(),
{
    let ab = a + b;
    if all_decodable(ab) {
        assert forall|i: int| 0 <= i < a.len() implies hex_decodable(render_hex(#[trigger] a[i])) by {
            assert(ab[i] == a[i]);
        }
        assert forall|i: int| 0 <= i < b.len() implies hex_decodable(render_hex(#[trigger] b[i])) by {
            assert(ab[a.len() + i] == b[i]);
        }
    }
    if all_decodable(a) && all_decodable(b) {
        assert forall|i: int| 0 <= i < ab.len() implies hex_decodable(render_hex(#[trigger] ab[i])) by {
            if i < a.len() {
                assert(ab[i] == a[i]);
            } else {
                assert(ab[i] == b[i - a.len()]);
            }
        }
    }
    if b.len() == 0 {
        assert(ab =~= a);
        assert(decoded_text(b) == Seq::<char>::empty());
        assert(decoded_text(a) + decoded_text(b) =~= decoded_text(a));
    } else {
        let bp = b.drop_last();
        lemma_decode_concat(a, bp);
        assert(ab.drop_last() =~= a + bp);
        assert(ab.last() == b.last());
        assert(decoded_text(a) + decoded_text(b) =~= decoded_text(a) + decoded_text(bp) + piece(b.last()));
    }
}

} // verus!
