//! Encoding a short string as a felt, and decoding a run of felts into text.
use vstd::prelude::*;
use vstd::string::*;
use vstd::utf8::*;

use crate::felt::{canonical_bytes, hex_rendering, parse_hex_digits, render_hex, Felt};
use crate::hex_text::{
    digits_value, hex_decodable, hex_of, hex_pairs, is_lower_hex_char, push_hex,
};

verus! {

/// The most characters a felt can encode.
pub const MAX_CHARS: usize = 31;

/// Why a conversion failed.
#[derive(Clone, Copy, Debug, PartialEq, Eq, Structural)]
pub enum FeltError {
    /// The string has more than `MAX_CHARS` characters.
    InputTooLong,
    /// A felt's base-16 rendering does not split into whole bytes.
    HexDecodeError,
}

impl FeltError {
    /// The message that describes this error.
    pub fn message(&self) -> (r: &'static str)
        ensures
            *self == FeltError::InputTooLong ==> r@
                == "unable to convert to felt: string greater than 31 chars"@,
            *self == FeltError::HexDecodeError ==> r@ == "Failed to decode hex string"@,
    {
        match self {
            FeltError::InputTooLong => "unable to convert to felt: string greater than 31 chars",
            FeltError::HexDecodeError => "Failed to decode hex string",
        }
    }
}

#[verifier::external_type_specification]
#[verifier::external_body]
pub struct ExFromHexError(hex::FromHexError);

/// The text that `String::from_utf8_lossy` makes of some bytes.
pub uninterp spec fn lossy_utf8(b: Seq<u8>) -> Seq<char>;

/// The hexadecimal fragments of each character's scalar value, in order.
pub open spec fn fragments(s: Seq<char>) -> Seq<u8>
    decreases s.len(),
{
    if s.len() == 0 {
        seq![]
    } else {
        fragments(s.drop_last()) + hex_of(s.last() as u32 as nat)
    }
}

/// The text that bytes decode to: their characters when they are valid UTF-8,
/// and otherwise the lossy reading that replaces each bad sequence.
pub open spec fn text_of_bytes(b: Seq<u8>) -> Seq<char> {
    if valid_utf8(b) {
        decode_utf8(b)
    } else {
        lossy_utf8(b)
    }
}

/// The text that one felt of value `v` decodes to.
pub open spec fn piece(v: int) -> Seq<char> {
    text_of_bytes(hex_pairs(render_hex(v)))
}

/// Every value's rendering splits into whole bytes.
pub open spec fn all_decodable(vs: Seq<int>) -> bool {
    forall|i: int| 0 <= i < vs.len() ==> hex_decodable(render_hex(#[trigger] vs[i]))
}

/// The pieces of all values, joined in order.
pub open spec fn decoded_text(vs: Seq<int>) -> Seq<char>
    decreases vs.len(),
{
    if vs.len() == 0 {
        seq![]
    } else {
        decoded_text(vs.drop_last()) + piece(vs.last())
    }
}

/// The integers that some felts stand for.
pub open spec fn felt_values(fs: Seq<Felt>) -> Seq<int> {
    fs.map_values(|f: Felt| f.value())
}

/// Relies on `hex::decode`: an odd length fails, then any byte that is not a
/// digit in either case fails, and otherwise each pair of digits gives a byte.
#[verifier::external_body]
fn hex_to_bytes(text: &[u8]) -> (r: Result<Vec<u8>, hex::FromHexError>)
    ensures
        r is Ok <==> hex_decodable(text@),
        r matches Ok(b) ==> b@ == hex_pairs(text@),
{
    hex::decode(text)
}

/// Relies on `String::from_utf8_lossy`: valid UTF-8 reads as the characters it
/// encodes.
#[verifier::external_body]
fn utf8_lossy(b: &[u8]) -> (r: String)
    ensures
        r@ == lossy_utf8(b@),
        valid_utf8(b@) ==> r@ == decode_utf8(b@),
{
    String::from_utf8_lossy(b).into_owned()
}

proof fn lemma_hex_of_lower(n: nat)
    ensures
        hex_of(n).len() > 0,
        forall|i: int| 0 <= i < hex_of(n).len() ==> is_lower_hex_char(#[trigger] hex_of(n)[i]),
    decreases n,
{
    if n >= 16 {
        lemma_hex_of_lower(n / 16);
    }
}

/// Encodes a string of at most `MAX_CHARS` characters as a felt: the lowercase
/// hexadecimal digits of each character's scalar value, joined in order, read
/// as one base-16 integer (zero for the empty string).
pub fn str_to_felt(s: &str) -> (r: Result<Felt, FeltError>)
    ensures
        r is Err <==> s@.len() > MAX_CHARS,
        r matches Err(e) ==> e == FeltError::InputTooLong,
        r matches Ok(f) ==> !f.negative && canonical_bytes(f.magnitude@),
        r matches Ok(f) ==> f.value() == digits_value(fragments(s@)) as int,
        s@.len() == 0 ==> (r matches Ok(f) && f.magnitude@ == seq![0u8]),
{
    let n = s.unicode_len();
    if n > MAX_CHARS {
        return Err(FeltError::InputTooLong);
    }
    if n == 0 {
        proof {
            assert(fragments(s@) == Seq::<u8>::empty());
        }
        return Ok(Felt::zero());
    }
    let mut digits: Vec<u8> = Vec::new();
    let mut i: usize = 0;
    while i < n
        invariant
            i <= n,
            n == s@.len(),
            digits@ == fragments(s@.take(i as int)),
            i > 0 ==> digits@.len() > 0,
            forall|k: int| 0 <= k < digits@.len() ==> is_lower_hex_char(#[trigger] digits@[k]),
        decreases n - i,
    {
        let c = s.get_char(i);
        let ghost before = digits@;
        push_hex(c as u32, &mut digits);
        proof {
            lemma_hex_of_lower(c as u32 as nat);
            let t = s@.take(i + 1);
            assert(t.drop_last() =~= s@.take(i as int));
            assert(t.last() == c);
            assert forall|k: int| 0 <= k < digits@.len() implies is_lower_hex_char(
                #[trigger] digits@[k],
            ) by {
                if k >= before.len() {
                    assert(digits@[k] == hex_of(c as u32 as nat)[k - before.len()]);
                }
            }
        }
        i = i + 1;
    }
    proof {
        assert(s@.take(n as int) =~= s@);
    }
    match parse_hex_digits(digits.as_slice()) {
        Some(f) => Ok(f),
        // Never taken: the digits are non-empty and all lowercase hex.
        None => Err(FeltError::InputTooLong),
    }
}

/// Decodes felts into one string: each felt's base-16 rendering is read as
/// bytes, two digits each, and the bytes as UTF-8 with bad sequences
/// replaced; the pieces are joined in order. Fails, with nothing else
/// returned, when any rendering has an odd length or a non-digit.
pub fn felt_arr_to_str(felts: Vec<Felt>) -> (r: Result<String, FeltError>)
    ensures
        r is Ok <==> all_decodable(felt_values(felts@)),
        r matches Ok(t) ==> t@ == decoded_text(felt_values(felts@)),
        r matches Err(e) ==> e == FeltError::HexDecodeError,
{
    let ghost vs = felt_values(felts@);
    let mut acc = String::new();
    let mut i: usize = 0;
    while i < felts.len()
        invariant
            i <= felts@.len(),
            vs == felt_values(felts@),
            all_decodable(vs.take(i as int)),
            acc@ == decoded_text(vs.take(i as int)),
        decreases felts@.len() - i,
    {
        let text = hex_rendering(&felts[i]);
        match hex_to_bytes(text.as_slice()) {
            Err(_) => {
                proof {
                    assert(!hex_decodable(render_hex(vs[i as int])));
                }
                return Err(FeltError::HexDecodeError);
            },
            Ok(bytes) => {
                let p = utf8_lossy(bytes.as_slice());
                proof {
                    assert(p@ == piece(vs[i as int]));
                    let t = vs.take(i + 1);
                    assert(t.drop_last() =~= vs.take(i as int));
                    assert(all_decodable(t)) by {
                        assert forall|k: int| 0 <= k < t.len() implies hex_decodable(
                            render_hex(#[trigger] t[k]),
                        ) by {
                            if k < i {
                                assert(t[k] == vs.take(i as int)[k]);
                            }
                        }
                    }
                }
                acc.append(p.as_str());
            },
        }
        i = i + 1;
    }
    proof {
        assert(vs.take(felts@.len() as int) =~= vs);
    }
    Ok(acc)
}

} // verus!
