//! The felt: an integer of any size, held as a sign and big-endian magnitude bytes.
use num_bigint::{BigInt, Sign};
use vstd::prelude::*;

use crate::hex_text::{digits_value, hex_of, is_lower_hex_char};

verus! {

/// The number that big-endian bytes denote (zero for none).
pub open spec fn be_value(b: Seq<u8>) -> nat
    decreases b.len(),
{
    if b.len() == 0 {
        0
    } else {
        be_value(b.drop_last()) * 256 + b.last() as nat
    }
}

/// Big-endian bytes with no leading zero byte; zero is the single byte `0`.
pub open spec fn canonical_bytes(b: Seq<u8>) -> bool {
    b.len() > 0 && (b.len() > 1 ==> b[0] != 0)
}

/// The base-16 rendering of an integer: lowercase digits without leading
/// zeros, after a `-` when the integer is negative.
pub open spec fn render_hex(v: int) -> Seq<u8> {
    if v < 0 {
        seq![45u8] + hex_of((-v) as nat)
    } else {
        hex_of(v as nat)
    }
}

/// An integer of any size. `magnitude` holds its absolute value as big-endian
/// bytes; a negative sign on a zero magnitude still means zero.
#[derive(Debug, PartialEq, Eq)]
pub struct Felt {
    pub negative: bool,
    pub magnitude: Vec<u8>,
}

impl Felt {
    /// The integer this felt stands for.
    pub open spec fn value(&self) -> int {
        if self.negative {
            -(be_value(self.magnitude@) as int)
        } else {
            be_value(self.magnitude@) as int
        }
    }

    /// Zero, with the single magnitude byte `0`.
    pub fn zero() -> (r: Felt)
        ensures
            r.value() == 0,
            !r.negative,
            r.magnitude@ == seq![0u8],
    {
        let r = Felt { negative: false, magnitude: vec![0u8] };
        proof {
            assert(r.magnitude@ =~= seq![0u8]);
            assert(r.magnitude@.drop_last() =~= Seq::<u8>::empty());
            assert(be_value(r.magnitude@.drop_last()) == 0);
        }
        r
    }
}

/// Relies on `BigInt::parse_bytes` in base 16, which reads any non-empty run
/// of digits, and on `BigInt::to_bytes_be`, which gives the magnitude without
/// leading zero bytes (a single `0` for zero).
#[verifier::external_body]
pub(crate) fn parse_hex_digits(digits: &[u8]) -> (r: Option<Felt>)
    requires
        digits@.len() > 0,
        forall|i: int| 0 <= i < digits@.len() ==> is_lower_hex_char(#[trigger] digits@[i]),
    ensures
        r is Some,
        r matches Some(f) ==> !f.negative && canonical_bytes(f.magnitude@),
        r matches Some(f) ==> be_value(f.magnitude@) == digits_value(digits@),
{
    match BigInt::parse_bytes(digits, 16) {
        Some(b) => {
            let (sign, magnitude) = b.to_bytes_be();
            Some(Felt { negative: sign == Sign::Minus, magnitude })
        },
        None => None,
    }
}

/// Relies on `BigInt::from_bytes_be` to build the integer and on
/// `BigInt::to_str_radix` in base 16 to render it: lowercase digits without
/// leading zeros ("0" for zero), after a `-` for a negative integer.
#[verifier::external_body]
pub(crate) fn hex_rendering(f: &Felt) -> (r: Vec<u8>)
    ensures
        r@ == render_hex(f.value()),
{
    let sign = if f.negative {
        Sign::Minus
    } else {
        Sign::Plus
    };
    BigInt::from_bytes_be(sign, &f.magnitude).to_str_radix(16).into_bytes()
}

} // verus!
