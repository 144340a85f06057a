//! Lowercase hexadecimal digit strings, as ASCII bytes, and their values.
use vstd::prelude::*;

verus! {

/// The ASCII digit for a value below sixteen, lowercase for ten and above.
pub open spec fn hex_digit(d: nat) -> u8 {
    if d < 10 {
        (48 + d) as u8
    } else {
        (87 + d) as u8
    }
}

/// A byte that reads as a hexadecimal digit, in either case.
pub open spec fn is_hex_char(c: u8) -> bool {
    (48 <= c <= 57) || (97 <= c <= 102) || (65 <= c <= 70)
}

/// A byte that is one of `0-9a-f`.
pub open spec fn is_lower_hex_char(c: u8) -> bool {
    (48 <= c <= 57) || (97 <= c <= 102)
}

/// The value of one hexadecimal digit.
pub open spec fn hex_val(c: u8) -> nat {
    if 48 <= c <= 57 {
        (c - 48) as nat
    } else if 97 <= c <= 102 {
        (c - 87) as nat
    } else {
        (c - 55) as nat
    }
}

/// The lowercase base-16 rendering of `n`, without leading zeros ("0" for zero).
pub open spec fn hex_of(n: nat) -> Seq<u8>
    decreases n,
{
    if n < 16 {
        seq![hex_digit(n)]
    } else {
        hex_of(n / 16).push(hex_digit(n % 16))
    }
}

/// The number that a string of hexadecimal digits denotes (zero for none).
pub open spec fn digits_value(d: Seq<u8>) -> nat
    decreases d.len(),
{
    if d.len() == 0 {
        0
    } else {
        digits_value(d.drop_last()) * 16 + hex_val(d.last())
    }
}

/// Digits that name a value with nothing left over: lowercase, and no leading zero.
pub open spec fn canonical_digits(d: Seq<u8>) -> bool {
    &&& d.len() > 0
    &&& forall|i: int| 0 <= i < d.len() ==> is_lower_hex_char(#[trigger] d[i])
    &&& (d.len() > 1 ==> d[0] != 48u8)
}

/// The bytes that a hexadecimal text of even length spells, two digits each.
pub open spec fn hex_pairs(t: Seq<u8>) -> Seq<u8> {
    Seq::new(t.len() / 2, |i: int| (hex_val(t[2 * i]) * 16 + hex_val(t[2 * i + 1])) as u8)
}

/// A text that reads as whole bytes: even length, digits only.
pub open spec fn hex_decodable(t: Seq<u8>) -> bool {
    t.len() % 2 == 0 && forall|i: int| 0 <= i < t.len() ==> is_hex_char(#[trigger] t[i])
}

pub proof fn lemma_digit_round_trip(d: nat)
    requires
        d < 16,
    ensures
        is_lower_hex_char(hex_digit(d)),
        hex_val(hex_digit(d)) == d,
{
}

pub proof fn lemma_val_round_trip(c: u8)
    requires
        is_lower_hex_char(c),
    ensures
        hex_val(c) < 16,
        hex_digit(hex_val(c)) == c,
{
}

/// Digits that lead with a nonzero digit are worth at least one, and at least
/// sixteen when there are two or more of them.
proof fn lemma_value_lower_bound(d: Seq<u8>)
    requires
        d.len() > 0,
        forall|i: int| 0 <= i < d.len() ==> is_lower_hex_char(#[trigger] d[i]),
        d[0] != 48u8,
    ensures
        digits_value(d) >= 1,
        d.len() > 1 ==> digits_value(d) >= 16,
    decreases d.len(),
{
    let p = d.drop_last();
    if d.len() == 1 {
        assert(digits_value(p) == 0);
        assert(digits_value(d) == hex_val(d[0]));
    } else {
        assert(p[0] == d[0]);
        lemma_value_lower_bound(p);
        assert(digits_value(d) == digits_value(p) * 16 + hex_val(d.last()));
    }
}

/// Rendering the value of canonical digits gives those digits back.
pub proof fn lemma_hex_of_digits_value(d: Seq<u8>)
    requires
        canonical_digits(d),
    ensures
        hex_of(digits_value(d)) == d,
    decreases d.len(),
{
    let l = d.last();
    let p = d.drop_last();
    lemma_val_round_trip(l);
    if d.len() == 1 {
        assert(digits_value(p) == 0);
        assert(digits_value(d) == hex_val(l));
        assert(hex_of(hex_val(l)) == seq![hex_digit(hex_val(l))]);
        assert(seq![l] =~= d);
    } else {
        assert(p[0] == d[0]);
        assert(canonical_digits(p));
        lemma_hex_of_digits_value(p);
        lemma_value_lower_bound(p);
        let v = digits_value(d);
        assert(v == digits_value(p) * 16 + hex_val(l));
        assert(v / 16 == digits_value(p) && v % 16 == hex_val(l)) by (nonlinear_arith)
            requires
                v == digits_value(p) * 16 + hex_val(l),
                hex_val(l) < 16,
        ;
        assert(hex_of(v) == hex_of(v / 16).push(hex_digit(v % 16)));
        assert(p.push(l) =~= d);
    }
}

/// Appends the digits of `n` in lowercase base 16 to `out`.
pub fn push_hex(n: u32, out: &mut Vec<u8>)
    ensures
        final(out)@ == old(out)@ + hex_of(n as nat),
    decreases n,
{
    let low: u32 = n % 16;
    let digit: u8 = if low < 10 {
        48u8 + low as u8
    } else {
        87u8 + low as u8
    };
    if n >= 16 {
        push_hex(n / 16, out);
    }
    out.push(digit);
    proof {
        assert(hex_of(n as nat) == if n < 16 {
            seq![hex_digit(n as nat)]
        } else {
            hex_of((n / 16) as nat).push(hex_digit((n % 16) as nat))
        });
        if n < 16 {
            assert(final(out)@ =~= old(out)@ + hex_of(n as nat));
        } else {
            assert(final(out)@ =~= old(out)@ + hex_of(n as nat));
        }
    }
}

} // verus!
