//! Hexadecimal form of object hashes: a hash travels as 40 lowercase hex
//! digits, and a packed tree entry carries it as 20 raw bytes. The spec
//! functions fix both directions; the executable conversions are the `hex`
//! crate behind trusted wrappers.

use vstd::prelude::*;

verus! {

pub open spec fn is_hex_lower(c: u8) -> bool {
    (48 <= c <= 57) || (97 <= c <= 102)
}

/// Any hex digit, either case.
pub open spec fn is_hex_digit(c: u8) -> bool {
    is_hex_lower(c) || (65 <= c <= 70)
}

pub open spec fn hex_val(c: u8) -> nat {
    if 48 <= c <= 57 {
        (c - 48) as nat
    } else if 97 <= c <= 102 {
        (c - 87) as nat
    } else if 65 <= c <= 70 {
        (c - 55) as nat
    } else {
        0
    }
}

/// The lowercase digit for a nibble.
pub open spec fn hex_digit_of(n: nat) -> u8
    recommends
        n < 16,
{
    if n < 10 {
        (48 + n) as u8
    } else {
        (87 + n) as u8
    }
}

pub open spec fn is_hex_lower_seq(s: Seq<u8>) -> bool {
    forall|i: int| 0 <= i < s.len() ==> is_hex_lower(#[trigger] s[i])
}

pub open spec fn is_hex_seq(s: Seq<u8>) -> bool {
    forall|i: int| 0 <= i < s.len() ==> is_hex_digit(#[trigger] s[i])
}

/// Two lowercase digits per byte, high nibble first.
pub open spec fn bytes_to_hex(b: Seq<u8>) -> Seq<u8> {
    Seq::new(
        b.len() * 2,
        |i: int| if i % 2 == 0 {
            hex_digit_of((b[i / 2] / 16) as nat)
        } else {
            hex_digit_of((b[i / 2] % 16) as nat)
        },
    )
}

/// Pairs of hex digits back to bytes, high nibble first.
pub open spec fn hex_to_bytes(s: Seq<u8>) -> Seq<u8>
    recommends
        s.len() % 2 == 0,
{
    Seq::new((s.len() / 2) as nat, |i: int| (hex_val(s[2 * i]) * 16 + hex_val(s[2 * i + 1])) as u8)
}

pub proof fn lemma_bytes_to_hex_props(b: Seq<u8>)
    ensures
        bytes_to_hex(b).len() == b.len() * 2,
        is_hex_lower_seq(bytes_to_hex(b)),
        hex_to_bytes(bytes_to_hex(b)) == b,
{
    let h = bytes_to_hex(b);
    assert forall|i: int| 0 <= i < h.len() implies is_hex_lower(#[trigger] h[i]) by {
        assert(b[i / 2] / 16 < 16);
        assert(b[i / 2] % 16 < 16);
    }
    assert forall|i: int| 0 <= i < b.len() implies hex_to_bytes(h)[i] == b[i] by {
        assert(h[2 * i] == hex_digit_of((b[i] / 16) as nat));
        assert(h[2 * i + 1] == hex_digit_of((b[i] % 16) as nat));
        assert(hex_val(hex_digit_of((b[i] / 16) as nat)) == (b[i] / 16) as nat);
        assert(hex_val(hex_digit_of((b[i] % 16) as nat)) == (b[i] % 16) as nat);
        assert((b[i] / 16) * 16 + b[i] % 16 == b[i]);
    }
    assert(hex_to_bytes(h) =~= b);
}

pub proof fn lemma_hex_to_bytes_to_hex(s: Seq<u8>)
    requires
        s.len() % 2 == 0,
        is_hex_lower_seq(s),
    ensures
        bytes_to_hex(hex_to_bytes(s)) == s,
{
    let b = hex_to_bytes(s);
    assert forall|i: int| 0 <= i < s.len() implies bytes_to_hex(b)[i] == s[i] by {
        let k = i / 2;
        assert(b[k] == (hex_val(s[2 * k]) * 16 + hex_val(s[2 * k + 1])) as u8);
        assert(hex_val(s[2 * k]) < 16);
        assert(hex_val(s[2 * k + 1]) < 16);
        assert(b[k] / 16 == hex_val(s[2 * k])) by (nonlinear_arith)
            requires
                b[k] == hex_val(s[2 * k]) * 16 + hex_val(s[2 * k + 1]),
                hex_val(s[2 * k]) < 16,
                hex_val(s[2 * k + 1]) < 16,
        ;
        assert(b[k] % 16 == hex_val(s[2 * k + 1])) by (nonlinear_arith)
            requires
                b[k] == hex_val(s[2 * k]) * 16 + hex_val(s[2 * k + 1]),
                hex_val(s[2 * k]) < 16,
                hex_val(s[2 * k + 1]) < 16,
        ;
        if i % 2 == 0 {
            assert(hex_digit_of(hex_val(s[i])) == s[i]);
        } else {
            assert(2 * k + 1 == i);
            assert(hex_digit_of(hex_val(s[i])) == s[i]);
        }
    }
    assert(bytes_to_hex(b) =~= s);
}

/// Relies on `hex::encode`: two lowercase hex digits per input byte, high
/// nibble first.
#[verifier::external_body]
pub(crate) fn hex_encode(b: &Vec<u8>) -> (r: Vec<u8>)
    ensures
        r@ == bytes_to_hex(b@),
{
    hex::encode(b.as_slice()).into_bytes()
}

/// Relies on `hex::decode`: it succeeds exactly on an even number of hex
/// digits of either case, and pairs them high nibble first.
#[verifier::external_body]
pub(crate) fn hex_decode(s: &Vec<u8>) -> (r: Option<Vec<u8>>)
    ensures
        r is Some <==> (s@.len() % 2 == 0 && is_hex_seq(s@)),
        r matches Some(b) ==> b@ == hex_to_bytes(s@),
{
    match hex::decode(s.as_slice()) {
        Ok(b) => Some(b),
        Err(_) => None,
    }
}

} // verus!
