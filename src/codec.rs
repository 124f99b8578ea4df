use vstd::prelude::*;

verus! {

/// Whether a byte is a hexadecimal digit, in either case.
pub open spec fn is_hex_byte(c: u8) -> bool {
    (48 <= c && c <= 57) || (97 <= c && c <= 102) || (65 <= c && c <= 70)
}

/// Whether every byte is a hexadecimal digit.
pub open spec fn all_hex(s: Seq<u8>) -> bool {
    forall|i: int| 0 <= i < s.len() ==> is_hex_byte(s[i])
}

/// The value of a hexadecimal digit.
pub open spec fn hex_value(c: u8) -> nat {
    if 48 <= c && c <= 57 {
        (c - 48) as nat
    } else if 97 <= c && c <= 102 {
        (c - 87) as nat
    } else {
        (c - 55) as nat
    }
}

/// The bytes that pairs of hexadecimal digits spell, high digit first.
pub open spec fn hex_decoded(s: Seq<u8>) -> Seq<u8> {
    Seq::new(
        s.len() / 2,
        |i: int| (hex_value(s[2 * i]) * 16 + hex_value(s[2 * i + 1])) as u8,
    )
}

/// The lowercase hexadecimal digit of a number below sixteen.
pub open spec fn hex_digit(n: nat) -> char {
    if n < 10 {
        ((n + 48) as u8) as char
    } else {
        ((n + 87) as u8) as char
    }
}

/// Two lowercase hexadecimal digits for each byte, high digit first.
pub open spec fn hex_encoded(b: Seq<u8>) -> Seq<char> {
    Seq::new(
        2 * b.len(),
        |i: int|
            if i % 2 == 0 {
                hex_digit(b[i / 2] as nat / 16)
            } else {
                hex_digit(b[i / 2] as nat % 16)
            },
    )
}

/// An ASCII byte with the letters A to F made lowercase, as a character.
pub open spec fn lower_hex_char(c: u8) -> char {
    if 65 <= c && c <= 70 {
        ((c + 32) as u8) as char
    } else {
        c as char
    }
}

/// Relies on hex::encode: two lowercase digits for each byte, high digit first.
#[verifier::external_body]
pub(crate) fn hex_encode(h: &[u8]) -> (r: String)
    ensures
        r@ == hex_encoded(h@),
{
    hex::encode(h)
}

/// Relies on hex::decode: it accepts exactly the texts of even length made of
/// hexadecimal digits of either case, and turns each pair into one byte.
#[verifier::external_body]
pub(crate) fn hex_decode(s: &[u8]) -> (r: Option<Vec<u8>>)
    ensures
        (r is Some) == (s@.len() % 2 == 0 && all_hex(s@)),
        r matches Some(v) ==> v@ == hex_decoded(s@),
{
    hex::decode(s).ok()
}

/// A hexadecimal digit read and written again comes back lowercase.
proof fn lemma_digit_round_trip(c: u8)
    requires
        is_hex_byte(c),
    ensures
        hex_value(c) < 16,
        hex_digit(hex_value(c)) == lower_hex_char(c),
{
}

/// Decoding hexadecimal text and encoding it again gives the text in lowercase.
pub proof fn lemma_hex_round_trip(s: Seq<u8>)
    requires
        s.len() % 2 == 0,
        all_hex(s),
    ensures
        hex_encoded(hex_decoded(s)) == Seq::new(s.len(), |i: int| lower_hex_char(s[i])),
{
    let d = hex_decoded(s);
    let e = hex_encoded(d);
    assert forall|i: int| 0 <= i < s.len() implies e[i] == lower_hex_char(s[i]) by {
        let k = i / 2;
        let hi = hex_value(s[2 * k]);
        let lo = hex_value(s[2 * k + 1]);
        lemma_digit_round_trip(s[2 * k]);
        lemma_digit_round_trip(s[2 * k + 1]);
        let v = hi * 16 + lo;
        assert(v < 256);
        assert(d[k] as nat == v);
        assert(v / 16 == hi && v % 16 == lo) by {
            vstd::arithmetic::div_mod::lemma_fundamental_div_mod_converse(v as int, 16, hi as int, lo as int);
        }
        if i % 2 == 0 {
            assert(i == 2 * k);
        } else {
            assert(i == 2 * k + 1);
        }
    }
    assert(e =~= Seq::new(s.len(), |i: int| lower_hex_char(s[i])));
}

} // verus!
