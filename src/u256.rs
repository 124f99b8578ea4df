use vstd::prelude::*;

use vstd::string::{StringExecFns, StringExecFnsIsAscii};
use vstd::utf8::{encode_utf8, is_ascii_chars};

use crate::codec::{
    all_hex, hex_decode, hex_decoded, hex_encode, hex_encoded, lemma_hex_round_trip, lower_hex_char,
};
use crate::error::BridgeContractError;

verus! {

/// 256 to the power `n`.
pub open spec fn pow256(n: nat) -> nat
    decreases n,
{
    if n == 0 {
        1
    } else {
        256 * pow256((n - 1) as nat)
    }
}

/// The number that a byte sequence spells, most significant byte first.
pub open spec fn be_value(s: Seq<u8>) -> nat
    decreases s.len(),
{
    if s.len() == 0 {
        0
    } else {
        be_value(s.drop_last()) * 256 + s.last() as nat
    }
}

/// The largest value of 256 bits.
pub open spec fn max_value() -> nat {
    (pow256(32) - 1) as nat
}

/// Whether a computed value agrees with an expected outcome: the same
/// number, or the same error.
pub open spec fn agrees(r: Result<U256, BridgeContractError>, o: Result<nat, BridgeContractError>) -> bool {
    match r {
        Ok(v) => o matches Ok(n) && v.value() == n,
        Err(e) => o == Err::<nat, BridgeContractError>(e),
    }
}

/// The sum of two values, or `Overflow` where it does not fit in 256 bits.
pub open spec fn sum_outcome(a: nat, b: nat) -> Result<nat, BridgeContractError> {
    if a + b > max_value() {
        Err(BridgeContractError::Overflow)
    } else {
        Ok(a + b)
    }
}

/// The difference `a - b`, or `Underflow` where `b` is greater.
pub open spec fn difference_outcome(a: nat, b: nat) -> Result<nat, BridgeContractError> {
    if b > a {
        Err(BridgeContractError::Underflow)
    } else {
        Ok((a - b) as nat)
    }
}

pub proof fn lemma_pow256_positive(n: nat)
    ensures
        pow256(n) >= 1,
    decreases n,
{
    if n > 0 {
        lemma_pow256_positive((n - 1) as nat);
    }
}

/// A sequence of `n` bytes spells a number below 256^n.
pub proof fn lemma_value_bound(s: Seq<u8>)
    ensures
        be_value(s) < pow256(s.len()),
    decreases s.len(),
{
    if s.len() > 0 {
        lemma_value_bound(s.drop_last());
        let p = pow256((s.len() - 1) as nat);
        let v = be_value(s.drop_last());
        let l = s.last() as nat;
        assert(v * 256 + l < p * 256) by (nonlinear_arith)
            requires
                v < p,
                l < 256,
        ;
    }
}

/// Splitting a byte sequence splits its value by a power of 256.
pub proof fn lemma_value_concat(p: Seq<u8>, q: Seq<u8>)
    ensures
        be_value(p + q) == be_value(p) * pow256(q.len()) + be_value(q),
    decreases q.len(),
{
    if q.len() == 0 {
        assert(p + q =~= p);
        assert(be_value(q) == 0);
        assert(pow256(0) == 1);
        assert(be_value(p) * 1 == be_value(p));
    } else {
        let q1 = q.drop_last();
        assert((p + q).drop_last() =~= p + q1);
        assert((p + q).last() == q.last());
        lemma_value_concat(p, q1);
        let a = be_value(p);
        let k = pow256(q1.len());
        let b = be_value(q1);
        assert(be_value(p + q) == be_value(p + q1) * 256 + q.last() as nat);
        assert(be_value(q) == b * 256 + q.last() as nat);
        assert(pow256(q.len()) == 256 * k);
        assert((a * k + b) * 256 == a * (256 * k) + b * 256) by (nonlinear_arith);
        assert(be_value(p + q) == (a * k + b) * 256 + q.last() as nat);
    }
}

/// The value of a byte put in front of a sequence.
pub proof fn lemma_value_prepend(x: u8, t: Seq<u8>)
    ensures
        be_value(seq![x] + t) == x as nat * pow256(t.len()) + be_value(t),
{
    lemma_value_concat(seq![x], t);
    let s = seq![x];
    assert(s.drop_last() =~= Seq::<u8>::empty());
    assert(be_value(Seq::<u8>::empty()) == 0);
    assert(s.last() == x);
    assert(be_value(s) == be_value(s.drop_last()) * 256 + x as nat);
}

/// Bytes that are all zero spell zero, and only they do.
pub proof fn lemma_value_zero(s: Seq<u8>)
    ensures
        be_value(s) == 0 <==> forall|i: int| 0 <= i < s.len() ==> s[i] == 0,
    decreases s.len(),
{
    if s.len() > 0 {
        lemma_value_zero(s.drop_last());
        if be_value(s) == 0 {
            assert forall|i: int| 0 <= i < s.len() implies s[i] == 0 by {
                if i < s.len() - 1 {
                    assert(s[i] == s.drop_last()[i]);
                }
            }
        }
        if forall|i: int| 0 <= i < s.len() ==> s[i] == 0 {
            assert forall|i: int| 0 <= i < s.drop_last().len() implies s.drop_last()[i] == 0 by {
                assert(s.drop_last()[i] == s[i]);
            }
        }
    }
}

/// Bytes that are all 0xff spell the largest value of their width.
pub proof fn lemma_value_all_ff(s: Seq<u8>)
    requires
        forall|i: int| 0 <= i < s.len() ==> s[i] == 0xff,
    ensures
        be_value(s) + 1 == pow256(s.len()),
    decreases s.len(),
{
    if s.len() > 0 {
        let t = s.drop_last();
        assert forall|i: int| 0 <= i < t.len() implies t[i] == 0xff by {
            assert(t[i] == s[i]);
        }
        lemma_value_all_ff(t);
    }
}

/// The `len` bytes that spell `n` modulo 256^len, most significant first.
pub open spec fn be_bytes(n: nat, len: nat) -> Seq<u8>
    decreases len,
{
    if len == 0 {
        Seq::empty()
    } else {
        be_bytes(n / 256, (len - 1) as nat).push((n % 256) as u8)
    }
}

/// Bytes are the encoding of the value they spell.
pub proof fn lemma_be_bytes(s: Seq<u8>)
    ensures
        s == be_bytes(be_value(s), s.len()),
    decreases s.len(),
{
    if s.len() > 0 {
        let t = s.drop_last();
        lemma_be_bytes(t);
        let v = be_value(s);
        let l = s.last() as nat;
        assert(v / 256 == be_value(t) && v % 256 == l) by {
            vstd::arithmetic::div_mod::lemma_fundamental_div_mod_converse(
                v as int,
                256,
                be_value(t) as int,
                l as int,
            );
        }
        assert(s =~= t.push(s.last()));
    }
}

/// An unsigned integer of 256 bits, held as 32 bytes, most significant first.
#[derive(Debug, Clone, Copy)]
pub struct U256(pub [u8; 32]);

impl U256 {
    /// The number this value stands for.
    pub open spec fn value(&self) -> nat {
        be_value(self.0@)
    }

    /// The 32 bytes, most significant first.
    pub fn get(&self) -> (r: &[u8; 32])
        ensures
            r@ == self.0@,
    {
        &self.0
    }

    /// Zero.
    pub fn new_zero() -> (r: Self)
        ensures
            r.value() == 0,
    {
        let b = [0u8; 32];
        proof {
            lemma_value_zero(b@);
        }
        U256(b)
    }

    /// The largest value, 2^256 - 1.
    pub fn new_ff() -> (r: Self)
        ensures
            r.value() == max_value(),
    {
        let b = [0xffu8; 32];
        proof {
            lemma_value_all_ff(b@);
        }
        U256(b)
    }
}


/// The bytes from `i` to the end spell the first `i` bytes' weight below them.
proof fn lemma_suffix_step(s: Seq<u8>, i: int)
    requires
        0 <= i < s.len(),
    ensures
        be_value(s.subrange(i, s.len() as int)) == s[i] as nat * pow256((s.len() - i - 1) as nat)
            + be_value(s.subrange(i + 1, s.len() as int)),
{
    let t = s.subrange(i + 1, s.len() as int);
    assert(s.subrange(i, s.len() as int) =~= seq![s[i]] + t);
    lemma_value_prepend(s[i], t);
}

/// Bytes that agree before `i` and differ at `i` are ordered by their byte at `i`.
proof fn lemma_first_difference(a: Seq<u8>, b: Seq<u8>, i: int)
    requires
        a.len() == b.len(),
        0 <= i < a.len(),
        a.subrange(0, i) == b.subrange(0, i),
        a[i] > b[i],
    ensures
        be_value(a) > be_value(b),
{
    let n = a.len() as int;
    let pa = a.subrange(0, i + 1);
    let pb = b.subrange(0, i + 1);
    let ta = a.subrange(i + 1, n);
    let tb = b.subrange(i + 1, n);
    assert(a =~= pa + ta);
    assert(b =~= pb + tb);
    lemma_value_concat(pa, ta);
    lemma_value_concat(pb, tb);
    assert(pa.drop_last() =~= a.subrange(0, i));
    assert(pb.drop_last() =~= b.subrange(0, i));
    let h = be_value(a.subrange(0, i));
    assert(be_value(pa) == h * 256 + a[i] as nat);
    assert(be_value(pb) == h * 256 + b[i] as nat);
    lemma_value_bound(tb);
    let k = pow256(ta.len());
    let va = be_value(pa);
    let vb = be_value(pb);
    let xa = be_value(ta);
    let xb = be_value(tb);
    assert(va * k + xa > vb * k + xb) by (nonlinear_arith)
        requires
            va >= vb + 1,
            xb < k,
    ;
}

/// Equal values of equal width have equal bytes.
pub proof fn lemma_value_injective(a: Seq<u8>, b: Seq<u8>)
    requires
        a.len() == b.len(),
        be_value(a) == be_value(b),
    ensures
        a == b,
{
    if a != b {
        let i = choose|i: int| 0 <= i < a.len() && a[i] != b[i];
        assert(exists|i: int| 0 <= i < a.len() && a[i] != b[i]) by {
            assert(!(a =~= b));
        }
        let j = choose|j: int|
            0 <= j < a.len() && a[j] != b[j] && forall|k: int| 0 <= k < j ==> a[k] == b[k];
        assert(exists|j: int|
            0 <= j < a.len() && a[j] != b[j] && forall|k: int| 0 <= k < j ==> a[k] == b[k]) by {
            lemma_least_difference(a, b, a.len() as int);
        }
        assert(a.subrange(0, j) =~= b.subrange(0, j));
        if a[j] > b[j] {
            lemma_first_difference(a, b, j);
        } else {
            lemma_first_difference(b, a, j);
        }
    }
}

proof fn lemma_least_difference(a: Seq<u8>, b: Seq<u8>, n: int)
    requires
        a.len() == b.len(),
        0 <= n <= a.len(),
        exists|i: int| 0 <= i < n && a[i] != b[i],
    ensures
        exists|j: int|
            0 <= j < a.len() && a[j] != b[j] && forall|k: int| 0 <= k < j ==> a[k] == b[k],
    decreases n,
{
    if exists|i: int| 0 <= i < n - 1 && a[i] != b[i] {
        lemma_least_difference(a, b, n - 1);
    } else {
        assert(a[n - 1] != b[n - 1]);
        assert(forall|k: int| 0 <= k < n - 1 ==> a[k] == b[k]);
    }
}

impl U256 {
    /// Whether `a` is numerically greater than `b`; the bytes are read from the
    /// most significant down, and the first pair that differs decides.
    pub fn a_greater_than_b(a: &Self, b: &Self) -> (r: bool)
        ensures
            r == (a.value() > b.value()),
    {
        let mut i: usize = 0;
        while i < 32
            invariant
                i <= 32,
                a.0@.subrange(0, i as int) == b.0@.subrange(0, i as int),
            decreases 32 - i,
        {
            let x = a.0[i];
            let y = b.0[i];
            if x > y {
                proof {
                    lemma_first_difference(a.0@, b.0@, i as int);
                }
                return true;
            }
            if x < y {
                proof {
                    lemma_first_difference(b.0@, a.0@, i as int);
                }
                return false;
            }
            assert(a.0@.subrange(0, i + 1) =~= a.0@.subrange(0, i as int).push(x));
            assert(b.0@.subrange(0, i + 1) =~= b.0@.subrange(0, i as int).push(y));
            i = i + 1;
        }
        assert(a.0@ =~= a.0@.subrange(0, 32));
        assert(b.0@ =~= b.0@.subrange(0, 32));
        false
    }

    /// The sum `a + b`, or `Overflow` where it exceeds 2^256 - 1.
    pub fn add_a_with_b(a: &Self, b: &Self) -> (r: Result<Self, BridgeContractError>)
        ensures
            agrees(r, sum_outcome(a.value(), b.value())),
    {
        let mut out = [0u8; 32];
        let mut carry: u8 = 0;
        let mut i: usize = 32;
        while i > 0
            invariant
                i <= 32,
                carry <= 1,
                be_value(out@.subrange(i as int, 32)) + carry as nat * pow256((32 - i) as nat)
                    == be_value(a.0@.subrange(i as int, 32)) + be_value(b.0@.subrange(i as int, 32)),
            decreases i,
        {
            let ghost before = out@;
            i = i - 1;
            let t: u16 = a.0[i] as u16 + b.0[i] as u16 + carry as u16;
            let low = (t % 256) as u8;
            let c = (t / 256) as u8;
            out[i] = low;
            proof {
                assert(out@.subrange(i + 1, 32) =~= before.subrange(i + 1, 32));
                lemma_suffix_step(out@, i as int);
                lemma_suffix_step(a.0@, i as int);
                lemma_suffix_step(b.0@, i as int);
                let k = (32 - i - 1) as nat;
                let p = pow256(k);
                assert(pow256((32 - i) as nat) == 256 * p);
                assert(low as nat + 256 * c as nat == a.0[i as int] as nat + b.0[i as int] as nat
                    + carry as nat);
                let ro = be_value(before.subrange(i + 1, 32));
                let x = a.0[i as int] as nat;
                let y = b.0[i as int] as nat;
                let l = low as nat;
                let cc = c as nat;
                assert(l * p + ro + cc * (256 * p) == (l + 256 * cc) * p + ro) by (nonlinear_arith);
                assert((x + y + carry as nat) * p == x * p + y * p + carry as nat * p)
                    by (nonlinear_arith);
            }
            carry = c;
        }
        proof {
            assert(out@.subrange(0, 32) =~= out@);
            assert(a.0@.subrange(0, 32) =~= a.0@);
            assert(b.0@.subrange(0, 32) =~= b.0@);
            lemma_value_bound(out@);
        }
        if carry != 0 {
            Err(BridgeContractError::Overflow)
        } else {
            Ok(U256(out))
        }
    }

    /// The difference `a - b`, or `Underflow` where `b` is greater than `a`.
    pub fn subtract_b_from_a(a: &Self, b: &Self) -> (r: Result<Self, BridgeContractError>)
        ensures
            agrees(r, difference_outcome(a.value(), b.value())),
    {
        let mut out = [0u8; 32];
        let mut borrow: u8 = 0;
        let mut i: usize = 32;
        while i > 0
            invariant
                i <= 32,
                borrow <= 1,
                be_value(out@.subrange(i as int, 32)) - borrow as nat * pow256((32 - i) as nat)
                    == be_value(a.0@.subrange(i as int, 32)) - be_value(b.0@.subrange(i as int, 32)),
            decreases i,
        {
            let ghost before = out@;
            i = i - 1;
            let t: u16 = 256 + a.0[i] as u16 - b.0[i] as u16 - borrow as u16;
            let low = (t % 256) as u8;
            let c: u8 = if t < 256 { 1 } else { 0 };
            out[i] = low;
            proof {
                assert(out@.subrange(i + 1, 32) =~= before.subrange(i + 1, 32));
                lemma_suffix_step(out@, i as int);
                lemma_suffix_step(a.0@, i as int);
                lemma_suffix_step(b.0@, i as int);
                let k = (32 - i - 1) as nat;
                let p = pow256(k);
                assert(pow256((32 - i) as nat) == 256 * p);
                assert(low as int - 256 * c as int == a.0[i as int] as int - b.0[i as int] as int
                    - borrow as int);
                let ro = be_value(before.subrange(i + 1, 32));
                let x = a.0[i as int] as int;
                let y = b.0[i as int] as int;
                let l = low as int;
                let cc = c as int;
                assert(l * p + ro - cc * (256 * p) == (l - 256 * cc) * p + ro) by (nonlinear_arith);
                assert((x - y - borrow as int) * p == x * p - y * p - borrow as int * p)
                    by (nonlinear_arith);
            }
            borrow = c;
        }
        proof {
            assert(out@.subrange(0, 32) =~= out@);
            assert(a.0@.subrange(0, 32) =~= a.0@);
            assert(b.0@.subrange(0, 32) =~= b.0@);
            lemma_value_bound(out@);
        }
        if borrow != 0 {
            Err(BridgeContractError::Underflow)
        } else {
            Ok(U256(out))
        }
    }
}


/// Whether a character is an ASCII decimal digit.
pub open spec fn is_digit_char(c: char) -> bool {
    '0' <= c && c <= '9'
}

/// The value of an ASCII decimal digit.
pub open spec fn digit_value(c: char) -> nat {
    (c as u32 - '0' as u32) as nat
}

/// The character of a decimal digit below ten.
pub open spec fn digit_char(d: nat) -> char {
    ((d + 48) as u8) as char
}

/// Non-empty text made of ASCII decimal digits only.
pub open spec fn is_decimal(s: Seq<char>) -> bool {
    s.len() > 0 && forall|i: int| 0 <= i < s.len() ==> is_digit_char(s[i])
}

/// The number that a string of decimal digits spells.
pub open spec fn decimal_value(s: Seq<char>) -> nat
    decreases s.len(),
{
    if s.len() == 0 {
        0
    } else {
        decimal_value(s.drop_last()) * 10 + digit_value(s.last())
    }
}

/// The shortest decimal text of `n`: no leading zero, and "0" for zero.
pub open spec fn decimal_text(n: nat) -> Seq<char>
    decreases n,
{
    if n < 10 {
        seq![digit_char(n)]
    } else {
        decimal_text(n / 10).push(digit_char(n % 10))
    }
}

/// What parsing decimal text yields: its value, or the error for it.
pub open spec fn decimal_outcome(s: Seq<char>) -> Result<nat, BridgeContractError> {
    if !is_decimal(s) {
        Err(BridgeContractError::InvalidEncoding)
    } else if decimal_value(s) > max_value() {
        Err(BridgeContractError::Overflow)
    } else {
        Ok(decimal_value(s))
    }
}


/// A prefix of decimal text never spells more than the whole text.
proof fn lemma_decimal_prefix(s: Seq<char>, k: int)
    requires
        0 <= k <= s.len(),
    ensures
        decimal_value(s.subrange(0, k)) <= decimal_value(s),
    decreases s.len(),
{
    if k < s.len() {
        let t = s.drop_last();
        assert(t.subrange(0, k) =~= s.subrange(0, k));
        lemma_decimal_prefix(t, k);
    } else {
        assert(s.subrange(0, k) =~= s);
    }
}

/// `a * 10 + d` over 32 bytes, with what is carried out of the top byte.
fn times_ten_plus(a: &[u8; 32], d: u8) -> (r: ([u8; 32], u8))
    requires
        d < 10,
    ensures
        be_value(r.0@) + r.1 as nat * pow256(32) == be_value(a@) * 10 + d as nat,
{
    let mut out = [0u8; 32];
    let mut carry: u16 = d as u16;
    let mut i: usize = 32;
    assert(out@.subrange(32, 32) =~= Seq::<u8>::empty());
    assert(a@.subrange(32, 32) =~= Seq::<u8>::empty());
    assert(pow256(0) == 1);
    assert(be_value(Seq::<u8>::empty()) == 0);
    assert(d as nat * pow256(0) == d as nat);
    while i > 0
        invariant
            i <= 32,
            carry <= 255,
            be_value(out@.subrange(i as int, 32)) + carry as nat * pow256((32 - i) as nat)
                == be_value(a@.subrange(i as int, 32)) * 10 + d as nat,
        decreases i,
    {
        let ghost before = out@;
        i = i - 1;
        let t: u16 = a[i] as u16 * 10 + carry;
        let low = (t % 256) as u8;
        let c: u16 = t / 256;
        out[i] = low;
        proof {
            assert(out@.subrange(i + 1, 32) =~= before.subrange(i + 1, 32));
            lemma_suffix_step(out@, i as int);
            lemma_suffix_step(a@, i as int);
            let p = pow256((32 - i - 1) as nat);
            assert(pow256((32 - i) as nat) == 256 * p);
            let ro = be_value(before.subrange(i + 1, 32));
            let ra = be_value(a@.subrange(i + 1, 32));
            let x = a[i as int] as nat;
            let l = low as nat;
            let cc = c as nat;
            let c0 = carry as nat;
            assert(l + 256 * cc == x * 10 + c0);
            assert(l * p + ro + cc * (256 * p) == (l + 256 * cc) * p + ro) by (nonlinear_arith);
            assert((x * 10 + c0) * p == (x * p) * 10 + c0 * p) by (nonlinear_arith);
            assert((x * p + ra) * 10 == (x * p) * 10 + ra * 10) by (nonlinear_arith);
        }
        carry = c;
    }
    assert(out@.subrange(0, 32) =~= out@);
    assert(a@.subrange(0, 32) =~= a@);
    (out, carry as u8)
}

/// 10 to the power `n`.
pub open spec fn pow10(n: nat) -> nat
    decreases n,
{
    if n == 0 {
        1
    } else {
        10 * pow10((n - 1) as nat)
    }
}

/// The number that decimal digits spell, least significant first.
pub open spec fn le_digits_value(d: Seq<u8>) -> nat
    decreases d.len(),
{
    if d.len() == 0 {
        0
    } else {
        le_digits_value(d.drop_last()) + d.last() as nat * pow10((d.len() - 1) as nat)
    }
}

/// Decimal digits, least significant first, with no zero at the top unless
/// the digit is alone.
pub open spec fn canonical_digits(d: Seq<u8>) -> bool {
    d.len() >= 1 && (forall|k: int| 0 <= k < d.len() ==> d[k] < 10) && (d.len() == 1 || d.last()
        != 0)
}

/// The digits written most significant first, as characters.
pub open spec fn digits_text(d: Seq<u8>) -> Seq<char> {
    Seq::new(d.len(), |k: int| digit_char(d[d.len() - 1 - k] as nat))
}

proof fn lemma_pow10_positive(n: nat)
    ensures
        pow10(n) >= 1,
    decreases n,
{
    if n > 0 {
        lemma_pow10_positive((n - 1) as nat);
    }
}

/// Digits below ten spell a number below 10^len.
proof fn lemma_digits_bound(d: Seq<u8>)
    requires
        forall|k: int| 0 <= k < d.len() ==> d[k] < 10,
    ensures
        le_digits_value(d) < pow10(d.len()),
    decreases d.len(),
{
    if d.len() > 0 {
        let t = d.drop_last();
        assert forall|k: int| 0 <= k < t.len() implies t[k] < 10 by {
            assert(t[k] == d[k]);
        }
        lemma_digits_bound(t);
        let p = pow10(t.len());
        let l = d.last() as nat;
        assert(le_digits_value(t) + l * p < 10 * p) by (nonlinear_arith)
            requires
                le_digits_value(t) < p,
                l < 10,
        ;
    }
}

/// Digits whose top digit is not zero spell at least 10^(len - 1).
proof fn lemma_digits_lower_bound(d: Seq<u8>)
    requires
        d.len() >= 1,
        d.last() != 0,
    ensures
        le_digits_value(d) >= pow10((d.len() - 1) as nat),
{
    let p = pow10((d.len() - 1) as nat);
    let l = d.last() as nat;
    assert(l * p >= p) by (nonlinear_arith)
        requires
            l >= 1,
    ;
}

/// The lowest digit splits off: value = d[0] + 10 * value of the rest.
proof fn lemma_digits_drop_first(d: Seq<u8>)
    requires
        d.len() >= 1,
    ensures
        le_digits_value(d) == d[0] as nat + 10 * le_digits_value(d.drop_first()),
    decreases d.len(),
{
    if d.len() == 1 {
        assert(d.drop_first() =~= Seq::<u8>::empty());
        assert(d.drop_last() =~= Seq::<u8>::empty());
        assert(le_digits_value(Seq::<u8>::empty()) == 0);
        assert(pow10(0) == 1);
        assert(d.last() == d[0]);
        assert(le_digits_value(d) == le_digits_value(d.drop_last()) + d.last() as nat * pow10(0));
        assert(le_digits_value(d) == d[0] as nat);
        assert(le_digits_value(d.drop_first()) == 0);
    } else {
        let t = d.drop_last();
        lemma_digits_drop_first(t);
        assert(d.drop_first().drop_last() =~= t.drop_first());
        let n = (d.len() - 1) as nat;
        let l = d.last() as nat;
        assert(pow10(n) == 10 * pow10((n - 1) as nat));
        assert(d.drop_first().last() == d.last());
        assert(t[0] == d[0]);
        assert(le_digits_value(d) == le_digits_value(t) + l * pow10(n));
        assert(le_digits_value(d.drop_first()) == le_digits_value(t.drop_first()) + l * pow10(
            (n - 1) as nat,
        ));
        assert(10 * (le_digits_value(t.drop_first()) + l * pow10((n - 1) as nat)) == 10
            * le_digits_value(t.drop_first()) + l * (10 * pow10((n - 1) as nat)))
            by (nonlinear_arith);
    }
}

/// Canonical digits, written most significant first, are the shortest
/// decimal text of their value.
proof fn lemma_digits_text(d: Seq<u8>)
    requires
        canonical_digits(d),
    ensures
        decimal_text(le_digits_value(d)) == digits_text(d),
    decreases d.len(),
{
    lemma_digits_drop_first(d);
    let n = le_digits_value(d);
    if d.len() == 1 {
        assert(le_digits_value(d.drop_first()) == 0) by {
            assert(d.drop_first() =~= Seq::<u8>::empty());
        }
        assert(decimal_text(n) =~= digits_text(d));
    } else {
        let t = d.drop_first();
        assert(t.last() == d.last());
        assert(canonical_digits(t)) by {
            assert forall|k: int| 0 <= k < t.len() implies t[k] < 10 by {
                assert(t[k] == d[k + 1]);
            }
        }
        lemma_digits_text(t);
        lemma_digits_lower_bound(t);
        lemma_pow10_positive((t.len() - 1) as nat);
        let w = le_digits_value(t);
        assert(n / 10 == w && n % 10 == d[0] as nat) by {
            vstd::arithmetic::div_mod::lemma_fundamental_div_mod_converse(
                n as int,
                10,
                w as int,
                d[0] as int,
            );
        }
        assert(decimal_text(n) == decimal_text(w).push(digit_char(d[0] as nat)));
        assert(decimal_text(n) =~= digits_text(d));
    }
}

/// `d * 256 + byte` on decimal digits, least significant first.
fn digits_times_256_plus(digits: &mut Vec<u8>, byte: u8)
    requires
        canonical_digits(old(digits)@),
    ensures
        canonical_digits(final(digits)@),
        le_digits_value(final(digits)@) == le_digits_value(old(digits)@) * 256 + byte as nat,
{
    let ghost start = digits@;
    let n = digits.len();
    let mut carry: u16 = byte as u16;
    let mut i: usize = 0;
    proof {
        assert(digits@.subrange(0, 0) =~= Seq::<u8>::empty());
        assert(start.subrange(0, 0) =~= Seq::<u8>::empty());
        assert(le_digits_value(Seq::<u8>::empty()) == 0);
        assert(pow10(0) == 1);
    }
    while i < n
        invariant
            i <= n,
            n == digits@.len(),
            n == start.len(),
            carry <= 255,
            forall|k: int| 0 <= k < n ==> digits@[k] < 10,
            forall|k: int| i <= k < n ==> digits@[k] == start[k],
            le_digits_value(digits@.subrange(0, i as int)) + carry as nat * pow10(i as nat)
                == le_digits_value(start.subrange(0, i as int)) * 256 + byte as nat,
        decreases n - i,
    {
        let ghost before = digits@;
        let v: u16 = digits[i] as u16 * 256 + carry;
        digits.set(i, (v % 10) as u8);
        proof {
            let p = pow10(i as nat);
            let x = start[i as int] as nat;
            let q = (v / 10) as nat;
            let r = (v % 10) as nat;
            assert(digits@.subrange(0, i + 1).drop_last() =~= before.subrange(0, i as int));
            assert(start.subrange(0, i + 1).drop_last() =~= start.subrange(0, i as int));
            assert(pow10((i + 1) as nat) == 10 * p);
            assert(r + 10 * q == x * 256 + carry as nat);
            assert(r * p + q * (10 * p) == x * 256 * p + carry as nat * p) by (nonlinear_arith)
                requires
                    r + 10 * q == x * 256 + carry as nat,
            ;
            assert((le_digits_value(start.subrange(0, i as int)) + x * p) * 256
                == le_digits_value(start.subrange(0, i as int)) * 256 + x * 256 * p)
                by (nonlinear_arith);
        }
        carry = v / 10;
        i = i + 1;
    }
    proof {
        assert(digits@.subrange(0, n as int) =~= digits@);
        assert(start.subrange(0, n as int) =~= start);
        if carry == 0 && n > 1 {
            lemma_digits_bound(digits@);
            lemma_digits_lower_bound(start);
            let p = pow10((n - 1) as nat);
            assert(pow10(n as nat) == 10 * p);
            assert(le_digits_value(start) * 256 >= 10 * p) by (nonlinear_arith)
                requires
                    le_digits_value(start) >= p,
            ;
        }
    }
    while carry != 0
        invariant
            forall|k: int| 0 <= k < digits@.len() ==> digits@[k] < 10,
            digits@.len() >= 1,
            carry != 0 || digits@.len() == 1 || digits@.last() != 0,
            le_digits_value(digits@) + carry as nat * pow10(digits@.len())
                == le_digits_value(start) * 256 + byte as nat,
        decreases carry,
    {
        let ghost before = digits@;
        digits.push((carry % 10) as u8);
        proof {
            let p = pow10(before.len());
            let q = (carry / 10) as nat;
            let r = (carry % 10) as nat;
            assert(digits@.drop_last() =~= before);
            assert(pow10(digits@.len()) == 10 * p);
            assert(r * p + q * (10 * p) == carry as nat * p) by (nonlinear_arith)
                requires
                    r + 10 * q == carry as nat,
            ;
        }
        carry = carry / 10;
    }
    proof {
        lemma_pow10_positive(digits@.len());
    }
}

/// The one-character text of a decimal digit.
fn digit_text(d: u8) -> (r: &'static str)
    requires
        d < 10,
    ensures
        r@ == seq![digit_char(d as nat)],
{
    proof {
        reveal_strlit("0");
        reveal_strlit("1");
        reveal_strlit("2");
        reveal_strlit("3");
        reveal_strlit("4");
        reveal_strlit("5");
        reveal_strlit("6");
        reveal_strlit("7");
        reveal_strlit("8");
        reveal_strlit("9");
    }
    match d {
        0 => "0",
        1 => "1",
        2 => "2",
        3 => "3",
        4 => "4",
        5 => "5",
        6 => "6",
        7 => "7",
        8 => "8",
        _ => "9",
    }
}

impl U256 {
    /// Parses decimal text; leading zeros are accepted.
    pub fn from_decimal(s: String) -> (r: Result<Self, BridgeContractError>)
        ensures
            agrees(r, decimal_outcome(s@)),
    {
        if !s.is_ascii() {
            proof {
                assert(!is_decimal(s@)) by {
                    if is_decimal(s@) {
                        assert(is_ascii_chars(s@));
                    }
                }
            }
            return Err(BridgeContractError::InvalidEncoding);
        }
        let text = s.as_str();
        let bytes = text.as_bytes();
        proof {
            vstd::string::is_ascii_spec_bytes(text);
        }
        let n = bytes.len();
        if n == 0 {
            return Err(BridgeContractError::InvalidEncoding);
        }
        let mut i: usize = 0;
        while i < n
            invariant
                i <= n,
                n == bytes@.len(),
                n == s@.len(),
                bytes@ == Seq::new(s@.len(), |j: int| s@[j] as u8),
                is_ascii_chars(s@),
                forall|j: int| 0 <= j < i ==> is_digit_char(s@[j]),
            decreases n - i,
        {
            let c = bytes[i];
            proof {
                assert(c == s@[i as int] as u8);
                assert('\0' <= s@[i as int] <= '\u{7f}');
            }
            if c < 48 || c > 57 {
                return Err(BridgeContractError::InvalidEncoding);
            }
            assert(is_digit_char(s@[i as int]));
            i = i + 1;
        }
        let mut acc = [0u8; 32];
        proof {
            lemma_value_zero(acc@);
            assert(s@.subrange(0, 0) =~= Seq::<char>::empty());
        }
        let mut i: usize = 0;
        while i < n
            invariant
                i <= n,
                n == bytes@.len(),
                n == s@.len(),
                bytes@ == Seq::new(s@.len(), |j: int| s@[j] as u8),
                is_decimal(s@),
                be_value(acc@) == decimal_value(s@.subrange(0, i as int)),
            decreases n - i,
        {
            let d = bytes[i] - 48;
            let (next, carry) = times_ten_plus(&acc, d);
            proof {
                assert(s@.subrange(0, i + 1).drop_last() =~= s@.subrange(0, i as int));
                assert(digit_value(s@[i as int]) == d as nat);
                assert(decimal_value(s@.subrange(0, i + 1)) == be_value(next@) + carry as nat * pow256(32));
            }
            if carry != 0 {
                proof {
                    lemma_decimal_prefix(s@, i + 1);
                    let p = pow256(32);
                    let cc = carry as nat;
                    assert(cc * p >= p) by (nonlinear_arith)
                        requires
                            cc >= 1,
                    ;
                    lemma_pow256_positive(32);
                    assert(decimal_value(s@.subrange(0, i + 1)) >= p);
                    assert(decimal_value(s@) > max_value());
                    assert(decimal_outcome(s@) == Err::<nat, BridgeContractError>(
                        BridgeContractError::Overflow,
                    ));
                }
                return Err(BridgeContractError::Overflow);
            }
            acc = next;
            i = i + 1;
        }
        proof {
            assert(s@.subrange(0, n as int) =~= s@);
            lemma_value_bound(acc@);
        }
        Ok(U256(acc))
    }

    /// The shortest decimal text of the value, "0" for zero: each byte, from
    /// the most significant, is multiplied into decimal digits by 256 and added.
    pub fn to_decimal(&self) -> (r: String)
        ensures
            r@ == decimal_text(self.value()),
    {
        let mut digits: Vec<u8> = Vec::new();
        digits.push(0);
        proof {
            assert(digits@.drop_last() =~= Seq::<u8>::empty());
            assert(le_digits_value(Seq::<u8>::empty()) == 0);
            assert(digits@.last() == 0);
            assert(le_digits_value(digits@) == le_digits_value(digits@.drop_last()) + 0 * pow10(0));
            assert(self.0@.subrange(0, 0) =~= Seq::<u8>::empty());
        }
        let mut j: usize = 0;
        while j < 32
            invariant
                j <= 32,
                canonical_digits(digits@),
                le_digits_value(digits@) == be_value(self.0@.subrange(0, j as int)),
            decreases 32 - j,
        {
            digits_times_256_plus(&mut digits, self.0[j]);
            proof {
                assert(self.0@.subrange(0, j + 1).drop_last() =~= self.0@.subrange(0, j as int));
            }
            j = j + 1;
        }
        proof {
            assert(self.0@.subrange(0, 32) =~= self.0@);
            lemma_digits_text(digits@);
        }
        let ghost tail = digits_text(digits@);
        let mut out = String::new();
        let mut k: usize = digits.len();
        while k > 0
            invariant
                k <= digits@.len(),
                tail == digits_text(digits@),
                canonical_digits(digits@),
                out@ == tail.subrange(0, (digits@.len() - k) as int),
            decreases k,
        {
            k = k - 1;
            let piece = digit_text(digits[k]);
            out.append(piece);
            proof {
                let j = (digits@.len() - 1 - k) as int;
                assert(tail[j] == digit_char(digits@[k as int] as nat));
                assert(tail.subrange(0, j + 1) =~= tail.subrange(0, j).push(tail[j]));
            }
        }
        proof {
            assert(tail.subrange(0, tail.len() as int) =~= tail);
        }
        out
    }
}


/// What reading 64 hexadecimal digits yields: the value they spell, or
/// `InvalidEncoding` for any other text.
pub open spec fn hex_outcome(b: Seq<u8>) -> Result<nat, BridgeContractError> {
    if b.len() == 64 && all_hex(b) {
        Ok(be_value(hex_decoded(b)))
    } else {
        Err(BridgeContractError::InvalidEncoding)
    }
}

impl U256 {
    /// Reads exactly 64 hexadecimal digits of either case, most significant first.
    pub fn from_hex(b: &[u8]) -> (r: Result<Self, BridgeContractError>)
        ensures
            agrees(r, hex_outcome(b@)),
            r matches Ok(v) ==> v.0@ == hex_decoded(b@),
    {
        if b.len() != 64 {
            return Err(BridgeContractError::InvalidEncoding);
        }
        match hex_decode(b) {
            None => Err(BridgeContractError::InvalidEncoding),
            Some(v) => {
                let mut out = [0u8; 32];
                let mut i: usize = 0;
                while i < 32
                    invariant
                        i <= 32,
                        v@.len() == 32,
                        forall|j: int| 0 <= j < i ==> out@[j] == v@[j],
                    decreases 32 - i,
                {
                    out[i] = v[i];
                    i = i + 1;
                }
                assert(out@ =~= v@);
                Ok(U256(out))
            },
        }
    }

    /// The value as 64 lowercase hexadecimal digits, zero-padded.
    pub fn to_hex(&self) -> (r: String)
        ensures
            r@ == hex_encoded(self.0@),
            r@.len() == 64,
    {
        hex_encode(self.0.as_slice())
    }
}


/// What reading amount text yields: text of two or more characters that
/// starts with '0' is read as 64 hexadecimal digits, any other as decimal.
pub open spec fn text_outcome(s: Seq<char>) -> Result<nat, BridgeContractError> {
    if s.len() > 1 && s[0] == '0' {
        hex_outcome(encode_utf8(s))
    } else {
        decimal_outcome(s)
    }
}

impl U256 {
    /// Reads amount text: hexadecimal where it has two or more characters and
    /// starts with '0', decimal otherwise.
    pub fn from_text(s: String) -> (r: Result<Self, BridgeContractError>)
        ensures
            agrees(r, text_outcome(s@)),
    {
        let text = s.as_str();
        if text.unicode_len() > 1 && text.get_char(0) == '0' {
            Self::from_hex(text.as_bytes())
        } else {
            Self::from_decimal(s)
        }
    }
}


/// A digit character read and written again is itself.
proof fn lemma_digit_round_trip(c: char)
    requires
        is_digit_char(c),
    ensures
        digit_value(c) < 10,
        digit_char(digit_value(c)) == c,
{
}

/// Decimal text whose first digit is not zero spells a positive number.
proof fn lemma_leading_digit_positive(s: Seq<char>)
    requires
        is_decimal(s),
        s[0] != '0',
    ensures
        decimal_value(s) > 0,
{
    lemma_decimal_prefix(s, 1);
    let p = s.subrange(0, 1);
    assert(p.drop_last() =~= Seq::<char>::empty());
    assert(decimal_value(Seq::<char>::empty()) == 0);
    assert(p.last() == s[0]);
    assert(decimal_value(p) == decimal_value(p.drop_last()) * 10 + digit_value(p.last()));
}

/// Decimal text without leading zeros is the shortest text of its value.
proof fn lemma_decimal_text_of_value(s: Seq<char>)
    requires
        is_decimal(s),
        s.len() == 1 || s[0] != '0',
    ensures
        decimal_text(decimal_value(s)) == s,
    decreases s.len(),
{
    let d = digit_value(s.last());
    lemma_digit_round_trip(s.last());
    if s.len() == 1 {
        assert(s.drop_last() =~= Seq::<char>::empty());
        assert(decimal_value(Seq::<char>::empty()) == 0);
        assert(decimal_value(s) == decimal_value(s.drop_last()) * 10 + d);
        assert(decimal_text(d) =~= s);
    } else {
        let t = s.drop_last();
        assert(t[0] == s[0]);
        assert(is_decimal(t));
        lemma_decimal_text_of_value(t);
        lemma_leading_digit_positive(t);
        let v = decimal_value(s);
        let w = decimal_value(t);
        assert(v / 10 == w && v % 10 == d) by {
            vstd::arithmetic::div_mod::lemma_fundamental_div_mod_converse(
                v as int,
                10,
                w as int,
                d as int,
            );
        }
        assert(decimal_text(v) == decimal_text(w).push(digit_char(d)));
        assert(s =~= t.push(s.last()));
    }
}

/// Decimal text without leading zeros whose value fits in 256 bits is read as
/// that value, and the value is written back as the same text.
pub proof fn lemma_decimal_round_trip(s: Seq<char>)
    requires
        is_decimal(s),
        s.len() == 1 || s[0] != '0',
        decimal_value(s) <= max_value(),
    ensures
        decimal_outcome(s) == Ok::<nat, BridgeContractError>(decimal_value(s)),
        decimal_text(decimal_value(s)) == s,
{
    lemma_decimal_text_of_value(s);
}

/// 64 hexadecimal digits are read as a value whose hexadecimal text is the
/// same digits in lowercase.
pub proof fn lemma_hex_round_trip_text(h: Seq<u8>)
    requires
        h.len() == 64,
        all_hex(h),
    ensures
        hex_outcome(h) is Ok,
        hex_decoded(h).len() == 32,
        hex_encoded(hex_decoded(h)) == Seq::new(64, |i: int| lower_hex_char(h[i])),
{
    lemma_hex_round_trip(h);
}

/// Addition is commutative, and it overflows exactly where the sum exceeds
/// 2^256 - 1.
pub proof fn lemma_add_commutative(a: U256, b: U256, r1: Result<U256, BridgeContractError>, r2: Result<U256, BridgeContractError>)
    requires
        agrees(r1, sum_outcome(a.value(), b.value())),
        agrees(r2, sum_outcome(b.value(), a.value())),
    ensures
        r1 is Ok <==> r2 is Ok,
        r1 matches Ok(v1) ==> (r2 matches Ok(v2) && v1.0@ == v2.0@),
        (r1 == Err::<U256, BridgeContractError>(BridgeContractError::Overflow)) <==> a.value()
            + b.value() > max_value(),
{
    if r1 is Ok {
        let v1 = r1->Ok_0;
        let v2 = r2->Ok_0;
        lemma_value_injective(v1.0@, v2.0@);
    }
}

/// Subtracting `b` from `a + b` gives back `a` where the sum does not overflow.
pub proof fn lemma_subtract_undoes_add(a: U256, b: U256, s: U256, d: Result<U256, BridgeContractError>)
    requires
        agrees(Ok(s), sum_outcome(a.value(), b.value())),
        agrees(d, difference_outcome(s.value(), b.value())),
    ensures
        d matches Ok(v) && v.0@ == a.0@,
{
    let v = d->Ok_0;
    lemma_value_injective(v.0@, a.0@);
}

/// The order of `a_greater_than_b` is a strict total order: irreflexive,
/// transitive, and of two distinct values exactly one is the greater.
pub proof fn lemma_order_total(a: U256, b: U256, c: U256)
    ensures
        !(a.value() > a.value()),
        a.value() > b.value() && b.value() > c.value() ==> a.value() > c.value(),
        a.0@ != b.0@ ==> (a.value() > b.value()) != (b.value() > a.value()),
        a.0@ == b.0@ ==> !(a.value() > b.value()) && !(b.value() > a.value()),
{
    if a.0@ != b.0@ && a.value() == b.value() {
        lemma_value_injective(a.0@, b.0@);
    }
}

} // verus!
