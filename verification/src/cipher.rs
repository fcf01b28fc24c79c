//! The cipher engine: a classic alphabetic substitution cipher over bytes.
//!
//! Every shift value is reduced into `0..26` before use, so any `i32`
//! (negative or arbitrarily large) is a valid shift. ASCII uppercase letters
//! rotate within `'A'..='Z'`, lowercase within `'a'..='z'`; every other byte
//! (whitespace, digits, punctuation, non-ASCII) passes through unchanged, so
//! the transform is total and length-preserving over all byte sequences.

use vstd::prelude::*;

verus! {

/// A byte is an ASCII uppercase letter (`'A'..='Z'`).
pub open spec fn is_upper(b: u8) -> bool {
    65 <= b && b <= 90
}

/// A byte is an ASCII lowercase letter (`'a'..='z'`).
pub open spec fn is_lower(b: u8) -> bool {
    97 <= b && b <= 122
}

/// A byte is an ASCII letter.
pub open spec fn is_letter(b: u8) -> bool {
    is_upper(b) || is_lower(b)
}

/// A byte is ASCII whitespace (space, tab, line feed, form feed, carriage
/// return).
pub open spec fn is_whitespace(b: u8) -> bool {
    b == 32 || b == 9 || b == 10 || b == 12 || b == 13
}

/// The shift reduced into `0..26`. In spec arithmetic `%` is Euclidean, so
/// the result is non-negative for every `s`, negative shifts included.
pub open spec fn effective_shift(s: int) -> int {
    s % 26
}

/// The complementary shift that undoes `effective_shift(s)`. A zero effective
/// shift complements to zero (equivalently to a full cycle of 26: both are
/// the identity rotation).
pub open spec fn decrypt_shift(s: int) -> int {
    (26 - effective_shift(s)) % 26
}

/// One byte through the cipher at an already-reduced shift `k`: letters
/// rotate within their case's alphabet, everything else is unchanged.
pub open spec fn shift_byte(b: u8, k: int) -> u8
    recommends
        0 <= k < 26,
{
    if is_upper(b) {
        (((b - 65) + k) % 26 + 65) as u8
    } else if is_lower(b) {
        (((b - 97) + k) % 26 + 97) as u8
    } else {
        b
    }
}

/// The whole encryption transform: every byte shifted by the reduced shift.
pub open spec fn encrypt_spec(m: Seq<u8>, s: int) -> Seq<u8> {
    m.map_values(|b: u8| shift_byte(b, effective_shift(s)))
}

/// The whole decryption transform: every byte shifted by the complementary
/// shift.
pub open spec fn decrypt_spec(c: Seq<u8>, s: int) -> Seq<u8> {
    c.map_values(|b: u8| shift_byte(b, decrypt_shift(s)))
}

/// Reduces an arbitrary `i32` shift into `0..26`.
fn normalize_shift(shift: i32) -> (k: u8)
    ensures
        k as int == effective_shift(shift as int),
{
    let r: i32 = shift % 26;
    let e: i32 = (r + 26) % 26;
    e as u8
}

/// Applies the cipher at an already-reduced shift to every byte.
fn apply_shift(msg: &[u8], k: u8) -> (r: Vec<u8>)
    requires
        k < 26,
    ensures
        r@.len() == msg@.len(),
        forall|j: int| 0 <= j < msg@.len() ==> r@[j] == shift_byte(msg@[j], k as int),
{
    let mut out: Vec<u8> = Vec::new();
    let mut i: usize = 0;
    while i < msg.len()
        invariant
            i <= msg@.len(),
            k < 26,
            out@.len() == i,
            forall|j: int| 0 <= j < i ==> out@[j] == shift_byte(msg@[j], k as int),
        decreases msg@.len() - i,
    {
        let b = msg[i];
        let sb: u8 = if b >= 65 && b <= 90 {
            ((b - 65) + k) % 26 + 65
        } else if b >= 97 && b <= 122 {
            ((b - 97) + k) % 26 + 97
        } else {
            b
        };
        out.push(sb);
        i += 1;
    }
    out
}

/// Encrypts `msg` with an arbitrary `i32` shift: the result is
/// `encrypt_spec(msg@, shift)`, and in particular has the same length as the
/// input.
pub fn encrypt_message(msg: &[u8], shift: i32) -> (r: Vec<u8>)
    ensures
        r@ == encrypt_spec(msg@, shift as int),
        r@.len() == msg@.len(),
{
    let k = normalize_shift(shift);
    let out = apply_shift(msg, k);
    proof {
        assert(out@ =~= encrypt_spec(msg@, shift as int));
    }
    out
}

/// Decrypts `msg` with the same shift that encrypted it: the result is
/// `decrypt_spec(msg@, shift)`, and in particular has the same length as the
/// input.
pub fn decrypt_message(msg: &[u8], shift: i32) -> (r: Vec<u8>)
    ensures
        r@ == decrypt_spec(msg@, shift as int),
        r@.len() == msg@.len(),
{
    let k = normalize_shift(shift);
    let dk: u8 = (26 - k) % 26;
    let out = apply_shift(msg, dk);
    proof {
        assert(out@ =~= decrypt_spec(msg@, shift as int));
    }
    out
}

/// Remainders by 26 of values below two full cycles, written out.
proof fn lemma_small_mod(t: int)
    requires
        0 <= t < 52,
    ensures
        t % 26 == if t < 26 {
            t
        } else {
            t - 26
        },
{
}

/// Undoing one byte: the complementary shift returns every byte to itself.
proof fn lemma_shift_byte_round_trip(b: u8, k: int)
    requires
        0 <= k < 26,
    ensures
        shift_byte(shift_byte(b, k), (26 - k) % 26) == b,
{
    lemma_small_mod(26 - k);
    if is_upper(b) {
        let x = b - 65;
        lemma_small_mod(x + k);
        lemma_small_mod((x + k) % 26 + (26 - k) % 26);
        assert(((x + k) % 26 + (26 - k) % 26) % 26 == x);
    } else if is_lower(b) {
        let x = b - 97;
        lemma_small_mod(x + k);
        lemma_small_mod((x + k) % 26 + (26 - k) % 26);
        assert(((x + k) % 26 + (26 - k) % 26) % 26 == x);
    }
}

/// Round-trip law: decrypting an encryption with the same shift reproduces
/// the original byte sequence exactly, for every byte sequence and every
/// shift.
pub proof fn lemma_round_trip(m: Seq<u8>, s: int)
    ensures
        decrypt_spec(encrypt_spec(m, s), s) == m,
{
    let e = effective_shift(s);
    assert forall|i: int| 0 <= i < m.len() implies decrypt_spec(encrypt_spec(m, s), s)[i]
        == m[i] by {
        lemma_shift_byte_round_trip(m[i], e);
    }
    assert(decrypt_spec(encrypt_spec(m, s), s) =~= m);
}

/// Identity on untransformed classes: a sequence with no ASCII letters and no
/// ASCII whitespace is unchanged by encryption at any shift.
pub proof fn lemma_identity_on_nonletters(b: Seq<u8>, s: int)
    requires
        forall|i: int| 0 <= i < b.len() ==> !is_letter(b[i]) && !is_whitespace(b[i]),
    ensures
        encrypt_spec(b, s) == b,
{
    assert(encrypt_spec(b, s) =~= b);
}

/// Periodicity: shifts 26 apart encrypt identically, so the shift value only
/// matters modulo 26.
pub proof fn lemma_shift_periodic(m: Seq<u8>, s: int)
    ensures
        encrypt_spec(m, s + 26) == encrypt_spec(m, s),
        encrypt_spec(m, s - 26) == encrypt_spec(m, s),
{
    assert(effective_shift(s + 26) == effective_shift(s));
    assert(effective_shift(s - 26) == effective_shift(s));
    assert(encrypt_spec(m, s + 26) =~= encrypt_spec(m, s));
    assert(encrypt_spec(m, s - 26) =~= encrypt_spec(m, s));
}

/// A zero shift is the identity transform.
pub proof fn lemma_zero_shift_identity(m: Seq<u8>)
    ensures
        encrypt_spec(m, 0) == m,
{
    assert(encrypt_spec(m, 0) =~= m);
}

/// Whitespace is never altered, whatever the shift (negative and large
/// shifts included).
pub proof fn lemma_whitespace_unchanged(m: Seq<u8>, s: int)
    ensures
        encrypt_spec(m, s).len() == m.len(),
        forall|i: int|
            0 <= i < m.len() && is_whitespace(m[i]) ==> encrypt_spec(m, s)[i] == m[i],
{
}

/// Case is preserved: uppercase letters map to uppercase letters, lowercase
/// to lowercase, and non-letters to non-letters.
pub proof fn lemma_case_preserved(m: Seq<u8>, s: int)
    ensures
        encrypt_spec(m, s).len() == m.len(),
        forall|i: int|
            0 <= i < m.len() && is_upper(m[i]) ==> is_upper(encrypt_spec(m, s)[i]),
        forall|i: int|
            0 <= i < m.len() && is_lower(m[i]) ==> is_lower(encrypt_spec(m, s)[i]),
        forall|i: int|
            0 <= i < m.len() && !is_letter(m[i]) ==> encrypt_spec(m, s)[i] == m[i],
{
}

} // verus!
