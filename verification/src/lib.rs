//! A toy symmetric cipher that XORs the Unicode scalar values of a message
//! against a cyclically repeated key.
//!
//! The cipher is an involution: applying it twice with the same key recovers
//! the original message, provided every positional XOR pairing yields a valid
//! Unicode scalar value. Not every pairing does — the XOR of two valid scalar
//! values can land in the surrogate range 0xD800..=0xDFFF — so both operations
//! report such collisions as errors instead of producing corrupted output.

use vstd::prelude::*;

verus! {

/// A `u32` is a Unicode scalar value: at most 0x10FFFF and not a surrogate.
pub open spec fn valid_scalar(v: u32) -> bool {
    v <= 0x10FFFF && !(0xD800 <= v && v <= 0xDFFF)
}

/// The bitwise XOR of the Unicode scalar values of two characters.
pub open spec fn xor_scalars(l: char, r: char) -> u32 {
    (l as u32) ^ (r as u32)
}

/// The XOR of the two scalar values is not itself a valid scalar value.
#[derive(Debug, Clone, Copy, PartialEq, Eq, Structural)]
pub struct InvalidScalarValue {
    /// The XOR result that is not a Unicode scalar value.
    pub value: u32,
}

/// A positional XOR pairing inside a message produced an invalid scalar value.
#[derive(Debug, Clone, Copy, PartialEq, Eq, Structural)]
pub struct CipherError {
    /// The character position of the offending pairing.
    pub position: usize,
    /// The XOR result that is not a Unicode scalar value.
    pub value: u32,
}

/// Relies on char::from_u32: it returns `Some` exactly when the value is a
/// Unicode scalar value, and the returned character has that value.
#[verifier::external_body]
fn char_from_scalar(v: u32) -> (r: Option<char>)
    ensures
        r is Some <==> valid_scalar(v),
        r matches Some(c) ==> c as u32 == v,
{
    char::from_u32(v)
}

/// XOR the Unicode scalar values of two characters.
///
/// Succeeds with the character whose scalar value is the XOR; fails when the
/// XOR lands in the surrogate range or exceeds 0x10FFFF.
pub fn xor_chars(l: char, r: char) -> (result: Result<char, InvalidScalarValue>)
    ensures
        valid_scalar(xor_scalars(l, r)) ==> (result matches Ok(c) && c as u32 == xor_scalars(
            l,
            r,
        )),
        !valid_scalar(xor_scalars(l, r)) ==> (result matches Err(e) && e.value == xor_scalars(
            l,
            r,
        )),
{
    let x = (l as u32) ^ (r as u32);
    match char_from_scalar(x) {
        Some(c) => Ok(c),
        None => Err(InvalidScalarValue { value: x }),
    }
}

/// The scalar XOR at position `i` of message `m` under the cyclic key `k`:
/// the message character at `i` paired with the key character at `i mod k.len()`.
pub open spec fn pair_xor(m: Seq<char>, k: Seq<char>, i: int) -> u32
    recommends
        0 <= i < m.len(),
        k.len() > 0,
{
    xor_scalars(m[i], k[i % k.len() as int])
}

/// Every positional pairing of the message with the cyclic key yields a valid
/// Unicode scalar value.
pub open spec fn all_pairs_valid(m: Seq<char>, k: Seq<char>) -> bool {
    forall|i: int| 0 <= i < m.len() ==> valid_scalar(#[trigger] pair_xor(m, k, i))
}

/// The ciphertext of message `m` under the non-empty cyclic key `k`: character
/// `i` of the output is the XOR of character `i` of the message with the key
/// character at `i mod k.len()`.
pub open spec fn cipher_seq(m: Seq<char>, k: Seq<char>) -> Seq<char>
    recommends
        k.len() > 0,
        all_pairs_valid(m, k),
{
    Seq::new(m.len(), |i: int| pair_xor(m, k, i) as char)
}

/// Relies on String::push: it appends the character at the end of the string.
#[verifier::external_body]
fn push_char(s: &mut String, c: char)
    ensures
        final(s)@ == old(s)@.push(c),
{
    s.push(c);
}

/// A valid scalar value cast to `char` is the one character with that value.
proof fn lemma_scalar_char_roundtrip(v: u32, c: char)
    requires
        valid_scalar(v),
        c as u32 == v,
    ensures
        v as char == c,
{
}

/// The scalar value of every character is a valid scalar value.
proof fn lemma_char_is_valid_scalar(c: char)
    ensures
        valid_scalar(c as u32),
{
}

/// Encrypt or decrypt a message with the XOR cipher under a cyclic key.
///
/// Each character of the message is XORed with the key character at the same
/// position, the key repeating from its start whenever the message is longer.
/// An empty key yields an empty output. The first pairing whose XOR is not a
/// valid Unicode scalar value fails the whole operation, reporting the
/// position and the offending value; no partial output is ever returned.
pub fn cipher(message: &str, key: &str) -> (result: Result<String, CipherError>)
    ensures
        key@.len() == 0 ==> (result matches Ok(out) && out@ == Seq::<char>::empty()),
        key@.len() > 0 && all_pairs_valid(message@, key@) ==> (result matches Ok(out) && out@
            == cipher_seq(message@, key@)),
        key@.len() > 0 && !all_pairs_valid(message@, key@) ==> (result matches Err(e) && {
            &&& e.position < message@.len()
            &&& !valid_scalar(pair_xor(message@, key@, e.position as int))
            &&& forall|j: int|
                0 <= j < e.position ==> valid_scalar(#[trigger] pair_xor(message@, key@, j))
            &&& e.value == pair_xor(message@, key@, e.position as int)
        }),
        key@.len() > 0 ==> (result matches Ok(out) ==> out@.len() == message@.len()),
{
    let klen = key.unicode_len();
    if klen == 0 {
        return Ok(String::new());
    }
    let mlen = message.unicode_len();
    let mut out = String::new();
    let mut i: usize = 0;
    while i < mlen
        invariant
            klen == key@.len(),
            mlen == message@.len(),
            klen > 0,
            i <= mlen,
            out@.len() == i,
            forall|j: int|
                0 <= j < i ==> valid_scalar(#[trigger] pair_xor(message@, key@, j)) && out@[j]
                    as u32 == pair_xor(message@, key@, j),
        decreases mlen - i,
    {
        let mc = message.get_char(i);
        let kc = key.get_char(i % klen);
        proof {
            assert(pair_xor(message@, key@, i as int) == xor_scalars(mc, kc));
        }
        match xor_chars(mc, kc) {
            Ok(c) => push_char(&mut out, c),
            Err(e) => {
                proof {
                    assert(!valid_scalar(pair_xor(message@, key@, i as int)));
                    assert(!all_pairs_valid(message@, key@));
                }
                return Err(CipherError { position: i, value: e.value });
            },
        }
        i += 1;
    }
    proof {
        assert forall|j: int| 0 <= j < mlen implies out@[j] == cipher_seq(message@, key@)[j] by {
            assert(valid_scalar(pair_xor(message@, key@, j)));
            assert(out@[j] as u32 == pair_xor(message@, key@, j));
            lemma_scalar_char_roundtrip(pair_xor(message@, key@, j), out@[j]);
        }
        assert(out@ =~= cipher_seq(message@, key@));
    }
    Ok(out)
}

/// Casting a valid scalar value to `char` and back is the identity.
proof fn lemma_char_scalar_roundtrip(v: u32)
    requires
        valid_scalar(v),
    ensures
        (v as char) as u32 == v,
{
}

/// XORing with the same value twice is the identity.
proof fn lemma_xor_cancel(a: u32, b: u32)
    ensures
        (a ^ b) ^ b == a,
{
    assert((a ^ b) ^ b == a) by (bit_vector);
}

/// Key-cycling law: character `i` of the ciphertext has the scalar value of
/// the XOR of message character `i` with the key character at `i mod k.len()`.
pub proof fn lemma_key_cycling(m: Seq<char>, k: Seq<char>, i: int)
    requires
        k.len() > 0,
        0 <= i < m.len(),
        valid_scalar(xor_scalars(m[i], k[i % k.len() as int])),
    ensures
        cipher_seq(m, k).len() == m.len(),
        cipher_seq(m, k)[i] as u32 == xor_scalars(m[i], k[i % k.len() as int]),
{
    lemma_char_scalar_roundtrip(xor_scalars(m[i], k[i % k.len() as int]));
}

/// Involution law: under a non-empty key whose every positional pairing with
/// the message yields a valid scalar value, every pairing of the ciphertext
/// with the same key is valid too, and ciphering the ciphertext recovers the
/// message, character for character.
pub proof fn lemma_cipher_involution(m: Seq<char>, k: Seq<char>)
    requires
        k.len() > 0,
        all_pairs_valid(m, k),
    ensures
        all_pairs_valid(cipher_seq(m, k), k),
        cipher_seq(cipher_seq(m, k), k) == m,
{
    let c = cipher_seq(m, k);
    assert forall|i: int| 0 <= i < c.len() implies valid_scalar(#[trigger] pair_xor(c, k, i))
        && pair_xor(c, k, i) == m[i] as u32 by {
        let kv = k[i % k.len() as int] as u32;
        assert(valid_scalar(pair_xor(m, k, i)));
        lemma_char_scalar_roundtrip(pair_xor(m, k, i));
        assert(c[i] as u32 == (m[i] as u32) ^ kv);
        lemma_xor_cancel(m[i] as u32, kv);
        lemma_char_is_valid_scalar(m[i]);
    }
    assert forall|i: int| 0 <= i < c.len() implies cipher_seq(c, k)[i] == m[i] by {
        lemma_scalar_char_roundtrip(pair_xor(c, k, i), m[i]);
    }
    assert(cipher_seq(c, k) =~= m);
}


} // verus!
