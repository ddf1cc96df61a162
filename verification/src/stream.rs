//! The cipher as a function on a whole byte sequence.
//!
//! The keyword is read as an endless cycle of shifts. A position of the text
//! draws from that cycle only if it holds a letter, so the shift of a letter
//! is decided by the number of letters before it.

use vstd::prelude::*;
use vstd::arithmetic::div_mod::lemma_add_mod_noop;
use vstd::arithmetic::div_mod::lemma_mod_bound;
use vstd::arithmetic::div_mod::lemma_mod_twice;
use crate::alphabet::{is_letter, rotate, shift_of, upper};

verus! {

/// The text with every byte folded to upper case.
pub open spec fn folded(text: Seq<u8>) -> Seq<u8> {
    Seq::new(text.len(), |i: int| upper(text[i]))
}

/// The number of bytes of `text` that are letters once folded to upper case.
pub open spec fn letters_in(text: Seq<u8>) -> nat
    decreases text.len(),
{
    if text.len() == 0 {
        0
    } else {
        letters_in(text.drop_last()) + if is_letter(upper(text.last())) {
            1nat
        } else {
            0nat
        }
    }
}

/// The place in the keyword from which position `i` of `text` draws, if it
/// holds a letter, when the cycle stood at `start` before the text.
pub open spec fn key_place(key_len: nat, start: nat, text: Seq<u8>, i: int) -> int {
    ((start + letters_in(text.take(i))) % key_len) as int
}

/// The byte that the cipher puts out for position `i` of `text`.
pub open spec fn crypt_at(key: Seq<u8>, start: nat, decipher: bool, text: Seq<u8>, i: int) -> u8 {
    let b = upper(text[i]);
    if is_letter(b) {
        rotate(b, shift_of(key[key_place(key.len(), start, text, i)]), decipher)
    } else {
        b
    }
}

/// The text enciphered, or deciphered, under `key` with the keyword cycle
/// standing at `start`: as long as the text, byte for byte.
pub open spec fn crypt(key: Seq<u8>, start: nat, decipher: bool, text: Seq<u8>) -> Seq<u8> {
    Seq::new(text.len(), |i: int| crypt_at(key, start, decipher, text, i))
}

/// The letters of a text with one more byte are those of the text, and one
/// more if that byte is a letter.
pub proof fn lemma_letters_in_push(text: Seq<u8>, b: u8)
    ensures
        letters_in(text.push(b)) == letters_in(text) + if is_letter(upper(b)) {
            1nat
        } else {
            0nat
        },
{
    assert(text.push(b).drop_last() =~= text);
}

/// The letters of two texts joined are the letters of both.
pub proof fn lemma_letters_in_concat(a: Seq<u8>, b: Seq<u8>)
    ensures
        letters_in(a + b) == letters_in(a) + letters_in(b),
    decreases b.len(),
{
    if b.len() == 0 {
        assert(a + b =~= a);
    } else {
        lemma_letters_in_concat(a, b.drop_last());
        assert((a + b).drop_last() =~= a + b.drop_last());
    }
}

/// Only the place of the cycle within the keyword matters, not how often it
/// has gone round.
pub proof fn lemma_crypt_start_wraps(key: Seq<u8>, start: nat, decipher: bool, text: Seq<u8>)
    requires
        key.len() > 0,
    ensures
        crypt(key, start, decipher, text) == crypt(
            key,
            (start % key.len()) as nat,
            decipher,
            text,
        ),
{
    let n = key.len() as int;
    let wrapped = (start % key.len()) as nat;
    assert forall|i: int| 0 <= i < text.len() implies crypt_at(key, start, decipher, text, i)
        == crypt_at(key, wrapped, decipher, text, i) by {
        let seen = letters_in(text.take(i)) as int;
        lemma_add_mod_noop(start as int, seen, n);
        lemma_add_mod_noop(wrapped as int, seen, n);
        lemma_mod_twice(start as int, n);
    }
    assert(crypt(key, start, decipher, text) =~= crypt(key, wrapped, decipher, text));
}

/// The case of the keyword makes no difference.
pub proof fn lemma_crypt_key_case(key: Seq<u8>, start: nat, decipher: bool, text: Seq<u8>)
    requires
        key.len() > 0,
    ensures
        crypt(folded(key), start, decipher, text) == crypt(key, start, decipher, text),
{
    assert forall|i: int| 0 <= i < text.len() implies crypt_at(
        folded(key),
        start,
        decipher,
        text,
        i,
    ) == crypt_at(key, start, decipher, text, i) by {
        lemma_mod_bound((start + letters_in(text.take(i))) as int, key.len() as int);
    }
    assert(crypt(folded(key), start, decipher, text) =~= crypt(key, start, decipher, text));
}

/// Ciphering two texts joined is ciphering the first, then the second with
/// the cycle moved on by the letters of the first.
pub proof fn lemma_crypt_concat(key: Seq<u8>, start: nat, decipher: bool, a: Seq<u8>, b: Seq<u8>)
    ensures
        crypt(key, start, decipher, a + b) == crypt(key, start, decipher, a) + crypt(
            key,
            start + letters_in(a),
            decipher,
            b,
        ),
{
    let whole = crypt(key, start, decipher, a + b);
    let parts = crypt(key, start, decipher, a) + crypt(key, start + letters_in(a), decipher, b);
    assert forall|i: int| 0 <= i < whole.len() implies whole[i] == parts[i] by {
        if i < a.len() {
            assert((a + b).take(i) =~= a.take(i));
        } else {
            let j = i - a.len();
            assert((a + b).take(i) =~= a + b.take(j));
            lemma_letters_in_concat(a, b.take(j));
        }
    }
    assert(whole =~= parts);
}

/// Ciphering a text with one more byte is ciphering the text and then that
/// byte.
pub proof fn lemma_crypt_push(key: Seq<u8>, start: nat, decipher: bool, text: Seq<u8>, b: u8)
    ensures
        crypt(key, start, decipher, text.push(b)) == crypt(key, start, decipher, text).push(
            crypt_at(key, start, decipher, text.push(b), text.len() as int),
        ),
{
    let longer = text.push(b);
    let whole = crypt(key, start, decipher, longer);
    let parts = crypt(key, start, decipher, text).push(
        crypt_at(key, start, decipher, longer, text.len() as int),
    );
    assert forall|i: int| 0 <= i < whole.len() implies whole[i] == parts[i] by {
        if i < text.len() {
            assert(longer.take(i) =~= text.take(i));
        }
    }
    assert(whole =~= parts);
}

} // verus!
