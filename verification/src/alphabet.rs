//! Bytes as letters: case folding, the shift a keyword byte stands for, and the
//! rotation of one letter.

use vstd::prelude::*;

verus! {

/// The byte `A`, the first letter of the alphabet.
pub const CAP_A: u8 = 65;

/// The byte `Z`, the last letter of the alphabet.
pub const CAP_Z: u8 = 90;

/// The byte `a`, the first lower-case letter.
pub const LOW_A: u8 = 97;

/// The byte `z`, the last lower-case letter.
pub const LOW_Z: u8 = 122;

/// The distance between a lower-case letter and its upper-case form.
pub const CASE_GAP: u8 = 32;

/// The line terminator, a line feed.
pub const LF: u8 = 10;

/// The size of the alphabet.
pub const NUM_LETTERS: u8 = 26;

/// The byte with an ASCII lower-case letter folded to upper case.
pub open spec fn upper(b: u8) -> u8 {
    if LOW_A <= b && b <= LOW_Z {
        (b - CASE_GAP) as u8
    } else {
        b
    }
}

/// Whether the byte is one of the 26 letters `A` to `Z`.
pub open spec fn is_letter(b: u8) -> bool {
    CAP_A <= b && b <= CAP_Z
}

/// The shift that a keyword byte stands for: the distance of its upper-case
/// form from `A`, reduced modulo 26. For a letter this is its place in the
/// alphabet, counted from 0.
pub open spec fn shift_of(k: u8) -> int {
    (upper(k) - CAP_A) % 26
}

/// The letter that lies `shift` places after `letter` in the alphabet, or
/// before it when deciphering, wrapping round at the ends.
pub open spec fn rotate(letter: u8, shift: int, decipher: bool) -> u8 {
    if decipher {
        ((letter - CAP_A + 26 - shift) % 26 + CAP_A) as u8
    } else {
        ((letter - CAP_A + shift) % 26 + CAP_A) as u8
    }
}

/// Folds an ASCII lower-case letter to upper case and returns any other byte
/// as it is.
pub fn to_upper(b: u8) -> (r: u8)
    ensures
        r == upper(b),
{
    if LOW_A <= b && b <= LOW_Z {
        b - CASE_GAP
    } else {
        b
    }
}

/// Whether the byte is one of the 26 letters `A` to `Z`.
pub fn in_alphabet(b: u8) -> (r: bool)
    ensures
        r == is_letter(b),
{
    CAP_A <= b && b <= CAP_Z
}

/// The shift, between 0 and 25, that the keyword byte `k` stands for.
pub fn key_shift(k: u8) -> (r: u8)
    ensures
        r == shift_of(k),
        r < NUM_LETTERS,
{
    let u: u8 = to_upper(k);
    if u >= CAP_A {
        (u - CAP_A) % NUM_LETTERS
    } else {
        // Below `A` the distance is negative: 78 is a multiple of 26 that lifts it.
        (u + 78 - CAP_A) % NUM_LETTERS
    }
}

/// Rotates one letter by `shift` places: forwards to encipher, backwards to
/// decipher.
pub fn shift_letter(letter: u8, shift: u8, decipher: bool) -> (r: u8)
    requires
        is_letter(letter),
        shift < NUM_LETTERS,
    ensures
        r == rotate(letter, shift as int, decipher),
        is_letter(r),
{
    let place: u8 = letter - CAP_A;
    if decipher {
        (place + NUM_LETTERS - shift) % NUM_LETTERS + CAP_A
    } else {
        (place + shift) % NUM_LETTERS + CAP_A
    }
}

} // verus!
