//! The cipher as a machine that is fed one line at a time and remembers where
//! in the keyword it stands.

use vstd::prelude::*;
use vstd::arithmetic::div_mod::{lemma_add_mod_noop, lemma_mod_self_0, lemma_small_mod};
use vstd::slice::slice_to_vec;
use vstd::utf8::encode_utf8;
use crate::alphabet::{in_alphabet, key_shift, shift_letter, to_upper, LF};
use crate::failure::RunError;
use crate::stream::{crypt, folded, lemma_crypt_push, lemma_letters_in_push, letters_in};

verus! {

/// One step of the keyword cycle: the place after `place`, wrapping at the
/// end of a keyword of `key_len` bytes.
pub open spec fn next_place(place: nat, key_len: nat) -> nat {
    if place + 1 == key_len {
        0
    } else {
        place + 1
    }
}

/// The place in a keyword of `key_len` bytes after a line, when the cycle
/// stood at `place` before it: one step on for each letter of the line.
pub open spec fn place_after(place: nat, key_len: nat, line: Seq<u8>) -> nat {
    (place + letters_in(line)) % key_len
}

/// Stepping the wrapped place is wrapping the stepped count.
pub proof fn lemma_next_place_wraps(count: nat, key_len: nat)
    requires
        key_len > 0,
    ensures
        next_place(count % key_len, key_len) == (count + 1) % key_len,
{
    let n = key_len as int;
    let place = (count % key_len) as int;
    lemma_add_mod_noop(count as int, 1, n);
    if key_len == 1 {
        lemma_small_mod(0, key_len);
    } else {
        lemma_small_mod(1, key_len);
        if place + 1 == n {
            lemma_mod_self_0(n);
        } else {
            lemma_small_mod((place + 1) as nat, key_len);
        }
    }
}

/// A cipher run in progress: the keyword in upper case, the direction, and
/// the place in the keyword from which the next letter draws its shift.
pub struct Engine {
    key: Vec<u8>,
    cursor: usize,
    decipher: bool,
}

impl Engine {
    #[verifier::type_invariant]
    spec fn inv(self) -> bool {
        self.cursor < self.key.len()
    }

    /// The bytes of the keyword, folded to upper case.
    pub closed spec fn key(&self) -> Seq<u8> {
        self.key@
    }

    /// The place in the keyword that the next letter draws from.
    pub closed spec fn place(&self) -> nat {
        self.cursor as nat
    }

    /// Whether the engine deciphers rather than enciphers.
    pub closed spec fn deciphers(&self) -> bool {
        self.decipher
    }

    /// Sets an engine up at the start of the keyword. An empty keyword is
    /// refused, every other one is taken, byte by byte, in upper case.
    pub fn new(keyword: &str, decipher: bool) -> (r: Result<Engine, RunError>)
        ensures
            keyword@.len() == 0 <==> r is Err,
            r is Err ==> r->Err_0 == RunError::EmptyKeyword,
            r is Ok ==> {
                &&& r->Ok_0.key() == folded(encode_utf8(keyword@))
                &&& r->Ok_0.place() == 0
                &&& r->Ok_0.deciphers() == decipher
            },
    {
        let bytes = keyword.as_bytes();
        if bytes.len() == 0 {
            return Err(RunError::EmptyKeyword);
        }
        let mut key: Vec<u8> = Vec::new();
        let mut i: usize = 0;
        while i < bytes.len()
            invariant
                i <= bytes.len(),
                key@ == folded(bytes@.take(i as int)),
            decreases bytes.len() - i,
        {
            key.push(to_upper(bytes[i]));
            proof {
                assert(key@ =~= folded(bytes@.take(i + 1)));
            }
            i += 1;
        }
        proof {
            assert(bytes@.take(i as int) =~= bytes@);
        }
        Ok(Engine { key, cursor: 0, decipher })
    }

    /// The place in the keyword that the next letter draws from, counted
    /// from 0.
    pub fn cursor(&self) -> (place: usize)
        ensures
            place == self.place(),
            place < self.key().len(),
    {
        proof {
            use_type_invariant(self);
        }
        self.cursor
    }

    /// Whether the engine deciphers rather than enciphers.
    pub fn is_deciphering(&self) -> (d: bool)
        ensures
            d == self.deciphers(),
    {
        self.decipher
    }

    /// The keyword in upper case.
    pub fn keyword(&self) -> (key: Vec<u8>)
        ensures
            key@ == self.key(),
    {
        slice_to_vec(self.key.as_slice())
    }

    /// Ciphers one line, given without its terminator, and returns it with a
    /// terminator appended. Letters are folded to upper case and shifted by
    /// the keyword from where it stands; other bytes are copied. The engine
    /// moves on in the keyword by one place for each letter of the line.
    pub fn transform_line(&mut self, line: &[u8]) -> (out: Vec<u8>)
        ensures
            final(self).key() == old(self).key(),
            final(self).deciphers() == old(self).deciphers(),
            final(self).place() == place_after(old(self).place(), old(self).key().len(), line@),
            final(self).place() < final(self).key().len(),
            out@ == crypt(old(self).key(), old(self).place(), old(self).deciphers(), line@).push(
                LF,
            ),
    {
        proof {
            use_type_invariant(&*self);
        }
        let ghost key = self.key@;
        let ghost start = self.cursor as nat;
        let ghost decipher = self.decipher;
        let mut out: Vec<u8> = Vec::new();
        let mut i: usize = 0;
        proof {
            lemma_small_mod(start, key.len());
            assert(out@ =~= crypt(key, start, decipher, line@.take(0)));
        }
        while i < line.len()
            invariant
                i <= line.len(),
                self.key@ == key,
                self.decipher == decipher,
                key.len() > 0,
                self.cursor < key.len(),
                self.cursor == (start + letters_in(line@.take(i as int))) % key.len(),
                out@ == crypt(key, start, decipher, line@.take(i as int)),
            decreases line.len() - i,
        {
            let ghost seen = line@.take(i as int);
            let b: u8 = to_upper(line[i]);
            proof {
                assert(line@.take(i + 1) =~= seen.push(line@[i as int]));
                assert(seen.push(line@[i as int]).take(i as int) =~= seen);
                lemma_letters_in_push(seen, line@[i as int]);
                lemma_crypt_push(key, start, decipher, seen, line@[i as int]);
            }
            if in_alphabet(b) {
                let shift: u8 = key_shift(self.key[self.cursor]);
                out.push(shift_letter(b, shift, self.decipher));
                proof {
                    lemma_next_place_wraps(start + letters_in(seen), key.len());
                }
                let key_len: usize = self.key.len();
                if self.cursor + 1 == key_len {
                    self.cursor = 0;
                } else {
                    self.cursor = self.cursor + 1;
                }
            } else {
                out.push(b);
            }
            i += 1;
        }
        proof {
            assert(line@.take(i as int) =~= line@);
        }
        out.push(LF);
        out
    }
}

} // verus!
