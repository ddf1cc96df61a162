//! A whole run: every line of a source ciphered into a sink.

use vstd::prelude::*;
use vstd::arithmetic::div_mod::{lemma_add_mod_noop_right, lemma_small_mod};
use vstd::slice::slice_subrange;
use vstd::utf8::encode_utf8;
use crate::alphabet::LF;
use crate::engine::Engine;
use crate::failure::RunError;
use crate::lines::{line_end, terminated};
use crate::stream::{
    crypt, lemma_crypt_concat, lemma_crypt_key_case, lemma_crypt_push, lemma_crypt_start_wraps,
    lemma_letters_in_concat, lemma_letters_in_push, letters_in,
};

verus! {

/// What a run works on.
pub struct Config<'a> {
    /// The cipher keyword.
    pub keyword: String,
    /// The bytes to read: plaintext to encipher, or ciphertext to decipher.
    pub source: &'a [u8],
    /// Where the ciphered lines are appended.
    pub sink: &'a mut Vec<u8>,
    /// Deciphers if `true`, enciphers otherwise.
    pub decipher: bool,
}

/// What a run puts out for a source: the source with its last line completed,
/// ciphered as one text from the start of the keyword.
pub open spec fn ciphered(key: Seq<u8>, decipher: bool, source: Seq<u8>) -> Seq<u8> {
    crypt(key, 0, decipher, terminated(source))
}

/// A keyword holds a byte exactly if it holds a character.
pub proof fn law_keyword_has_bytes(keyword: Seq<char>)
    ensures
        encode_utf8(keyword).len() == 0 <==> keyword.len() == 0,
{
}

/// Ciphering a text and then one more terminated line: the line is ciphered
/// from the place in the keyword that the text left off at.
pub proof fn lemma_crypt_next_line(
    key: Seq<u8>,
    decipher: bool,
    done: Seq<u8>,
    line: Seq<u8>,
)
    requires
        key.len() > 0,
    ensures
        crypt(key, 0, decipher, done + line.push(LF)) == crypt(key, 0, decipher, done) + crypt(
            key,
            letters_in(done) % key.len(),
            decipher,
            line,
        ).push(LF),
        letters_in(done + line.push(LF)) == letters_in(done) + letters_in(line),
{
    let seen = letters_in(done);
    lemma_crypt_concat(key, 0, decipher, done, line.push(LF));
    lemma_crypt_start_wraps(key, seen, decipher, line.push(LF));
    lemma_crypt_push(key, seen % key.len(), decipher, line, LF);
    assert(line.push(LF)[line.len() as int] == LF);
    lemma_letters_in_concat(done, line.push(LF));
    lemma_letters_in_push(line, LF);
}

/// Ciphers the source line by line into the sink. Each line is folded to
/// upper case, its letters are shifted by the keyword, which is cycled over
/// the letters of the whole source, and a terminator follows it, also where
/// the last line of the source had none. An empty keyword is refused and
/// leaves the sink as it was.
pub fn run(config: Config) -> (r: Result<(), String>)
    ensures
        r is Err <==> config.keyword@.len() == 0,
        r is Err ==> {
            &&& r->Err_0@ == RunError::EmptyKeyword.text()
            &&& final(config.sink)@ == old(config.sink)@
        },
        r is Ok ==> final(config.sink)@ == old(config.sink)@ + ciphered(
            encode_utf8(config.keyword@),
            config.decipher,
            config.source@,
        ),
{
    let Config { keyword, source, sink, decipher } = config;
    let mut engine = match Engine::new(keyword.as_str(), decipher) {
        Ok(engine) => engine,
        Err(e) => {
            return Err(e.message());
        },
    };
    let ghost before = sink@;
    let ghost key = engine.key();
    let ghost done: Seq<u8> = Seq::empty();
    proof {
        lemma_small_mod(0, key.len());
        assert(sink@ =~= before + crypt(key, 0, decipher, done));
    }
    let mut pos: usize = 0;
    while pos < source.len()
        invariant
            pos <= source@.len(),
            key.len() > 0,
            engine.key() == key,
            engine.deciphers() == decipher,
            engine.place() == letters_in(done) % key.len(),
            sink@ == before + crypt(key, 0, decipher, done),
            pos < source@.len() ==> done == source@.take(pos as int),
            pos == source@.len() ==> done == terminated(source@),
        decreases source@.len() - pos,
    {
        let end: usize = line_end(source, pos);
        let line = slice_subrange(source, pos, end);
        let mut piece = engine.transform_line(line);
        sink.append(&mut piece);
        proof {
            lemma_crypt_next_line(key, decipher, done, line@);
            lemma_add_mod_noop_right(
                letters_in(line@) as int,
                letters_in(done) as int,
                key.len() as int,
            );
            let next = done + line@.push(LF);
            if end < source@.len() {
                assert(next =~= source@.take(end + 1));
            } else {
                assert(next =~= source@.push(LF));
            }
            done = next;
        }
        if end < source.len() {
            pos = end + 1;
        } else {
            pos = end;
        }
    }
    proof {
        lemma_crypt_key_case(encode_utf8(keyword@), 0, decipher, done);
    }
    Ok(())
}

} // verus!
