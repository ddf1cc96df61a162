//! What holds of the cipher for every keyword and every text.

use vstd::prelude::*;
use vstd::arithmetic::div_mod::{lemma_add_mod_noop_right, lemma_mod_bound, lemma_small_mod};
use crate::alphabet::{is_letter, rotate, shift_of, upper, CAP_A, LF};
use crate::cipher::{ciphered, lemma_crypt_next_line};
use crate::engine::place_after;
use crate::lines::{
    joined, lemma_joined_lines, lemma_lines_hold_no_terminator, lemma_lines_joined, lines,
    no_terminator, terminated,
};
use crate::stream::{
    crypt, folded, key_place, lemma_crypt_key_case, lemma_letters_in_concat,
    lemma_letters_in_push, letters_in,
};

verus! {

/// Whether every byte of the text is an upper-case letter or a terminator.
pub open spec fn plain_letters(text: Seq<u8>) -> bool {
    forall|i: int| 0 <= i < text.len() ==> is_letter(#[trigger] text[i]) || text[i] == LF
}

/// Rotating a letter one way and then back by the same shift gives the
/// letter again, whichever way comes first.
pub proof fn law_rotate_inverse(letter: u8, shift: int, decipher: bool)
    requires
        is_letter(letter),
        0 <= shift < 26,
    ensures
        is_letter(rotate(letter, shift, decipher)),
        rotate(rotate(letter, shift, decipher), shift, !decipher) == letter,
{
    let place = letter - CAP_A;
    let there = if decipher {
        place + 26 - shift
    } else {
        place + shift
    };
    lemma_wrap_once(there);
    let moved = there % 26;
    assert(rotate(letter, shift, decipher) == moved + CAP_A);
    let back = if decipher {
        moved + shift
    } else {
        moved + 26 - shift
    };
    lemma_wrap_once(back);
    assert(back % 26 == place);
}

/// Below twice the size of the alphabet, reducing modulo 26 takes 26 off at
/// most once.
proof fn lemma_wrap_once(x: int)
    requires
        0 <= x < 52,
    ensures
        x % 26 == if x < 26 {
            x
        } else {
            x - 26
        },
{
}

/// A ciphered byte is a letter exactly where the byte of the text is one,
/// case apart, and folding it to upper case changes nothing.
pub proof fn law_letters_stay_letters(
    key: Seq<u8>,
    start: nat,
    decipher: bool,
    text: Seq<u8>,
    i: int,
)
    requires
        key.len() > 0,
        0 <= i < text.len(),
    ensures
        is_letter(crypt(key, start, decipher, text)[i]) == is_letter(upper(text[i])),
        upper(crypt(key, start, decipher, text)[i]) == crypt(key, start, decipher, text)[i],
{
    let place = key_place(key.len(), start, text, i);
    lemma_mod_bound((start + letters_in(text.take(i))) as int, key.len() as int);
    lemma_mod_bound(upper(key[place]) - 65, 26);
}

/// A ciphered text holds as many letters as the text.
pub proof fn law_letters_kept(key: Seq<u8>, start: nat, decipher: bool, text: Seq<u8>)
    requires
        key.len() > 0,
    ensures
        letters_in(crypt(key, start, decipher, text)) == letters_in(text),
    decreases text.len(),
{
    let out = crypt(key, start, decipher, text);
    if text.len() > 0 {
        let shorter = text.drop_last();
        law_letters_kept(key, start, decipher, shorter);
        lemma_crypt_prefix(key, start, decipher, text, text.len() - 1);
        assert(text.take(text.len() - 1) =~= shorter);
        assert(out.take(text.len() - 1) =~= out.drop_last());
        law_letters_stay_letters(key, start, decipher, text, text.len() - 1);
    }
}

/// The cipher of a prefix is the prefix of the cipher.
pub proof fn lemma_crypt_prefix(key: Seq<u8>, start: nat, decipher: bool, text: Seq<u8>, n: int)
    requires
        0 <= n <= text.len(),
    ensures
        crypt(key, start, decipher, text.take(n)) == crypt(key, start, decipher, text).take(n),
{
    let a = crypt(key, start, decipher, text.take(n));
    let b = crypt(key, start, decipher, text).take(n);
    assert forall|i: int| 0 <= i < n implies a[i] == b[i] by {
        assert(text.take(n).take(i) =~= text.take(i));
    }
    assert(a =~= b);
}

/// Deciphering what was enciphered under the same keyword, from the same
/// place in it, gives the text back in upper case; and so does enciphering
/// what was deciphered.
pub proof fn law_crypt_inverse(key: Seq<u8>, start: nat, decipher: bool, text: Seq<u8>)
    requires
        key.len() > 0,
    ensures
        crypt(key, start, !decipher, crypt(key, start, decipher, text)) == folded(text),
{
    let there = crypt(key, start, decipher, text);
    let back = crypt(key, start, !decipher, there);
    assert forall|i: int| 0 <= i < text.len() implies back[i] == upper(text[i]) by {
        lemma_crypt_prefix(key, start, decipher, text, i);
        law_letters_kept(key, start, decipher, text.take(i));
        law_letters_stay_letters(key, start, decipher, text, i);
        let place = key_place(key.len(), start, text, i);
        assert(key_place(key.len(), start, there, i) == place);
        lemma_mod_bound((start + letters_in(text.take(i))) as int, key.len() as int);
        lemma_mod_bound(upper(key[place]) - 65, 26);
        if is_letter(upper(text[i])) {
            law_rotate_inverse(upper(text[i]), shift_of(key[place]), decipher);
        }
    }
    assert(back =~= folded(text));
}

/// A run that deciphers what a run enciphered under the same keyword gives
/// the source back in upper case, with its last line completed; and the
/// other way round.
pub proof fn law_run_inverse(key: Seq<u8>, decipher: bool, source: Seq<u8>)
    requires
        key.len() > 0,
    ensures
        ciphered(key, !decipher, ciphered(key, decipher, source)) == folded(terminated(source)),
{
    let whole = terminated(source);
    let there = crypt(key, 0, decipher, whole);
    if whole.len() > 0 {
        assert(there.last() == there[whole.len() - 1]);
        law_pass_through(key, 0, decipher, whole, whole.len() - 1);
    }
    assert(terminated(there) == there);
    law_crypt_inverse(key, 0, decipher, whole);
}

/// Round trip: a text of upper-case letters and terminators that is empty or
/// ends with a terminator comes back unchanged when it is enciphered and then
/// deciphered under the same keyword.
pub proof fn law_round_trip(key: Seq<u8>, text: Seq<u8>)
    requires
        key.len() > 0,
        plain_letters(text),
        text.len() == 0 || text.last() == LF,
    ensures
        ciphered(key, true, ciphered(key, false, text)) == text,
{
    law_run_inverse(key, false, text);
    assert forall|i: int| 0 <= i < text.len() implies upper(text[i]) == text[i] by {
        assert(is_letter(text[i]) || text[i] == LF);
    }
    assert(folded(text) =~= text);
}

/// Pass-through: a byte that is no letter, in either case, comes out as it
/// is, and the keyword stays where it stood.
pub proof fn law_pass_through(key: Seq<u8>, start: nat, decipher: bool, text: Seq<u8>, i: int)
    requires
        0 <= i < text.len(),
        !is_letter(upper(text[i])),
    ensures
        crypt(key, start, decipher, text)[i] == text[i],
        letters_in(text.take(i + 1)) == letters_in(text.take(i)),
        key_place(key.len(), start, text, i + 1) == key_place(key.len(), start, text, i),
{
    assert(text.take(i + 1) =~= text.take(i).push(text[i]));
    lemma_letters_in_push(text.take(i), text[i]);
}

/// A letter draws exactly one place of the keyword.
pub proof fn law_letter_draws_one(text: Seq<u8>, i: int)
    requires
        0 <= i < text.len(),
        is_letter(upper(text[i])),
    ensures
        letters_in(text.take(i + 1)) == letters_in(text.take(i)) + 1,
{
    assert(text.take(i + 1) =~= text.take(i).push(text[i]));
    lemma_letters_in_push(text.take(i), text[i]);
}

/// Pass-through for a run: what a run puts out is as long as the source with
/// its last line completed, and at the place of every byte of the source that
/// is no letter, in either case, stands that byte.
pub proof fn law_run_pass_through(key: Seq<u8>, decipher: bool, source: Seq<u8>, i: int)
    requires
        0 <= i < source.len(),
        !is_letter(upper(source[i])),
    ensures
        ciphered(key, decipher, source).len() == terminated(source).len(),
        ciphered(key, decipher, source)[i] == source[i],
{
    law_pass_through(key, 0, decipher, terminated(source), i);
}

/// Folding a text to upper case keeps the number of its letters.
pub proof fn lemma_letters_in_folded(text: Seq<u8>)
    ensures
        letters_in(folded(text)) == letters_in(text),
    decreases text.len(),
{
    if text.len() > 0 {
        lemma_letters_in_folded(text.drop_last());
        assert(folded(text).drop_last() =~= folded(text.drop_last()));
    }
}

/// Case normalization: a text and its upper-case form are ciphered alike.
pub proof fn law_case_normalization(key: Seq<u8>, start: nat, decipher: bool, text: Seq<u8>)
    ensures
        crypt(key, start, decipher, folded(text)) == crypt(key, start, decipher, text),
{
    let a = crypt(key, start, decipher, folded(text));
    let b = crypt(key, start, decipher, text);
    assert forall|i: int| 0 <= i < text.len() implies a[i] == b[i] by {
        assert(folded(text).take(i) =~= folded(text.take(i)));
        lemma_letters_in_folded(text.take(i));
    }
    assert(a =~= b);
}

/// Case normalization for a run: neither the case of the source nor that of
/// the keyword changes what a run puts out.
pub proof fn law_run_case_normalization(key: Seq<u8>, decipher: bool, source: Seq<u8>)
    requires
        key.len() > 0,
    ensures
        ciphered(key, decipher, folded(source)) == ciphered(key, decipher, source),
        ciphered(folded(key), decipher, source) == ciphered(key, decipher, source),
{
    assert(terminated(folded(source)) =~= folded(terminated(source)));
    law_case_normalization(key, 0, decipher, terminated(source));
    lemma_crypt_key_case(key, 0, decipher, terminated(source));
}

/// The letters of all the given lines together.
pub open spec fn total_letters(lines: Seq<Seq<u8>>) -> nat
    decreases lines.len(),
{
    if lines.len() == 0 {
        0
    } else {
        total_letters(lines.drop_last()) + letters_in(lines.last())
    }
}

/// The place in a keyword of `key_len` bytes at which an engine stands that
/// started at the first place and was fed the given lines in order.
pub open spec fn place_after_lines(key_len: nat, lines: Seq<Seq<u8>>) -> nat
    decreases lines.len(),
{
    if lines.len() == 0 {
        0
    } else {
        place_after(place_after_lines(key_len, lines.drop_last()), key_len, lines.last())
    }
}

/// What an engine that starts at the first place of the keyword makes of the
/// given lines, fed in order: each line ciphered from the place that the
/// lines before it left, here without the terminators.
pub open spec fn crypt_lines(key: Seq<u8>, decipher: bool, lines: Seq<Seq<u8>>) -> Seq<Seq<u8>> {
    Seq::new(
        lines.len(),
        |n: int| crypt(key, place_after_lines(key.len(), lines.take(n)), decipher, lines[n]),
    )
}

/// The letters of the lines are the letters of the text that they make up.
pub proof fn lemma_total_letters_joined(lines: Seq<Seq<u8>>)
    ensures
        total_letters(lines) == letters_in(joined(lines)),
    decreases lines.len(),
{
    if lines.len() > 0 {
        lemma_total_letters_joined(lines.drop_last());
        lemma_letters_in_concat(joined(lines.drop_last()), lines.last().push(LF));
        lemma_letters_in_push(lines.last(), LF);
    }
}

/// Cursor continuity: after any number of lines the engine stands at the
/// place given by the letters of all of them together, modulo the length of
/// the keyword. Nothing is reset between lines.
pub proof fn law_cursor_continuity(key_len: nat, lines: Seq<Seq<u8>>)
    requires
        key_len > 0,
    ensures
        place_after_lines(key_len, lines) == total_letters(lines) % key_len,
    decreases lines.len(),
{
    if lines.len() == 0 {
        lemma_small_mod(0, key_len);
    } else {
        law_cursor_continuity(key_len, lines.drop_last());
        lemma_add_mod_noop_right(
            letters_in(lines.last()) as int,
            total_letters(lines.drop_last()) as int,
            key_len as int,
        );
    }
}

/// Ciphering line by line, with the place in the keyword carried from each
/// line to the next, is ciphering the lines as one text.
pub proof fn law_lines_as_one_text(key: Seq<u8>, decipher: bool, lines: Seq<Seq<u8>>)
    requires
        key.len() > 0,
    ensures
        joined(crypt_lines(key, decipher, lines)) == crypt(key, 0, decipher, joined(lines)),
    decreases lines.len(),
{
    let out = crypt_lines(key, decipher, lines);
    if lines.len() == 0 {
        assert(crypt(key, 0, decipher, joined(lines)) =~= joined(out));
    } else {
        let before = lines.drop_last();
        law_lines_as_one_text(key, decipher, before);
        assert forall|n: int| 0 <= n < before.len() implies out.drop_last()[n] == crypt_lines(
            key,
            decipher,
            before,
        )[n] by {
            assert(lines.take(n) =~= before.take(n));
        }
        assert(out.drop_last() =~= crypt_lines(key, decipher, before));
        assert(lines.take(lines.len() - 1) =~= before);
        law_cursor_continuity(key.len(), before);
        lemma_total_letters_joined(before);
        lemma_crypt_next_line(key, decipher, joined(before), lines.last());
    }
}

/// A run ciphers its source line by line: what it puts out is made up of the
/// lines of the source, each ciphered from the place in the keyword that the
/// lines before it left, and each followed by one terminator.
pub proof fn law_run_line_by_line(key: Seq<u8>, decipher: bool, source: Seq<u8>)
    requires
        key.len() > 0,
    ensures
        ciphered(key, decipher, source) == joined(crypt_lines(key, decipher, lines(source))),
{
    lemma_joined_lines(source);
    law_lines_as_one_text(key, decipher, lines(source));
}

/// A ciphered byte is a terminator exactly where the byte of the text is
/// one.
pub proof fn law_terminators_stay(
    key: Seq<u8>,
    start: nat,
    decipher: bool,
    text: Seq<u8>,
    i: int,
)
    requires
        key.len() > 0,
        0 <= i < text.len(),
    ensures
        crypt(key, start, decipher, text)[i] == LF <==> text[i] == LF,
{
    law_letters_stay_letters(key, start, decipher, text, i);
}

/// Terminator invariant: what a run puts out has as many lines as the
/// source, a last line without terminator counted; its lines are the lines
/// of the source ciphered; and it is made up of its lines with one
/// terminator after each.
pub proof fn law_terminator_invariant(key: Seq<u8>, decipher: bool, source: Seq<u8>)
    requires
        key.len() > 0,
    ensures
        lines(ciphered(key, decipher, source)) == crypt_lines(key, decipher, lines(source)),
        lines(ciphered(key, decipher, source)).len() == lines(source).len(),
        ciphered(key, decipher, source) == joined(lines(ciphered(key, decipher, source))),
{
    let out_lines = crypt_lines(key, decipher, lines(source));
    law_run_line_by_line(key, decipher, source);
    lemma_lines_hold_no_terminator(source);
    assert forall|n: int| 0 <= n < out_lines.len() implies no_terminator(
        #[trigger] out_lines[n],
    ) by {
        let line = lines(source)[n];
        assert(no_terminator(line));
        let place = place_after_lines(key.len(), lines(source).take(n));
        assert forall|j: int| 0 <= j < out_lines[n].len() implies out_lines[n][j] != LF by {
            law_terminators_stay(key, place, decipher, line, j);
        }
    }
    lemma_lines_joined(out_lines);
}

} // verus!
