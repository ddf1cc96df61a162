use vigenere::lines::line_end;
use vigenere::{in_alphabet, key_shift, shift_letter, to_upper, RunError, CAP_A, CAP_Z, LF, NUM_LETTERS};

#[test]
fn constants_are_the_ascii_bytes() {
    assert_eq!(CAP_A, b'A');
    assert_eq!(CAP_Z, b'Z');
    assert_eq!(LF, b'\n');
    assert_eq!(NUM_LETTERS, 26);
}

#[test]
fn to_upper_folds_lower_case_letters_only() {
    for b in 0..=255u8 {
        assert_eq!(to_upper(b), b.to_ascii_uppercase());
    }
    assert_eq!(to_upper(b'a'), b'A');
    assert_eq!(to_upper(b'z'), b'Z');
    assert_eq!(to_upper(b'`'), b'`');
    assert_eq!(to_upper(b'{'), b'{');
    assert_eq!(to_upper(0xe9), 0xe9);
}

#[test]
fn in_alphabet_holds_of_the_upper_case_letters() {
    for b in 0..=255u8 {
        assert_eq!(in_alphabet(b), b.is_ascii_uppercase());
    }
}

#[test]
fn key_shift_is_the_place_in_the_alphabet() {
    assert_eq!(key_shift(b'A'), 0);
    assert_eq!(key_shift(b'a'), 0);
    assert_eq!(key_shift(b'F'), 5);
    assert_eq!(key_shift(b'o'), 14);
    assert_eq!(key_shift(b'Z'), 25);
    assert_eq!(key_shift(b'z'), 25);
}

#[test]
fn key_shift_of_other_bytes_is_reduced_modulo_26() {
    assert_eq!(key_shift(b' '), 19);
    assert_eq!(key_shift(b'['), 0);
    assert_eq!(key_shift(b'@'), 25);
    assert_eq!(key_shift(0), 13);
    assert_eq!(key_shift(255), 8);
    for b in 0..=255u8 {
        let distance = i32::from(b.to_ascii_uppercase()) - 65;
        assert_eq!(i32::from(key_shift(b)), distance.rem_euclid(26));
    }
}

#[test]
fn shift_letter_follows_the_formula() {
    assert_eq!(shift_letter(b'H', 5, false), b'M');
    assert_eq!(shift_letter(b'M', 5, true), b'H');
    assert_eq!(shift_letter(b'Z', 1, false), b'A');
    assert_eq!(shift_letter(b'A', 1, true), b'Z');
    assert_eq!(shift_letter(b'A', 0, false), b'A');
    assert_eq!(shift_letter(b'A', 0, true), b'A');
    assert_eq!(shift_letter(b'Z', 25, false), b'Y');
    for letter in b'A'..=b'Z' {
        for shift in 0..26u8 {
            let there = shift_letter(letter, shift, false);
            assert_eq!(there, (letter - 65 + shift) % 26 + 65);
            assert_eq!(shift_letter(there, shift, true), letter);
            let back = shift_letter(letter, shift, true);
            assert_eq!(back, (letter - 65 + 26 - shift) % 26 + 65);
            assert_eq!(shift_letter(back, shift, false), letter);
        }
    }
}

#[test]
fn line_end_finds_the_next_terminator() {
    let text = b"ab\ncde\n\nf";
    assert_eq!(line_end(text, 0), 2);
    assert_eq!(line_end(text, 2), 2);
    assert_eq!(line_end(text, 3), 6);
    assert_eq!(line_end(text, 7), 7);
    assert_eq!(line_end(text, 8), 9);
    assert_eq!(line_end(text, 9), 9);
    assert_eq!(line_end(b"", 0), 0);
}

#[test]
fn failures_are_described() {
    assert_eq!(
        RunError::Read("broken pipe".to_owned()).message(),
        "Failed to read lines from input file: broken pipe"
    );
    assert_eq!(
        RunError::Write("disk full".to_owned()).message(),
        "Failed to write lines to output file: disk full"
    );
    assert_eq!(
        RunError::EmptyKeyword.message(),
        "Ciphering keyword must not be empty"
    );
    assert_ne!(
        RunError::Read("x".to_owned()),
        RunError::Write("x".to_owned())
    );
}
