use vigenere::{run, Config, RunError};

fn cipher(keyword: &str, source: &[u8], decipher: bool) -> Vec<u8> {
    let mut output: Vec<u8> = vec![];
    let config = Config {
        keyword: keyword.to_owned(),
        source,
        sink: &mut output,
        decipher,
    };
    run(config).expect("Should be OK");
    output
}

#[test]
fn test_ciphering() {
    let string = b"Hello, world!";
    let mut output: Vec<u8> = vec![];

    let config = Config {
        keyword: "foo".to_owned(),
        source: &string[..],
        sink: &mut output,
        decipher: false,
    };

    run(config).expect("Should be OK");

    assert_eq!(output, b"MSZQC, KTFZI!\n");
}

#[test]
fn test_deciphering() {
    let string = b"WLW YAVGB TUSOV LBB AMPTK WBRV KZH PSHE QSX";
    let mut output: Vec<u8> = vec![];

    let config = Config {
        keyword: "designers".to_owned(),
        source: &string[..],
        sink: &mut output,
        decipher: true,
    };

    run(config).expect("Should be OK");

    assert_eq!(output, b"THE QUICK BROWN FOX JUMPS OVER THE LAZY DOG\n");
}

#[test]
fn empty_source_gives_no_line() {
    assert_eq!(cipher("key", b"", false), b"");
    assert_eq!(cipher("key", b"", true), b"");
}

#[test]
fn line_without_letters_is_copied() {
    assert_eq!(cipher("key", b"123!?", false), b"123!?\n");
    assert_eq!(cipher("key", b"123!?", true), b"123!?\n");
}

#[test]
fn bytes_that_are_no_letters_do_not_draw_from_the_keyword() {
    assert_eq!(cipher("lemon", b"ATTACKATDAWN\n", false), b"LXFOPVEFRNHR\n");
    assert_eq!(cipher("lemon", b"ATTACK AT DAWN", false), b"LXFOPV EF RNHR\n");
}

#[test]
fn keyword_carries_over_line_ends() {
    assert_eq!(cipher("lemon", b"attack\nat\ndawn", false), b"LXFOPV\nEF\nRNHR\n");
    assert_eq!(
        cipher("abc", b"THE QUICK\nBROWN FOX\nJUMPS", false),
        b"TIG QVKCL\nDRPYN GQX\nKWMQU\n"
    );
    let as_one = cipher("abc", b"THEQUICKBROWNFOXJUMPS", false);
    assert_eq!(as_one, b"TIGQVKCLDRPYNGQXKWMQU\n");
    let in_lines = cipher("abc", b"THE QUICK\nBROWN FOX\nJUMPS", false);
    let letters_of = |bytes: &[u8]| -> Vec<u8> {
        bytes.iter().copied().filter(|b| b.is_ascii_uppercase()).collect()
    };
    assert_eq!(letters_of(&in_lines), letters_of(&as_one));
}

#[test]
fn round_trip_gives_the_text_back() {
    let text = b"HELLO\nWORLD\n";
    let there = cipher("abc", text, false);
    assert_ne!(&there[..], &text[..]);
    assert_eq!(cipher("abc", &there, true), text);
    let back = cipher("designers", text, true);
    assert_eq!(cipher("designers", &back, false), text);
}

#[test]
fn round_trip_completes_the_last_line_and_folds_case() {
    let there = cipher("lemon", b"Attack at dawn", false);
    assert_eq!(cipher("lemon", &there, true), b"ATTACK AT DAWN\n");
}

#[test]
fn case_of_text_and_keyword_is_folded() {
    assert_eq!(cipher("lemon", b"AtTaCk", false), b"LXFOPV\n");
    assert_eq!(cipher("LeMoN", b"attack", false), cipher("lemon", b"ATTACK", false));
    assert_eq!(cipher("LEMON", b"attack", true), cipher("lemon", b"ATTACK", true));
}

#[test]
fn every_line_gets_one_terminator() {
    assert_eq!(cipher("abc", b"AB\nCDE\n\nF", false), b"AC\nEDF\n\nH\n");
    assert_eq!(cipher("Bc", b"xyz\n\n", false), b"YAA\n\n");
    assert_eq!(cipher("key", b"\n\n\n", false), b"\n\n\n");
    let count = |bytes: &[u8]| bytes.iter().filter(|b| **b == b'\n').count();
    assert_eq!(count(&cipher("abc", b"AB\nCDE\n\nF", false)), 4);
    assert_eq!(count(&cipher("abc", b"AB\nCDE\n\nF\n", false)), 4);
    assert_eq!(count(&cipher("abc", b"one", true)), 1);
}

#[test]
fn shifts_wrap_round_the_alphabet() {
    assert_eq!(cipher("z", b"A", false), b"Z\n");
    assert_eq!(cipher("z", b"A", true), b"B\n");
    assert_eq!(cipher("b", b"Z", false), b"A\n");
    assert_eq!(cipher("a", b"QUIET", false), b"QUIET\n");
}

#[test]
fn carriage_return_and_high_bytes_are_copied() {
    assert_eq!(
        cipher("b", b"a\r\nz\xc3\xa9\xff", false),
        b"B\r\nA\xc3\xa9\xff\n"
    );
}

#[test]
fn keyword_bytes_that_are_no_letters_shift_by_their_distance_from_a() {
    assert_eq!(cipher("a b", b"AAA", false), b"ATB\n");
    assert_eq!(cipher("a b", b"AAA", true), b"AHZ\n");
    assert_eq!(cipher("\u{f1}", b"AAAA", false), b"AIAI\n");
}

#[test]
fn sink_is_appended_to() {
    let mut output: Vec<u8> = b"kept\n".to_vec();
    let config = Config {
        keyword: "foo".to_owned(),
        source: b"Hello",
        sink: &mut output,
        decipher: false,
    };
    assert_eq!(run(config), Ok(()));
    assert_eq!(output, b"kept\nMSZQC\n");
}

#[test]
fn empty_keyword_is_refused() {
    let mut output: Vec<u8> = b"kept".to_vec();
    let config = Config {
        keyword: String::new(),
        source: b"Hello",
        sink: &mut output,
        decipher: false,
    };
    assert_eq!(run(config), Err(RunError::EmptyKeyword.message()));
    assert_eq!(output, b"kept");

    let mut output: Vec<u8> = vec![];
    let config = Config {
        keyword: String::new(),
        source: b"123",
        sink: &mut output,
        decipher: true,
    };
    assert_eq!(
        run(config),
        Err("Ciphering keyword must not be empty".to_owned())
    );
    assert_eq!(output, b"");
}
