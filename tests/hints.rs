use wordle::{generate_hint, Hint, LetterHint, ParseError, Word};

fn word(s: &str) -> Word<5> {
    Word::<5>::parse(s).unwrap()
}

fn hint_text(secret: &str, guess: &str) -> String {
    generate_hint(word(secret), word(guess)).to_text()
}

#[test]
fn generate_hint_simple() {
    let word = word("spoke");
    let guess = self::word("spear");
    let hint = generate_hint(word, guess);

    assert_eq!(hint.0, [LetterHint::Green, LetterHint::Green, LetterHint::Yellow, LetterHint::Black, LetterHint::Black]);
}

#[test]
fn generate_hint_multiples() {
    let word = word("boots");
    let guess = self::word("ovolo");
    let hint = generate_hint(word, guess);

    assert_eq!(hint.0, [LetterHint::Yellow, LetterHint::Black, LetterHint::Green, LetterHint::Black, LetterHint::Black]);
}

#[test]
fn generate_hint_extended() {
    let word = word("clove");
    let guesses = [
        self::word("pound"),
        self::word("plead"),
        self::word("uvula"),
        self::word("carat"),
        self::word("power"),
        self::word("clove"),
    ];

    let hints = guesses.map(|guess| generate_hint(word, guess).0);
    assert_eq!(hints, [
        [LetterHint::Black, LetterHint::Yellow, LetterHint::Black, LetterHint::Black, LetterHint::Black],
        [LetterHint::Black, LetterHint::Green, LetterHint::Yellow, LetterHint::Black, LetterHint::Black],
        [LetterHint::Black, LetterHint::Yellow, LetterHint::Black, LetterHint::Yellow, LetterHint::Black],
        [LetterHint::Green, LetterHint::Black, LetterHint::Black, LetterHint::Black, LetterHint::Black],
        [LetterHint::Black, LetterHint::Yellow, LetterHint::Black, LetterHint::Yellow, LetterHint::Black],
        [LetterHint::Green, LetterHint::Green, LetterHint::Green, LetterHint::Green, LetterHint::Green],
    ]);
}

#[test]
fn generate_hint_multiples2() {
    let word = word("zooks");
    let guess = self::word("kooks");
    let hint = generate_hint(word, guess);

    assert_eq!(hint.0, [LetterHint::Black, LetterHint::Green, LetterHint::Green, LetterHint::Green, LetterHint::Green]);
}

#[test]
fn concrete_hint_table() {
    assert_eq!(hint_text("spoke", "spear"), "GGYBB");
    assert_eq!(hint_text("boots", "ovolo"), "YBGBB");
    assert_eq!(hint_text("clove", "pound"), "BYBBB");
    assert_eq!(hint_text("clove", "plead"), "BGYBB");
    assert_eq!(hint_text("clove", "uvula"), "BYBYB");
    assert_eq!(hint_text("clove", "carat"), "GBBBB");
    assert_eq!(hint_text("clove", "clove"), "GGGGG");
    assert_eq!(hint_text("zooks", "kooks"), "BGGGG");
}

#[test]
fn leftmost_extra_copy_gets_yellow() {
    // One spare "e" in the secret: only the first unmatched "e" of the guess is Yellow.
    assert_eq!(hint_text("abide", "eeeee"), "BBBBG");
    assert_eq!(hint_text("eabcd", "xeeyz"), "BYBBB");
    assert_eq!(hint_text("speed", "erase"), "YBBYY");
}

#[test]
fn absent_letter_is_black_everywhere() {
    assert_eq!(hint_text("clove", "might"), "BBBBB");
}

#[test]
fn hint_has_one_mark_per_letter() {
    assert_eq!(generate_hint(word("spoke"), word("spear")).0.len(), 5);
    let short = generate_hint(Word::<3>::parse("cat").unwrap(), Word::<3>::parse("act").unwrap());
    assert_eq!(short.0.len(), 3);
    assert_eq!(short.to_text(), "YYG");
}

#[test]
fn hint_of_secret_is_all_green() {
    for w in ["spoke", "boots", "zooks", "eerie", "aaaaa"] {
        let h = generate_hint(word(w), word(w));
        assert!(h.is_win());
        assert_eq!(h.to_text(), "GGGGG");
    }
}

#[test]
fn marks_never_exceed_secret_copies() {
    let secret = word("abbey");
    let guess = word("bobby");
    let h = generate_hint(secret, guess);
    let letters = guess.letters();
    for v in b'a'..=b'z' {
        let marked = (0..5).filter(|&i| letters[i] == v && h.0[i] != LetterHint::Black).count();
        let in_secret = secret.letters().iter().filter(|&&x| x == v).count();
        assert!(marked <= in_secret);
    }
    assert_eq!(h.to_text(), "YBGBG");
}

#[test]
fn word_parse_normalizes_case() {
    let w = Word::<5>::parse("SpOkE").unwrap();
    assert_eq!(w.letters(), b"spoke");
    assert_eq!(w, word("spoke"));
    let parsed: Word<5> = "CLOVE".parse().unwrap();
    assert_eq!(parsed, word("clove"));
}

#[test]
fn word_parse_errors() {
    assert_eq!(Word::<5>::parse("spok"), Err(ParseError::WrongLength));
    assert_eq!(Word::<5>::parse("spokes"), Err(ParseError::WrongLength));
    assert_eq!(Word::<5>::parse(""), Err(ParseError::WrongLength));
    assert_eq!(Word::<5>::parse("sp0ke"), Err(ParseError::InvalidCharacter));
    assert_eq!(Word::<5>::parse("spo e"), Err(ParseError::InvalidCharacter));
    assert_eq!(Word::<5>::parse("spöke"), Err(ParseError::InvalidCharacter));
}

#[test]
fn hint_parse_reads_marks_in_either_case() {
    let h = Hint::<5>::parse("gyBbG").unwrap();
    assert_eq!(h.0, [LetterHint::Green, LetterHint::Yellow, LetterHint::Black, LetterHint::Black, LetterHint::Green]);
    assert_eq!(h.to_text(), "GYBBG");
    let parsed: Hint<5> = "GGYBB".parse().unwrap();
    assert_eq!(parsed, generate_hint(word("spoke"), word("spear")));
}

#[test]
fn hint_parse_errors() {
    assert_eq!(Hint::<5>::parse("GYB"), Err(ParseError::WrongLength));
    assert_eq!(Hint::<5>::parse("GYBBBB"), Err(ParseError::WrongLength));
    assert_eq!(Hint::<5>::parse("GYXBB"), Err(ParseError::InvalidCharacter));
}

#[test]
fn is_win_only_for_all_green() {
    assert!(Hint::<5>::parse("GGGGG").unwrap().is_win());
    assert!(!Hint::<5>::parse("GGGGY").unwrap().is_win());
}
