use oxidizer::batch::obfuscator::{position_in_full_set, BatchObfuscator};
use oxidizer::batch::{bad_char, classify, letter, CharClass, CharSet, DELIMITER};

#[test]
fn test_charset() {
    println!(
        "Full_Charset: {:#?}\n Letters: {:#?}\n, BadChars: {:#?}",
        CharSet::FullSet.values(),
        CharSet::Letters.values(),
        CharSet::BadChars.values()
    );
}

#[test]
fn test_prelude() {
    let obfuscator: BatchObfuscator = BatchObfuscator::new();

    println!("{:#?}", obfuscator);
}

#[test]
fn the_sets_hold_what_they_are_named_for() {
    let full = CharSet::FullSet.values();
    let letters = CharSet::Letters.values();
    let bad = CharSet::BadChars.values();
    assert_eq!(full.len(), 97);
    assert_eq!(letters.len(), 52);
    assert_eq!(bad, vec!['<', '>', '|', '%', '^', '&', '\n', '\r']);
    let text: String = letters.iter().collect();
    assert_eq!(text, "abcdefghijklmnopqrstuvwxyzABCDEFGHIJKLMNOPQRSTUVWXYZ");
    let text: String = full.iter().collect();
    assert_eq!(
        text,
        "abcdefghijklmnopqrstuvwxyzABCDEFGHIJKLMNOPQRSTUVWXYZ0123456789!\"#$%&'()*+,-./:;<=>?@[\\]^_`{|}~ \n\r"
    );
    assert_eq!(&full[..52], &letters[..]);
    for c in bad.iter() {
        assert!(full.contains(c));
    }
}

#[test]
fn no_character_stands_twice_in_the_full_set() {
    let full = CharSet::FullSet.values();
    for (i, a) in full.iter().enumerate() {
        for b in full[i + 1..].iter() {
            assert_ne!(a, b);
        }
    }
}

#[test]
fn the_class_of_a_character_is_a_matter_of_the_character_alone() {
    assert_eq!(classify('a'), Some(CharClass::Substitutable));
    assert_eq!(classify('Z'), Some(CharClass::Substitutable));
    assert_eq!(classify('7'), Some(CharClass::Substitutable));
    assert_eq!(classify(' '), Some(CharClass::Substitutable));
    assert_eq!(classify('='), Some(CharClass::Substitutable));
    assert_eq!(classify('~'), Some(CharClass::Substitutable));
    assert_eq!(classify('%'), Some(CharClass::PassThrough));
    assert_eq!(classify('<'), Some(CharClass::PassThrough));
    assert_eq!(classify('\n'), Some(CharClass::PassThrough));
    assert_eq!(classify('\r'), Some(CharClass::PassThrough));
    assert_eq!(classify('\t'), None);
    assert_eq!(classify('\u{7f}'), None);
    assert_eq!(classify('\u{e9}'), None);
    assert_eq!(classify('\u{1f600}'), None);
    for code in 0u32..0x250 {
        let c = char::from_u32(code).unwrap();
        assert_eq!(classify(c), classify(c));
    }
}

#[test]
fn the_classes_divide_the_full_set() {
    let full = CharSet::FullSet.values();
    let bad = CharSet::BadChars.values();
    for code in 0u32..0x250 {
        let c = char::from_u32(code).unwrap();
        let expected = if !full.contains(&c) {
            None
        } else if bad.contains(&c) {
            Some(CharClass::PassThrough)
        } else {
            Some(CharClass::Substitutable)
        };
        assert_eq!(classify(c), expected);
        assert_eq!(bad_char(c), bad.contains(&c));
        assert_eq!(letter(c), CharSet::Letters.values().contains(&c));
    }
    let substitutable = full
        .iter()
        .filter(|c| classify(**c) == Some(CharClass::Substitutable))
        .count();
    assert_eq!(substitutable, 89);
}

#[test]
fn the_delimiter_passes_through() {
    assert_eq!(DELIMITER, '%');
    assert_eq!(classify(DELIMITER), Some(CharClass::PassThrough));
    assert!(bad_char(DELIMITER));
    assert!(!letter(DELIMITER));
}

#[test]
fn every_character_of_the_full_set_has_its_place() {
    let full = CharSet::FullSet.values();
    for (i, c) in full.iter().enumerate() {
        assert_eq!(position_in_full_set(*c), Some(i));
    }
    assert_eq!(position_in_full_set('a'), Some(0));
    assert_eq!(position_in_full_set('%'), Some(66));
    assert_eq!(position_in_full_set('\r'), Some(96));
    assert_eq!(position_in_full_set('\t'), None);
    assert_eq!(position_in_full_set('\u{e9}'), None);
}
