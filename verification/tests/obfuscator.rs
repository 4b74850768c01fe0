use oxidizer::batch::format::{WATERMARK_ORIGIN, WATERMARK_REVERSAL};
use oxidizer::batch::obfuscator::{
    any_opaque_line, find_blobs, full_set_order, holds_assignment, holds_reference,
    keyword_first, name_char, opaque_line, opens_label, rewrite_line, BatchObfuscator,
};
use oxidizer::batch::{BatchError, CharSet};

fn line_chars(s: &str) -> Vec<char> {
    s.chars().collect()
}

fn obfuscated(src: &str) -> BatchObfuscator {
    let mut obfuscator = BatchObfuscator::new();
    obfuscator.dont_warn();
    assert_eq!(obfuscator.initialize(None, None, src.to_string()), Ok(()));
    obfuscator
}

fn table_name(obfuscator: &BatchObfuscator, c: char) -> String {
    let entries: Vec<&(char, String)> =
        obfuscator.alphabet.iter().filter(|entry| entry.0 == c).collect();
    assert_eq!(entries.len(), 1);
    entries[0].1.clone()
}

fn plain_alphabet() -> Vec<(char, String)> {
    let letters = CharSet::Letters.values();
    let bad = CharSet::BadChars.values();
    CharSet::FullSet
        .values()
        .iter()
        .enumerate()
        .map(|(i, c)| {
            if bad.contains(c) {
                (*c, c.to_string())
            } else {
                (*c, format!("Q{}{}", letters[i / 52], letters[i % 52]))
            }
        })
        .collect()
}

#[test]
fn a_new_obfuscator_holds_nothing() {
    let obfuscator = BatchObfuscator::new();
    assert_eq!(obfuscator.set_str, "");
    assert_eq!(obfuscator.space_str, "");
    assert_eq!(obfuscator.eq_str, "");
    assert!(obfuscator.used_variable_strings.is_empty());
    assert!(obfuscator.alphabet.is_empty());
    assert!(obfuscator.prep_commands.is_empty());
    assert!(obfuscator.exec_commands.is_empty());
    assert_eq!(obfuscator.obfuscated_code, "");
    assert!(!obfuscator.echo_mode);
    assert!(obfuscator.warn_mode);
    assert!(!obfuscator.initialized);
    let other = BatchObfuscator::default();
    assert!(!other.echo_mode);
    assert!(!other.warn_mode);
    assert!(!other.initialized);
    assert_eq!(other.obfuscated_code, "");
}

#[test]
fn the_modes_are_set_one_by_one() {
    let mut obfuscator = BatchObfuscator::new();
    obfuscator.dont_echo();
    assert!(obfuscator.echo_mode);
    assert!(obfuscator.warn_mode);
    obfuscator.dont_warn();
    assert!(obfuscator.echo_mode);
    assert!(!obfuscator.warn_mode);
    assert!(!obfuscator.initialized);
    assert_eq!(obfuscator.obfuscated_code, "");
}

#[test]
fn a_definition_is_written_with_the_aliases_of_the_obfuscator() {
    let mut prelude = BatchObfuscator::new();
    prelude.set_str = "HQTW".to_string();
    prelude.space_str = "HswBh".to_string();
    prelude.eq_str = "xtYRu".to_string();
    assert_eq!(
        BatchObfuscator::define_batch_variable("ubBBS".to_string(), "c".to_string(), &prelude),
        "%HQTW%%HswBh%ubBBS%xtYRu%c"
    );
    assert_eq!(
        BatchObfuscator::define_batch_variable("n".to_string(), "% ".to_string(), &prelude),
        "%HQTW%%HswBh%n%xtYRu%% "
    );
}

#[test]
fn the_script_is_laid_out_in_a_fixed_order() {
    let o = obfuscated("hi");
    assert!(o.initialized);
    assert_eq!(o.obfuscated_code, o.prep_commands.join("\n"));
    assert_eq!(o.prep_commands.len(), 5 + 89 + 3);
    assert_eq!(o.prep_commands[0], WATERMARK_ORIGIN);
    assert_eq!(o.prep_commands[1], WATERMARK_REVERSAL);
    assert_eq!(o.prep_commands[2], format!("set {}=set", o.set_str));
    assert_eq!(o.prep_commands[3], format!("%{}% {}= ", o.set_str, o.space_str));
    assert_eq!(
        o.prep_commands[4],
        format!("%{}%%{}%{}==", o.set_str, o.space_str, o.eq_str)
    );
    let mut at = 5;
    for (c, name) in o.alphabet.iter() {
        if !CharSet::BadChars.values().contains(c) {
            assert_eq!(
                o.prep_commands[at],
                format!("%{}%%{}%{}%{}%{}", o.set_str, o.space_str, name, o.eq_str, c)
            );
            at += 1;
        }
    }
    assert_eq!(at, 94);
    assert_eq!(o.prep_commands[94], o.exec_commands.concat());
    assert_eq!(
        o.prep_commands[94],
        format!("%{}%%{}%\n", table_name(&o, 'h'), table_name(&o, 'i'))
    );
    assert_eq!(o.prep_commands[95], WATERMARK_ORIGIN);
    assert_eq!(o.prep_commands[96], WATERMARK_REVERSAL);
}

#[test]
fn the_echo_line_follows_the_watermarks() {
    let mut o = BatchObfuscator::new();
    o.dont_echo();
    assert_eq!(o.initialize(None, None, "hi".to_string()), Ok(()));
    assert!(o.echo_mode);
    assert_eq!(o.prep_commands.len(), 6 + 89 + 3);
    assert_eq!(o.prep_commands[1], WATERMARK_REVERSAL);
    assert_eq!(o.prep_commands[2], "@echo off");
    assert_eq!(o.prep_commands[3], format!("set {}=set", o.set_str));
}

#[test]
fn the_alphabet_has_one_entry_for_each_character_of_the_full_set() {
    let o = obfuscated("anything");
    let full = CharSet::FullSet.values();
    let bad = CharSet::BadChars.values();
    assert_eq!(o.alphabet.len(), 97);
    for (i, (c, name)) in o.alphabet.iter().enumerate() {
        assert_eq!(*c, full[i]);
        if bad.contains(c) {
            assert_eq!(*name, c.to_string());
        } else {
            assert!(name.len() >= 7 && name.len() <= 109);
            assert!(name.chars().all(|l| l.is_ascii_alphabetic()));
        }
    }
    assert_eq!(table_name(&o, '%'), "%");
    assert_eq!(table_name(&o, '\n'), "\n");
}

#[test]
fn no_name_is_issued_twice_and_none_holds_the_delimiter() {
    let o = obfuscated("50% off\n100%\nplain\n%%");
    let names = &o.used_variable_strings;
    assert_eq!(names.len(), 92 + 3);
    for (i, a) in names.iter().enumerate() {
        assert!(!a.contains('%'));
        assert!(!a.is_empty());
        for b in names[i + 1..].iter() {
            assert_ne!(a, b);
        }
    }
    assert_eq!(names[0], o.set_str);
    assert_eq!(names[1], o.space_str);
    assert_eq!(names[2], o.eq_str);
    let bad = CharSet::BadChars.values();
    let issued: Vec<&String> = o
        .alphabet
        .iter()
        .filter(|entry| !bad.contains(&entry.0))
        .map(|entry| &entry.1)
        .collect();
    assert_eq!(issued.len(), 89);
    for (i, name) in issued.iter().enumerate() {
        assert_eq!(**name, names[3 + i]);
    }
    for (c, _) in o.alphabet.iter() {
        if !bad.contains(c) {
            assert_ne!(*c, '%');
        }
    }
}

#[test]
fn the_bounds_hold_for_the_aliases_and_the_alphabet_and_not_for_the_blobs() {
    let mut o = BatchObfuscator::new();
    assert_eq!(o.initialize(Some(2), Some(3), "a%b".to_string()), Ok(()));
    assert_eq!(o.used_variable_strings.len(), 93);
    for name in o.used_variable_strings[..92].iter() {
        assert!(name.len() == 2 || name.len() == 3);
    }
    let blob = &o.used_variable_strings[92];
    assert!(blob.len() >= 7 && blob.len() <= 109);
    assert_eq!(
        o.prep_commands[94],
        format!("%{}%%{}%{}%{}%%b", o.set_str, o.space_str, blob, o.eq_str)
    );
    assert_eq!(
        o.exec_commands,
        vec![format!("%{}%", table_name(&o, 'a')), format!("%{}%", blob), "\n".to_string()]
    );
}

#[test]
fn names_of_one_letter_do_not_suffice() {
    let mut o = BatchObfuscator::new();
    o.dont_echo();
    assert_eq!(
        o.initialize(Some(1), Some(1), "hi".to_string()),
        Err(BatchError::TokenSpaceExhausted)
    );
    assert!(!o.initialized);
    assert!(o.echo_mode);
    assert!(o.warn_mode);
    assert_eq!(o.obfuscated_code, "");
    assert!(o.used_variable_strings.is_empty());
    assert!(o.alphabet.is_empty());
    assert!(o.prep_commands.is_empty());
    assert_eq!(o.initialize(Some(1), Some(2), "hi".to_string()), Ok(()));
    assert!(o.initialized);
}

#[test]
fn a_line_of_its_own_syntax_needs_consent() {
    for src in ["set x=1", "echo %PATH%", ":start", "plain\nset x=1\nplain"] {
        let mut o = BatchObfuscator::new();
        assert_eq!(
            o.initialize(None, None, src.to_string()),
            Err(BatchError::AmbiguousUserSyntax)
        );
        assert!(!o.initialized);
        assert_eq!(o.obfuscated_code, "");
        assert!(o.used_variable_strings.is_empty());
        assert!(o.prep_commands.is_empty());
        o.dont_warn();
        assert_eq!(o.initialize(None, None, src.to_string()), Ok(()));
        assert!(o.initialized);
        let lines: Vec<&str> = o.obfuscated_code.split('\n').collect();
        for line in src.split('\n') {
            if line != "plain" {
                assert!(lines.contains(&line));
            }
        }
    }
}

#[test]
fn consent_outweighs_the_names_that_run_out() {
    let mut o = BatchObfuscator::new();
    assert_eq!(
        o.initialize(Some(1), Some(1), "set x=1".to_string()),
        Err(BatchError::AmbiguousUserSyntax)
    );
    o.dont_warn();
    assert_eq!(
        o.initialize(Some(1), Some(1), "set x=1".to_string()),
        Err(BatchError::TokenSpaceExhausted)
    );
}

#[test]
fn a_second_run_starts_afresh() {
    let mut o = obfuscated("first");
    let before = o.used_variable_strings.clone();
    assert_eq!(o.initialize(None, None, "second%".to_string()), Ok(()));
    assert_eq!(o.used_variable_strings.len(), 93);
    assert_eq!(o.prep_commands.len(), 5 + 89 + 1 + 3);
    assert_eq!(o.exec_commands.len(), 8);
    assert_ne!(o.used_variable_strings[..92], before[..]);
}

#[test]
fn each_line_of_the_source_has_its_line_in_the_body() {
    let o = obfuscated("ab\n<a>\n\n");
    let a = table_name(&o, 'a');
    let b = table_name(&o, 'b');
    let feed = "\n".to_string();
    assert_eq!(
        o.exec_commands,
        vec![
            format!("%{}%", a),
            format!("%{}%", b),
            feed.clone(),
            "<".to_string(),
            format!("%{}%", a),
            ">".to_string(),
            feed.clone(),
            feed.clone(),
            feed.clone(),
        ]
    );
    assert_eq!(o.prep_commands[94], format!("%{}%%{}%\n<%{}%>\n\n\n", a, b, a));
    let o = obfuscated("");
    assert_eq!(o.exec_commands, vec!["\n".to_string()]);
    assert_eq!(o.prep_commands[94], "\n");
}

#[test]
fn characters_outside_the_full_set_are_copied() {
    let o = obfuscated("a\u{e9}\tb");
    assert_eq!(
        o.exec_commands,
        vec![
            format!("%{}%", table_name(&o, 'a')),
            "\u{e9}".to_string(),
            "\t".to_string(),
            format!("%{}%", table_name(&o, 'b')),
            "\n".to_string(),
        ]
    );
    assert_eq!(
        o.prep_commands[94],
        format!("%{}%\u{e9}\t%{}%\n", table_name(&o, 'a'), table_name(&o, 'b'))
    );
}

#[test]
fn lines_with_a_reference_are_told_from_the_others() {
    for line in ["%a%", "echo %PATH%", "%a%%", "%%a%", "x%_%y", "%1%", "%a.b%", "%a=b%", "a%b%c%"] {
        assert!(holds_reference(&line_chars(line)), "{}", line);
    }
    for line in ["", "%", "%%", "% %", "%a", "a%", "%a b%", "%a(b%", "50% off, 20% more", "%-%", "%a\u{e9}%"] {
        assert!(!holds_reference(&line_chars(line)), "{}", line);
    }
}

#[test]
fn name_characters_leave_out_what_ends_a_name() {
    for c in "azAZ09_`{|}~!@#$^&/.,<>;:'\"=".chars() {
        assert!(name_char(c), "{}", c);
    }
    for c in " %()*+-?[\\]\n\r\t\u{e9}".chars() {
        assert!(!name_char(c), "{:?}", c);
    }
}

#[test]
fn labels_open_with_one_colon() {
    assert!(opens_label(&line_chars(":start")));
    assert!(opens_label(&line_chars(":")));
    assert!(opens_label(&line_chars(": x")));
    assert!(!opens_label(&line_chars("::comment")));
    assert!(!opens_label(&line_chars("::")));
    assert!(!opens_label(&line_chars(" :start")));
    assert!(!opens_label(&line_chars("")));
}

#[test]
fn assignments_open_with_the_keyword_and_hold_an_operator() {
    for line in ["set x=1", "SET x=1 set y=2", "Set set a=b", "settle set a=b"] {
        assert!(keyword_first(&line_chars(line)), "{}", line);
    }
    for line in ["", "se", " set x=1", "sat x=1", "echo set x=1"] {
        assert!(!keyword_first(&line_chars(line)), "{}", line);
    }
    for line in ["set x=1", "echo set x=1", "set x==", "set  =x", "set a=b=c", "unset a=1"] {
        assert!(holds_assignment(&line_chars(line)), "{}", line);
    }
    for line in ["", "set", "set x", "set x=", "set =1", "SET x=1", "setx=1", "set=1", "x=1 set ", "set \u{e9}="] {
        assert!(!holds_assignment(&line_chars(line)), "{}", line);
    }
}

#[test]
fn opaque_lines_are_those_of_one_of_the_three_kinds() {
    for line in ["set x=1", "SET x=1 set y=2", "echo %PATH%", ":start", "set a=%b%"] {
        assert!(opaque_line(&line_chars(line)), "{}", line);
    }
    for line in ["", "plain", "::comment", "echo set x=1", "SET x=1", "50% off", "settle"] {
        assert!(!opaque_line(&line_chars(line)), "{}", line);
    }
    assert!(any_opaque_line(&vec![line_chars("plain"), line_chars(":start")]));
    assert!(!any_opaque_line(&vec![line_chars("plain"), line_chars("::x")]));
    assert!(!any_opaque_line(&Vec::new()));
}

#[test]
fn a_blob_is_a_delimiter_and_the_character_after_it() {
    assert_eq!(find_blobs(&line_chars("50% off")), vec!["% ".to_string()]);
    assert_eq!(find_blobs(&line_chars("100%")), vec!["%".to_string()]);
    assert_eq!(find_blobs(&line_chars("%%")), vec!["%%".to_string()]);
    assert_eq!(find_blobs(&line_chars("%%%")), vec!["%%".to_string(), "%".to_string()]);
    assert_eq!(
        find_blobs(&line_chars("a%b c%\u{e9}%")),
        vec!["%b".to_string(), "%\u{e9}".to_string(), "%".to_string()]
    );
    assert_eq!(find_blobs(&line_chars("plain")), Vec::<String>::new());
    assert_eq!(find_blobs(&line_chars("")), Vec::<String>::new());
    assert_eq!(find_blobs(&line_chars("echo %PATH%")), Vec::<String>::new());
    assert_eq!(find_blobs(&line_chars(":label 50%")), Vec::<String>::new());
}

#[test]
fn a_line_is_rewritten_character_by_character() {
    let alphabet = plain_alphabet();
    let names = vec!["Ba".to_string(), "Bb".to_string(), "Bc".to_string()];
    assert_eq!(
        rewrite_line(&line_chars("hi"), &alphabet, &names, 0),
        Some(("%Qah%%Qai%".to_string(), 0))
    );
    assert_eq!(
        rewrite_line(&line_chars("a<b\r"), &alphabet, &names, 3),
        Some(("%Qaa%<%Qab%\r".to_string(), 3))
    );
    assert_eq!(
        rewrite_line(&line_chars("a b"), &alphabet, &names, 0),
        Some(("%Qaa%%QbQ%%Qab%".to_string(), 0))
    );
    assert_eq!(
        rewrite_line(&line_chars("5% x%"), &alphabet, &names, 1),
        Some(("%Qbf%%Bb%%Qax%%Bc%".to_string(), 3))
    );
    assert_eq!(
        rewrite_line(&line_chars("echo %PATH%"), &alphabet, &names, 0),
        Some(("echo %PATH%".to_string(), 0))
    );
    assert_eq!(
        rewrite_line(&line_chars("\u{e9}"), &alphabet, &names, 0),
        Some(("\u{e9}".to_string(), 0))
    );
    assert_eq!(rewrite_line(&line_chars(""), &alphabet, &names, 3), Some(("".to_string(), 3)));
}

#[test]
fn nothing_is_rewritten_without_the_names_it_takes() {
    let alphabet = plain_alphabet();
    let names = vec!["Ba".to_string()];
    assert_eq!(rewrite_line(&line_chars("5% 5%"), &alphabet, &names, 0), None);
    assert_eq!(rewrite_line(&line_chars("5%"), &alphabet, &names, 1), None);
    assert_eq!(rewrite_line(&line_chars("5"), &alphabet, &names, 2), None);
    assert_eq!(rewrite_line(&line_chars("5"), &alphabet[..96].to_vec(), &names, 0), None);
    let mut swapped = alphabet.clone();
    swapped.swap(0, 1);
    assert_eq!(rewrite_line(&line_chars("5"), &swapped, &names, 0), None);
    let mut renamed = alphabet.clone();
    renamed[57].0 = 'x';
    assert_eq!(rewrite_line(&line_chars("5"), &renamed, &names, 0), None);
    assert!(full_set_order(&alphabet));
    assert!(!full_set_order(&swapped));
    assert!(!full_set_order(&renamed));
    assert!(!full_set_order(&alphabet[..96].to_vec()));
    assert!(!full_set_order(&Vec::new()));
    assert_eq!(rewrite_line(&line_chars("5"), &Vec::new(), &names, 0), None);
    assert_eq!(
        rewrite_line(&line_chars("5%"), &alphabet, &names, 0),
        Some(("%Qbf%%Ba%".to_string(), 1))
    );
}

#[test]
fn a_line_that_is_left_as_it_is_is_one_unit_of_the_body() {
    let o = obfuscated("set x=1");
    assert_eq!(o.exec_commands, vec!["set x=1".to_string(), "\n".to_string()]);
    assert_eq!(o.prep_commands[94], "set x=1\n");
    let o = obfuscated("a\necho %PATH%\n5% x");
    let blob = o.used_variable_strings[92].clone();
    assert_eq!(
        o.exec_commands,
        vec![
            format!("%{}%", table_name(&o, 'a')),
            "\n".to_string(),
            "echo %PATH%".to_string(),
            "\n".to_string(),
            format!("%{}%", table_name(&o, '5')),
            format!("%{}%", blob),
            format!("%{}%", table_name(&o, 'x')),
            "\n".to_string(),
        ]
    );
    assert_eq!(o.exec_commands.concat(), o.prep_commands[94 + 1]);
}
