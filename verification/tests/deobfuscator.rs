use oxidizer::batch::deobfuscator::{
    deobfuscate_text, find_enclosed, lookup_value, recover_anchors, recover_definitions,
    restore_body, restore_line, wrappable, Anchors, BatchDeobfuscator,
};
use oxidizer::batch::format::{
    definition_statement, equals_statement, keyword_statement, space_statement,
    WATERMARK_ORIGIN, WATERMARK_REVERSAL,
};
use oxidizer::batch::obfuscator::BatchObfuscator;
use oxidizer::batch::BatchError;

const SAMPLE: &str = "
set HQTW=set
%HQTW% HswBh= 
%HQTW%%HswBh%xtYRu==
%HQTW%%HswBh%ubBBS%xtYRu%c
%HQTW%%HswBh%XRVHZ%xtYRu%e
%HQTW%%HswBh%qWvHi%xtYRu%h
%HQTW%%HswBh%XyVFS%xtYRu%o
%HQTW%%HswBh%BslH%xtYRu%C
%HQTW%%HswBh%AsBi%xtYRu%P
%HQTW%%HswBh%biQK%xtYRu% 
%XRVHZ%%ubBBS%%qWvHi%%XyVFS%%biQK%%AsBi%%XyVFS%%BslH%
";

fn script_chars(s: &str) -> Vec<char> {
    s.chars().collect()
}

fn script_lines(s: &str) -> Vec<Vec<char>> {
    s.split('\n').map(|line| script_chars(line)).collect()
}

fn sample_anchors() -> Anchors {
    Anchors {
        keyword: script_chars("HQTW"),
        space: script_chars("HswBh"),
        equals: script_chars("xtYRu"),
    }
}

fn sample_table() -> Vec<(Vec<char>, Vec<char>)> {
    vec![
        (script_chars("ubBBS"), script_chars("c")),
        (script_chars("XRVHZ"), script_chars("e")),
        (script_chars("qWvHi"), script_chars("h")),
        (script_chars("XyVFS"), script_chars("o")),
        (script_chars("BslH"), script_chars("C")),
        (script_chars("AsBi"), script_chars("P")),
        (script_chars("biQK"), script_chars(" ")),
    ]
}

fn script_with_body(body: &[&str]) -> String {
    let mut lines = vec![
        WATERMARK_ORIGIN.to_string(),
        WATERMARK_REVERSAL.to_string(),
        keyword_statement("Kkk"),
        space_statement("Kkk", "Ppp"),
        equals_statement("Kkk", "Ppp", "Eee"),
        definition_statement("Kkk", "Ppp", "Ha", "Eee", "h"),
        definition_statement("Kkk", "Ppp", "Ib", "Eee", "i"),
    ];
    for line in body {
        lines.push(line.to_string());
    }
    lines.push("".to_string());
    lines.push(WATERMARK_ORIGIN.to_string());
    lines.push(WATERMARK_REVERSAL.to_string());
    lines.join("\n")
}

fn read_back(src: &str) -> String {
    let mut obfuscator = BatchObfuscator::new();
    obfuscator.dont_warn();
    assert_eq!(obfuscator.initialize(None, None, src.to_string()), Ok(()));
    deobfuscate_text(&obfuscator.obfuscated_code).unwrap()
}

#[test]
fn a_new_reader_holds_nothing() {
    let reader = BatchDeobfuscator::new();
    assert_eq!(reader.set_str, "");
    assert_eq!(reader.space_str, "");
    assert_eq!(reader.eq_str, "");
    assert!(reader.alphabet.is_empty());
    assert_eq!(reader.cleaned_code, "");
    assert!(!reader.initialized);
}

#[test]
fn a_script_is_read_with_nothing_but_the_script() {
    let mut reader = BatchDeobfuscator::new();
    assert_eq!(reader.initialize(SAMPLE.to_string()), Ok(()));
    assert!(reader.initialized);
    assert_eq!(reader.set_str, "HQTW");
    assert_eq!(reader.space_str, "HswBh");
    assert_eq!(reader.eq_str, "xtYRu");
    assert_eq!(reader.alphabet.len(), 7);
    assert_eq!(reader.alphabet[0], ("ubBBS".to_string(), "c".to_string()));
    assert_eq!(reader.alphabet[6], ("biQK".to_string(), " ".to_string()));
    assert_eq!(reader.cleaned_code, "\necho PoC");
    assert_eq!(deobfuscate_text(SAMPLE), Ok("\necho PoC".to_string()));
    assert_eq!(deobfuscate_text(&SAMPLE[1..]), Ok("echo PoC".to_string()));
}

#[test]
fn the_aliases_are_read_off_the_statements_that_define_them() {
    let anchors = recover_anchors(&script_lines(SAMPLE)).unwrap();
    assert_eq!(anchors.keyword, script_chars("HQTW"));
    assert_eq!(anchors.space, script_chars("HswBh"));
    assert_eq!(anchors.equals, script_chars("xtYRu"));
    let lines = script_lines("%a% b= \nset x=set\nset a=set\n%x%%y%z==\n%x% y= \n%x% q= ");
    let anchors = recover_anchors(&lines).unwrap();
    assert_eq!(anchors.keyword, script_chars("x"));
    assert_eq!(anchors.space, script_chars("y"));
    assert_eq!(anchors.equals, script_chars("z"));
    assert_eq!(
        find_enclosed(&lines, &script_chars("set "), &script_chars("=set")),
        Some(script_chars("x"))
    );
    assert_eq!(
        find_enclosed(&lines, &script_chars("%a% "), &script_chars("= ")),
        Some(script_chars("b"))
    );
    assert_eq!(find_enclosed(&lines, &script_chars("%b% "), &script_chars("= ")), None);
}

#[test]
fn a_script_without_its_three_statements_is_refused() {
    let refused = Err(BatchError::AnchorNotFound);
    let lines: Vec<&str> = SAMPLE.split('\n').collect();
    for missing in 1..=3 {
        let kept: Vec<&str> = lines
            .iter()
            .enumerate()
            .filter(|(n, _)| *n != missing)
            .map(|(_, line)| *line)
            .collect();
        let text = kept.join("\n");
        assert_eq!(deobfuscate_text(&text), refused);
        assert!(recover_anchors(&script_lines(&text)).is_err());
        let mut reader = BatchDeobfuscator::new();
        reader.set_str = "kept".to_string();
        assert_eq!(reader.initialize(text), Err(BatchError::AnchorNotFound));
        assert!(!reader.initialized);
        assert_eq!(reader.set_str, "kept");
        assert_eq!(reader.cleaned_code, "");
    }
    assert_eq!(deobfuscate_text(""), refused);
    assert_eq!(deobfuscate_text("echo hello"), refused);
    assert_eq!(deobfuscate_text("set a=set\n%b% c= \n%a%%c%d=="), refused);
    assert_eq!(deobfuscate_text("set a=set\n%a% c= \n%a%%b%d=="), refused);
    assert_eq!(deobfuscate_text("set a=set \n%a% c= \n%a%%c%d=="), refused);
    assert_eq!(deobfuscate_text("set a=set\r\n%a% c= \r\n%a%%c%d==\r\n"), refused);
    assert_eq!(deobfuscate_text("set a=set\n%a% c= \n%a%%c%d=="), Ok("".to_string()));
}

#[test]
fn the_variable_table_is_read_off_the_definitions() {
    let table = recover_definitions(&script_lines(SAMPLE), &sample_anchors());
    assert_eq!(table, sample_table());
    let lines = script_lines(
        "%HQTW%%HswBh%n%xtYRu%one\n%HQTW%%HswBh%n%xtYRu%\n%HQTW%%HswBh%%xtYRu%x\nbody\n%HQTW%%HswBh%m%xtYRu%%%",
    );
    assert_eq!(
        recover_definitions(&lines, &sample_anchors()),
        vec![
            (script_chars("n"), script_chars("one")),
            (script_chars("m"), script_chars("%%")),
        ]
    );
    assert_eq!(recover_definitions(&Vec::new(), &sample_anchors()), Vec::new());
}

#[test]
fn the_last_definition_of_a_name_counts() {
    let table = vec![
        (script_chars("n"), script_chars("1")),
        (script_chars("m"), script_chars("2")),
        (script_chars("n"), script_chars("3")),
    ];
    assert_eq!(lookup_value(&table, &script_chars("n")), Some(&script_chars("3")));
    assert_eq!(lookup_value(&table, &script_chars("m")), Some(&script_chars("2")));
    assert_eq!(lookup_value(&table, &script_chars("N")), None);
    assert_eq!(lookup_value(&table, &script_chars("")), None);
    assert_eq!(lookup_value(&Vec::new(), &script_chars("n")), None);
    let text = "set a=set\n%a% b= \n%a%%b%c==\n%a%%b%n%c%x\n%a%%b%n%c%y\n%n%";
    assert_eq!(deobfuscate_text(text), Ok("y".to_string()));
}

#[test]
fn a_piece_is_wrapped_again_where_it_may_have_stood_between_delimiters() {
    for piece in ["AB", "PATH", "a", "1", ":label", "a=b", "\u{e9}"] {
        assert!(wrappable(&script_chars(piece)), "{}", piece);
    }
    for piece in ["", " ", "a b", "echo ", "\r", "a\r", "<", "a|b", "a&", "^", "a\nb", ">>"] {
        assert!(!wrappable(&script_chars(piece)), "{:?}", piece);
    }
}

#[test]
fn a_line_is_restored_piece_by_piece() {
    let table = sample_table();
    let restore = |line: &str| -> String { restore_line(&script_chars(line), &table).iter().collect() };
    assert_eq!(restore("%XRVHZ%%ubBBS%%qWvHi%%XyVFS%"), "echo");
    assert_eq!(restore("%AB%"), "%AB%");
    assert_eq!(restore("%XRVHZ%<%XRVHZ%>"), "e<e>");
    assert_eq!(restore("echo %PATH% done"), "echo %PATH% done");
    assert_eq!(restore("set x=1"), "set x=1");
    assert_eq!(restore("plain"), "%plain%");
    assert_eq!(restore("%XRVHZ%\r"), "e\r");
    assert_eq!(restore(""), "");
    assert_eq!(restore("%%"), "");
    assert_eq!(restore("%%%"), "");
    assert_eq!(restore("%ubBBS"), "c");
    assert_eq!(restore("ubBBS"), "c");
}

#[test]
fn the_body_is_what_is_left_of_the_script() {
    let lines = script_lines(&script_with_body(&["%Ha%%Ib%", "", "%Ib%%Ha%", "x Kkk", "Ppp", "yEeez"]));
    let table = vec![
        (script_chars("Ha"), script_chars("h")),
        (script_chars("Ib"), script_chars("i")),
    ];
    let anchors = Anchors {
        keyword: script_chars("Kkk"),
        space: script_chars("Ppp"),
        equals: script_chars("Eee"),
    };
    let body: String = restore_body(&lines, &anchors, &table).iter().collect();
    assert_eq!(body, "hi\n\nih\n");
    let watermarked = format!("x{}y", WATERMARK_ORIGIN);
    let lines = script_lines(&script_with_body(&[&watermarked, "%Ha%"]));
    let body: String = restore_body(&lines, &anchors, &table).iter().collect();
    assert_eq!(body, "h\n");
}

#[test]
fn an_unknown_reference_is_kept_as_a_reference() {
    assert_eq!(deobfuscate_text(&script_with_body(&["%AB%"])), Ok("%AB%".to_string()));
    assert_eq!(
        deobfuscate_text(&script_with_body(&["%Ha%%AB%%Ib%"])),
        Ok("h%AB%i".to_string())
    );
    assert_eq!(
        deobfuscate_text(&script_with_body(&["echo %PATH% done"])),
        Ok("echo %PATH% done".to_string())
    );
}

#[test]
fn a_malformed_definition_is_passed_over() {
    let mut lines: Vec<String> = script_with_body(&["%Ha%%Zz%%Ib%"])
        .split('\n')
        .map(|line| line.to_string())
        .collect();
    lines.insert(7, "%Kkk%%Ppp%Zz%Eee%".to_string());
    lines.insert(8, "%Kkk%%Ppp%Z1%Eee%z".to_string());
    let mut reader = BatchDeobfuscator::new();
    assert_eq!(reader.initialize(lines.join("\n")), Ok(()));
    assert_eq!(
        reader.alphabet,
        vec![
            ("Ha".to_string(), "h".to_string()),
            ("Ib".to_string(), "i".to_string()),
        ]
    );
    assert_eq!(reader.cleaned_code, "h%Zz%i");
}

#[test]
fn one_line_feed_is_taken_off_the_end() {
    assert_eq!(deobfuscate_text(&script_with_body(&["%Ha%", "%Ib%"])), Ok("h\ni".to_string()));
    assert_eq!(deobfuscate_text(&script_with_body(&["%Ha% "])), Ok("h ".to_string()));
    assert_eq!(deobfuscate_text(&script_with_body(&["%Ha%\r"])), Ok("h\r".to_string()));
    assert_eq!(deobfuscate_text(&script_with_body(&[])), Ok("".to_string()));
    assert_eq!(deobfuscate_text(&script_with_body(&["", ""])), Ok("\n".to_string()));
    assert_eq!(deobfuscate_text(&script_with_body(&["%Ha%", ""])), Ok("h\n".to_string()));
    let without_gap = script_with_body(&["%Ha%", "%Ib%"]).replace("%Ib%\n\n", "%Ib%\n");
    assert_eq!(deobfuscate_text(&without_gap), Ok("h\ni".to_string()));
}

#[test]
fn the_two_steps_of_the_reader_can_be_taken_alone() {
    let mut reader = BatchDeobfuscator::new();
    reader.set_str = "HQTW".to_string();
    reader.space_str = "HswBh".to_string();
    reader.eq_str = "xtYRu".to_string();
    reader.alphabet.push(("first".to_string(), "1".to_string()));
    reader.reverse_alphabet(SAMPLE);
    assert_eq!(reader.alphabet.len(), 8);
    assert_eq!(reader.alphabet[0], ("first".to_string(), "1".to_string()));
    assert_eq!(reader.alphabet[1], ("ubBBS".to_string(), "c".to_string()));
    assert_eq!(reader.cleaned_code, "");
    reader.deobfuscate("%qWvHi%%first%\n%HQTW%\n\n%XyVFS%\n".to_string());
    assert_eq!(reader.cleaned_code, "h1\n\no");
    assert_eq!(reader.alphabet.len(), 8);
    assert!(!reader.initialized);
}

#[test]
fn sources_of_many_kinds_are_read_back() {
    for src in [
        "hi",
        "",
        "echo Hello, World!",
        "start C:/Windows/System32/calc.exe",
        "first line\nsecond line\nthird",
        "dir > out.txt | more & echo ^done^ < in",
        "crlf line\r\nnext\r",
        "50% off",
        "100%",
        "%%",
        "a%b c% d%",
        "%",
        "%%%",
        "!\"#$&'()*+,-./:;<=>?@[\\]^_`{|}~",
        "0123456789 abcdefghijklmnopqrstuvwxyz ABCDEFGHIJKLMNOPQRSTUVWXYZ",
        "::comment",
        " leading and trailing ",
    ] {
        assert_eq!(read_back(src), src, "{:?}", src);
    }
}

#[test]
fn lines_that_are_left_as_they_are_come_back_where_they_hold_a_space() {
    assert_eq!(read_back("set x=1"), "set x=1");
    assert_eq!(read_back("echo %PATH% now"), "echo %PATH% now");
    assert_eq!(read_back("echo a\nset x=1\necho %x% b"), "echo a\nset x=1\necho %x% b");
    assert_eq!(read_back(":start"), "%:start%");
}

#[test]
fn empty_lines_are_read_back() {
    for src in ["a\n\nb", "hi\n", "\n", "\nhi", "\n\n\n", "a\n\n\nb\n\n", "h\n\ni"] {
        assert_eq!(read_back(src), src, "{:?}", src);
    }
}

#[test]
fn an_empty_line_of_the_body_is_restored_as_an_empty_line() {
    let text = "set HQTW=set\n%HQTW% HswBh= \n%HQTW%%HswBh%xtYRu==\n%HQTW%%HswBh%qWvHi%xtYRu%h\n%HQTW%%HswBh%XRVHZ%xtYRu%i\n%qWvHi%\n\n%XRVHZ%\n";
    let mut reader = BatchDeobfuscator::new();
    assert_eq!(reader.initialize(text.to_string()), Ok(()));
    assert_eq!(reader.cleaned_code, "h\n\ni");
    let lines = script_lines("\n%XRVHZ%\n\n");
    let body: String = restore_body(&lines, &sample_anchors(), &sample_table()).iter().collect();
    assert_eq!(body, "\ne\n\n");
    let body: String = restore_body(&script_lines(""), &sample_anchors(), &sample_table())
        .iter()
        .collect();
    assert_eq!(body, "");
    let body: String = restore_body(&Vec::new(), &sample_anchors(), &sample_table())
        .iter()
        .collect();
    assert_eq!(body, "");
}

#[test]
fn the_echo_line_is_read_as_a_line_of_the_source() {
    let mut obfuscator = BatchObfuscator::new();
    obfuscator.dont_echo();
    assert_eq!(obfuscator.initialize(None, None, "hi".to_string()), Ok(()));
    assert_eq!(deobfuscate_text(&obfuscator.obfuscated_code), Ok("@echo off\nhi".to_string()));
}

#[test]
fn a_line_that_holds_an_alias_is_taken_for_a_statement() {
    let text = [
        "set a=set",
        "%a% b= ",
        "%a%%b%c==",
        "%a%%b%xay%c%h",
        "%a%%b%i%c%i",
        "%xay%%i%",
        "%i%",
    ]
    .join("\n");
    assert_eq!(deobfuscate_text(&text), Ok("i".to_string()));
}

#[test]
fn characters_outside_the_full_set_are_wrapped_when_read() {
    assert_eq!(read_back("\u{e9}"), "%\u{e9}%");
    assert_eq!(read_back("a\u{e9}"), "a%\u{e9}%");
    assert_eq!(read_back("tab\there"), "tab%\t%here");
}
