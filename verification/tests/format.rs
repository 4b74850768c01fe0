use oxidizer::batch::format::{
    definition_statement, equals_statement, keyword_statement, parse_definition, parse_enclosed,
    push_reference, reference_to, space_statement, ECHO_OFF, WATERMARK_ORIGIN,
    WATERMARK_REVERSAL,
};
use oxidizer::batch::BatchError;

fn format_chars(s: &str) -> Vec<char> {
    s.chars().collect()
}

fn read_definition(line: &str) -> Result<(String, String), BatchError> {
    parse_definition(
        &format_chars(line),
        &format_chars("HQTW"),
        &format_chars("HswBh"),
        &format_chars("xtYRu"),
    )
    .map(|(name, value)| (name.iter().collect(), value.iter().collect()))
}

fn read_enclosed(line: &str, prefix: &str, suffix: &str) -> Option<String> {
    parse_enclosed(&format_chars(line), &format_chars(prefix), &format_chars(suffix))
        .map(|name| name.iter().collect())
}

#[test]
fn the_statements_are_written_letter_for_letter() {
    assert_eq!(keyword_statement("HQTW"), "set HQTW=set");
    assert_eq!(space_statement("HQTW", "HswBh"), "%HQTW% HswBh= ");
    assert_eq!(equals_statement("HQTW", "HswBh", "xtYRu"), "%HQTW%%HswBh%xtYRu==");
    assert_eq!(
        definition_statement("HQTW", "HswBh", "ubBBS", "xtYRu", "c"),
        "%HQTW%%HswBh%ubBBS%xtYRu%c"
    );
    assert_eq!(
        definition_statement("HQTW", "HswBh", "biQK", "xtYRu", " "),
        "%HQTW%%HswBh%biQK%xtYRu% "
    );
    assert_eq!(
        definition_statement("a", "b", "c", "d", "%x"),
        "%a%%b%c%d%%x"
    );
}

#[test]
fn a_reference_stands_between_two_delimiters() {
    assert_eq!(reference_to(&format_chars("abc")), format_chars("%abc%"));
    assert_eq!(reference_to(&format_chars("")), format_chars("%%"));
    let mut out = String::from("x");
    push_reference(&mut out, "name");
    assert_eq!(out, "x%name%");
    push_reference(&mut out, "b");
    assert_eq!(out, "x%name%%b%");
}

#[test]
fn the_watermarks_are_comment_lines() {
    assert_eq!(
        WATERMARK_ORIGIN,
        ":: VGhpcyBmaWxlIHdhcyBvYmZ1c2NhdGVkIHZpYSBodHRwczovL2dpdGh1Yi5jb20vMHhUYXMvMHhpZGl6M3I="
    );
    assert_eq!(
        WATERMARK_REVERSAL,
        ":: VGhpcyBmaWxlIGNhbiBiZSBwcm9ncmFtYXRpY2FsbHkgZGVvYmZ1c2NhdGVkIHZpYSBodHRwczovL2dpdGh1Yi5jb20vMHhUYXMvMHhpZGl6M3I="
    );
    assert_eq!(ECHO_OFF, "@echo off");
    assert!(!WATERMARK_ORIGIN.contains('\n'));
    assert!(!WATERMARK_REVERSAL.contains('\n'));
}

#[test]
fn letters_between_two_ends_are_read() {
    assert_eq!(read_enclosed("set HQTW=set", "set ", "=set"), Some("HQTW".to_string()));
    assert_eq!(read_enclosed("set a=set", "set ", "=set"), Some("a".to_string()));
    assert_eq!(read_enclosed("%a% HswBh= ", "%a% ", "= "), Some("HswBh".to_string()));
    assert_eq!(read_enclosed("%a%%b%xtYRu==", "%a%%b%", "=="), Some("xtYRu".to_string()));
    assert_eq!(read_enclosed("set =set", "set ", "=set"), None);
    assert_eq!(read_enclosed("set a1=set", "set ", "=set"), None);
    assert_eq!(read_enclosed("set a b=set", "set ", "=set"), None);
    assert_eq!(read_enclosed("set ab=set ", "set ", "=set"), None);
    assert_eq!(read_enclosed(" set ab=set", "set ", "=set"), None);
    assert_eq!(read_enclosed("SET ab=set", "set ", "=set"), None);
    assert_eq!(read_enclosed("set", "set ", "=set"), None);
    assert_eq!(read_enclosed("", "set ", "=set"), None);
    assert_eq!(read_enclosed("set =set", "set ", "=set"), None);
    assert_eq!(read_enclosed("abc", "", ""), Some("abc".to_string()));
    assert_eq!(read_enclosed("", "", ""), None);
}

#[test]
fn a_definition_is_read_as_its_name_and_its_value() {
    assert_eq!(
        read_definition("%HQTW%%HswBh%ubBBS%xtYRu%c"),
        Ok(("ubBBS".to_string(), "c".to_string()))
    );
    assert_eq!(
        read_definition("%HQTW%%HswBh%biQK%xtYRu% "),
        Ok(("biQK".to_string(), " ".to_string()))
    );
    assert_eq!(
        read_definition("%HQTW%%HswBh%n%xtYRu%%a"),
        Ok(("n".to_string(), "%a".to_string()))
    );
    assert_eq!(
        read_definition("%HQTW%%HswBh%n%xtYRu%%"),
        Ok(("n".to_string(), "%".to_string()))
    );
    assert_eq!(
        read_definition("%HQTW%%HswBh%n%xtYRu%three or more"),
        Ok(("n".to_string(), "three or more".to_string()))
    );
    assert_eq!(
        read_definition("%HQTW%%HswBh%n%xtYRu%%xtYRu%"),
        Ok(("n".to_string(), "%xtYRu%".to_string()))
    );
}

#[test]
fn what_is_no_definition_is_a_malformed_definition() {
    let malformed = Err(BatchError::MalformedDefinition);
    assert_eq!(read_definition("%HQTW%%HswBh%n%xtYRu%"), malformed);
    assert_eq!(read_definition("%HQTW%%HswBh%%xtYRu%c"), malformed);
    assert_eq!(read_definition("%HQTW%%HswBh%n1%xtYRu%c"), malformed);
    assert_eq!(read_definition("%HQTW%%HswBh%n%xtYR%c"), malformed);
    assert_eq!(read_definition("%HQTW%%HswBh%n%xtYRuu%c"), malformed);
    assert_eq!(read_definition("%HQTW%%HswB%n%xtYRu%c"), malformed);
    assert_eq!(read_definition("%HQT%%HswBh%n%xtYRu%c"), malformed);
    assert_eq!(read_definition(" %HQTW%%HswBh%n%xtYRu%c"), malformed);
    assert_eq!(read_definition("%HQTW%%HswBh%n"), malformed);
    assert_eq!(read_definition("%HQTW%%HswBh%"), malformed);
    assert_eq!(read_definition("%HQTW%%HswBh%xtYRu=="), malformed);
    assert_eq!(read_definition("%HQTW% HswBh= "), malformed);
    assert_eq!(read_definition("set HQTW=set"), malformed);
    assert_eq!(read_definition("%XRVHZ%%ubBBS%"), malformed);
    assert_eq!(read_definition(""), malformed);
}

#[test]
fn a_statement_that_was_written_is_read_back() {
    let line = definition_statement("Kk", "Pp", "Name", "Ee", "%v");
    let read = parse_definition(
        &format_chars(&line),
        &format_chars("Kk"),
        &format_chars("Pp"),
        &format_chars("Ee"),
    );
    assert_eq!(read, Ok((format_chars("Name"), format_chars("%v"))));
    assert_eq!(
        read_enclosed(&keyword_statement("Kk"), "set ", "=set"),
        Some("Kk".to_string())
    );
    assert_eq!(
        read_enclosed(&space_statement("Kk", "Pp"), "%Kk% ", "= "),
        Some("Pp".to_string())
    );
    assert_eq!(
        read_enclosed(&equals_statement("Kk", "Pp", "Ee"), "%Kk%%Pp%", "=="),
        Some("Ee".to_string())
    );
}
