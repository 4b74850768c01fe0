use oxidizer::text::{
    chars_of, concat_strings, contains_chars, ends_with_chars, join_chars, join_strings,
    occurs_at_pos, push_all, same_chars, split_chars, starts_with_chars, string_of,
};

fn text_chars(s: &str) -> Vec<char> {
    s.chars().collect()
}

fn text_pieces(parts: &[&str]) -> Vec<Vec<char>> {
    parts.iter().map(|p| text_chars(p)).collect()
}

#[test]
fn characters_and_strings_convert_both_ways() {
    assert_eq!(chars_of("a%\u{e9}\n"), vec!['a', '%', '\u{e9}', '\n']);
    assert_eq!(string_of(&vec!['a', '%', '\u{e9}', '\n']), "a%\u{e9}\n");
    assert_eq!(chars_of(""), Vec::<char>::new());
    assert_eq!(string_of(&Vec::new()), "");
    assert_eq!(string_of(&chars_of("set x=1")), "set x=1");
}

#[test]
fn split_gives_one_piece_more_than_there_are_separators() {
    assert_eq!(split_chars(&text_chars("a\nb\n"), '\n'), text_pieces(&["a", "b", ""]));
    assert_eq!(split_chars(&text_chars(""), '\n'), text_pieces(&[""]));
    assert_eq!(split_chars(&text_chars("abc"), '\n'), text_pieces(&["abc"]));
    assert_eq!(split_chars(&text_chars("%%"), '%'), text_pieces(&["", "", ""]));
    assert_eq!(
        split_chars(&text_chars("%ab%<%c%"), '%'),
        text_pieces(&["", "ab", "<", "c", ""])
    );
}

#[test]
fn join_puts_one_separator_between_neighbours() {
    assert_eq!(join_chars(&text_pieces(&["a", "b", ""]), '\n'), text_chars("a\nb\n"));
    assert_eq!(join_chars(&text_pieces(&[]), '\n'), text_chars(""));
    assert_eq!(join_chars(&text_pieces(&["x"]), '\n'), text_chars("x"));
    assert_eq!(join_chars(&text_pieces(&["", ""]), '%'), text_chars("%"));
    let lines = vec!["one".to_string(), "".to_string(), "two".to_string()];
    assert_eq!(join_strings(&lines, '\n'), "one\n\ntwo");
    assert_eq!(join_strings(&Vec::new(), '\n'), "");
    assert_eq!(concat_strings(&lines), "onetwo");
    assert_eq!(concat_strings(&Vec::new()), "");
}

#[test]
fn join_gives_back_what_was_split() {
    for sample in ["", "\n", "a", "a\n", "\na", "a\n\nb", "%a%%b%", "one two\nthree"] {
        let pieces = split_chars(&text_chars(sample), '\n');
        assert_eq!(join_chars(&pieces, '\n'), text_chars(sample));
        let pieces = split_chars(&text_chars(sample), '%');
        assert_eq!(join_chars(&pieces, '%'), text_chars(sample));
    }
}

#[test]
fn split_gives_back_what_was_joined() {
    let pieces = text_pieces(&["set a=set", "", "%a% b= ", "x"]);
    assert_eq!(split_chars(&join_chars(&pieces, '\n'), '\n'), pieces);
}

#[test]
fn a_text_is_found_where_it_stands() {
    let hay = text_chars("abcabc");
    assert!(occurs_at_pos(&hay, &text_chars("bc"), 1));
    assert!(occurs_at_pos(&hay, &text_chars("bc"), 4));
    assert!(!occurs_at_pos(&hay, &text_chars("bc"), 2));
    assert!(!occurs_at_pos(&hay, &text_chars("bc"), 5));
    assert!(!occurs_at_pos(&hay, &text_chars("bc"), usize::MAX));
    assert!(occurs_at_pos(&hay, &text_chars(""), 6));
    assert!(!occurs_at_pos(&hay, &text_chars(""), 7));
    assert!(!occurs_at_pos(&text_chars("ab"), &text_chars("abc"), 0));
}

#[test]
fn contains_looks_at_every_place() {
    assert!(contains_chars(&text_chars("hello world"), &text_chars("lo w")));
    assert!(contains_chars(&text_chars("hello world"), &text_chars("hello world")));
    assert!(contains_chars(&text_chars("hello world"), &text_chars("d")));
    assert!(contains_chars(&text_chars("abc"), &text_chars("")));
    assert!(contains_chars(&text_chars(""), &text_chars("")));
    assert!(!contains_chars(&text_chars("ab"), &text_chars("abc")));
    assert!(!contains_chars(&text_chars("abc"), &text_chars("bd")));
    assert!(!contains_chars(&text_chars(""), &text_chars("a")));
}

#[test]
fn a_text_opens_and_closes_with_its_ends() {
    assert!(starts_with_chars(&text_chars("set a=set"), &text_chars("set ")));
    assert!(!starts_with_chars(&text_chars("Set a=set"), &text_chars("set ")));
    assert!(!starts_with_chars(&text_chars("se"), &text_chars("set ")));
    assert!(starts_with_chars(&text_chars("se"), &text_chars("")));
    assert!(ends_with_chars(&text_chars("set a=set"), &text_chars("=set")));
    assert!(!ends_with_chars(&text_chars("set a=set "), &text_chars("=set")));
    assert!(!ends_with_chars(&text_chars("et"), &text_chars("=set")));
    assert!(ends_with_chars(&text_chars("et"), &text_chars("")));
}

#[test]
fn equal_texts_hold_the_same_characters() {
    assert!(same_chars(&text_chars("abc"), &text_chars("abc")));
    assert!(same_chars(&text_chars(""), &text_chars("")));
    assert!(!same_chars(&text_chars("abc"), &text_chars("abd")));
    assert!(!same_chars(&text_chars("abc"), &text_chars("ab")));
    assert!(!same_chars(&text_chars("ab"), &text_chars("abc")));
}

#[test]
fn push_all_appends_in_order() {
    let mut dst = text_chars("ab");
    push_all(&mut dst, &text_chars("cd"));
    assert_eq!(dst, text_chars("abcd"));
    push_all(&mut dst, &text_chars(""));
    assert_eq!(dst, text_chars("abcd"));
}
