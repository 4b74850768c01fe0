//! The forward direction: from a script to its obfuscated form.
//!
//! Every substitutable character of a line becomes a reference to the
//! variable that holds it. Lines that define or use variables or labels of
//! their own are left as they are. A delimiter that stands in any other
//! line is put into a variable of its own, together with the character
//! that follows it.

use crate::batch::format::{
    definition_line, definition_statement, equals_line, equals_statement, keyword_line,
    keyword_statement, push_reference, reference, space_line, space_statement, ECHO_OFF,
    WATERMARK_ORIGIN, WATERMARK_REVERSAL,
};
use crate::batch::keyspace::{
    is_exhausted, lemma_exhausted_within, lemma_names_suffice, lemma_power_bounds,
    lemma_single_letters,
};
use crate::batch::{
    bad_char, full_set_index, generate_random_chars, is_bad_char, is_extended, is_substitutable,
    is_token, lemma_full_set, max_length, min_length, pairwise_distinct, BatchError, CharSet,
    DEFAULT_MAX_LENGTH, DEFAULT_MIN_LENGTH,
};
use crate::text::{
    chars_of, concat, concat_strings, join, join_strings, lemma_concat_add, lemma_concat_one,
    occurs_at, occurs_at_pos, split, split_chars, string_of, string_views, views,
};
use vstd::prelude::*;

verus! {

/// True for the characters of which the name in a variable reference is made.
pub open spec fn is_name_char(c: char) -> bool {
    ||| ('a' <= c && c <= 'z')
    ||| ('A' <= c && c <= 'Z')
    ||| ('0' <= c && c <= '9')
    ||| ('_' <= c && c <= '~')
    ||| c == '!'
    ||| c == '@'
    ||| c == '#'
    ||| c == '$'
    ||| c == '^'
    ||| c == '&'
    ||| c == '/'
    ||| c == '.'
    ||| c == ','
    ||| c == '<'
    ||| c == '>'
    ||| c == ';'
    ||| c == ':'
    ||| c == '\''
    ||| c == '"'
    ||| c == '='
}

/// A delimiter stands at `from`, and name characters only from there up to `to`.
pub open spec fn is_open_at(line: Seq<char>, from: int, to: int) -> bool {
    &&& 0 <= from < line.len()
    &&& line[from] == '%'
    &&& forall|m: int| from < m < to && m < line.len() ==> is_name_char(#[trigger] line[m])
}

/// A variable reference stands in `line` from `from` to `to`: two
/// delimiters with one name character or more between them.
pub open spec fn is_reference_at(line: Seq<char>, from: int, to: int) -> bool {
    &&& is_open_at(line, from, to)
    &&& from + 1 < to < line.len()
    &&& line[to] == '%'
}

/// `line` holds a variable reference.
pub open spec fn has_reference(line: Seq<char>) -> bool {
    exists|from: int, to: int| is_reference_at(line, from, to)
}

/// `line` opens a label: it starts with one colon, not with two.
pub open spec fn is_label(line: Seq<char>) -> bool {
    &&& line.len() >= 1
    &&& line[0] == ':'
    &&& !(line.len() >= 2 && line[1] == ':')
}

/// `line` starts with the assignment keyword, in upper or lower case.
pub open spec fn opens_with_keyword(line: Seq<char>) -> bool {
    &&& line.len() >= 3
    &&& (line[0] == 's' || line[0] == 'S')
    &&& (line[1] == 'e' || line[1] == 'E')
    &&& (line[2] == 't' || line[2] == 'T')
}

/// The keyword and a space stand at `at`, an assignment operator at
/// `operator`, one character or more between them and after the operator.
pub open spec fn is_assignment_at(line: Seq<char>, at: int, operator: int) -> bool {
    &&& occurs_at(line, seq!['s', 'e', 't', ' '], at)
    &&& at + 5 <= operator
    &&& operator + 1 < line.len()
    &&& line[operator] == '='
}

/// `line` holds an assignment.
pub open spec fn has_assignment(line: Seq<char>) -> bool {
    exists|at: int, operator: int| is_assignment_at(line, at, operator)
}

/// `line` is left as it is: it holds a variable reference, opens a label,
/// or is an assignment statement.
pub open spec fn is_opaque(line: Seq<char>) -> bool {
    ||| has_reference(line)
    ||| is_label(line)
    ||| (opens_with_keyword(line) && has_assignment(line))
}

/// One of `lines` is left as it is.
pub open spec fn has_opaque_line(lines: Seq<Seq<char>>) -> bool {
    exists|i: int| 0 <= i < lines.len() && is_opaque(#[trigger] lines[i])
}

/// What stands for `c` in an obfuscated line: a reference to its variable
/// where it is substitutable, else `c` itself.
pub open spec fn unit(c: char, table: Seq<Seq<char>>) -> Seq<char> {
    if is_substitutable(c) {
        reference(table[full_set_index(c)])
    } else {
        seq![c]
    }
}

/// The delimiter at `i` together with the character after it, if there is one.
pub open spec fn blob_at(line: Seq<char>, i: int) -> Seq<char> {
    if i + 1 < line.len() {
        line.subrange(i, i + 2)
    } else {
        line.subrange(i, i + 1)
    }
}

/// The blobs of `line` from `i` on: one for each delimiter that is not
/// itself the second character of a blob.
pub open spec fn blobs_from(line: Seq<char>, i: int) -> Seq<Seq<char>>
    decreases line.len() - i,
{
    if i < 0 || i >= line.len() {
        Seq::empty()
    } else if line[i] == '%' {
        seq![blob_at(line, i)] + blobs_from(line, i + blob_at(line, i).len())
    } else {
        blobs_from(line, i + 1)
    }
}

/// `line` from `i` on, rewritten: each blob as a reference to the next of
/// `names`, starting with `names[j]`, each other character as its unit.
pub open spec fn rewrite_from(
    line: Seq<char>,
    i: int,
    table: Seq<Seq<char>>,
    names: Seq<Seq<char>>,
    j: int,
) -> Seq<char>
    decreases line.len() - i,
{
    if i < 0 || i >= line.len() {
        Seq::empty()
    } else if line[i] == '%' {
        reference(names[j]) + rewrite_from(line, i + blob_at(line, i).len(), table, names, j + 1)
    } else {
        unit(line[i], table) + rewrite_from(line, i + 1, table, names, j)
    }
}

/// The blobs of a line: none where the line is left as it is.
pub open spec fn line_blobs(line: Seq<char>) -> Seq<Seq<char>> {
    if is_opaque(line) {
        Seq::empty()
    } else {
        blobs_from(line, 0)
    }
}

/// A line as it stands in the body of the obfuscated script.
pub open spec fn line_rewrite(line: Seq<char>, table: Seq<Seq<char>>, names: Seq<Seq<char>>, j: int) -> Seq<
    char,
> {
    if is_opaque(line) {
        line
    } else {
        rewrite_from(line, 0, table, names, j)
    }
}

/// The blobs of all lines, in their order.
pub open spec fn source_blobs(lines: Seq<Seq<char>>) -> Seq<Seq<char>>
    decreases lines.len(),
{
    if lines.len() == 0 {
        Seq::empty()
    } else {
        source_blobs(lines.drop_last()) + line_blobs(lines.last())
    }
}

/// The lines of the body, each with the line feed that ends it. The blobs
/// take their names from `names` in the order of `source_blobs`.
pub open spec fn body_lines(lines: Seq<Seq<char>>, table: Seq<Seq<char>>, names: Seq<Seq<char>>) -> Seq<
    Seq<char>,
>
    decreases lines.len(),
{
    if lines.len() == 0 {
        Seq::empty()
    } else {
        let head = lines.drop_last();
        body_lines(head, table, names).push(
            line_rewrite(lines.last(), table, names, source_blobs(head).len() as int).push('\n'),
        )
    }
}

/// `line` from `i` on, unit by unit: a reference for each blob and for
/// each substitutable character, and each other character by itself.
pub open spec fn units_from(
    line: Seq<char>,
    i: int,
    table: Seq<Seq<char>>,
    names: Seq<Seq<char>>,
    j: int,
) -> Seq<Seq<char>>
    decreases line.len() - i,
{
    if i < 0 || i >= line.len() {
        Seq::empty()
    } else if line[i] == '%' {
        seq![reference(names[j])] + units_from(
            line,
            i + blob_at(line, i).len(),
            table,
            names,
            j + 1,
        )
    } else {
        seq![unit(line[i], table)] + units_from(line, i + 1, table, names, j)
    }
}

/// The units of a line as it stands in the body: the line itself as
/// the one unit where it is left as it is.
pub open spec fn line_units(line: Seq<char>, table: Seq<Seq<char>>, names: Seq<Seq<char>>, j: int) -> Seq<
    Seq<char>,
> {
    if is_opaque(line) {
        seq![line]
    } else {
        units_from(line, 0, table, names, j)
    }
}

/// The units of the body: those of each line, and a line feed as the
/// unit that closes the line.
pub open spec fn body_units(lines: Seq<Seq<char>>, table: Seq<Seq<char>>, names: Seq<Seq<char>>) -> Seq<
    Seq<char>,
>
    decreases lines.len(),
{
    if lines.len() == 0 {
        Seq::empty()
    } else {
        let head = lines.drop_last();
        body_units(head, table, names) + line_units(
            lines.last(),
            table,
            names,
            source_blobs(head).len() as int,
        ).push(seq!['\n'])
    }
}

/// The alphabet lists the characters of the full set in the order of the set.
pub open spec fn in_full_set_order(alphabet: Seq<(char, String)>) -> bool {
    &&& alphabet.len() == CharSet::FullSet.members().len()
    &&& forall|i: int|
        0 <= i < alphabet.len() ==> (#[trigger] alphabet[i]).0 == CharSet::FullSet.members()[i]
}

/// The units of a line put together are the rewritten line.
pub proof fn lemma_units_text(
    line: Seq<char>,
    i: int,
    table: Seq<Seq<char>>,
    names: Seq<Seq<char>>,
    j: int,
)
    ensures
        concat(units_from(line, i, table, names, j)) == rewrite_from(line, i, table, names, j),
    decreases line.len() - i,
{
    if i < 0 || i >= line.len() {
        assert(concat(Seq::<Seq<char>>::empty()) =~= Seq::<char>::empty());
    } else if line[i] == '%' {
        let next = i + blob_at(line, i).len();
        lemma_units_text(line, next, table, names, j + 1);
        lemma_concat_add(seq![reference(names[j])], units_from(line, next, table, names, j + 1));
        lemma_concat_one(reference(names[j]));
    } else {
        lemma_units_text(line, i + 1, table, names, j);
        lemma_concat_add(seq![unit(line[i], table)], units_from(line, i + 1, table, names, j));
        lemma_concat_one(unit(line[i], table));
    }
}

/// The units of the body put together are the lines of the body put together.
pub proof fn lemma_body_units_text(
    lines: Seq<Seq<char>>,
    table: Seq<Seq<char>>,
    names: Seq<Seq<char>>,
)
    ensures
        concat(body_units(lines, table, names)) == concat(body_lines(lines, table, names)),
    decreases lines.len(),
{
    if lines.len() > 0 {
        let head = lines.drop_last();
        let j = source_blobs(head).len() as int;
        let line = lines.last();
        let units = line_units(line, table, names, j);
        let feed = seq!['\n'];
        lemma_body_units_text(head, table, names);
        if is_opaque(line) {
            lemma_concat_one(line);
        } else {
            lemma_units_text(line, 0, table, names, j);
        }
        assert(units.push(feed).drop_last() =~= units);
        assert(concat(units.push(feed)) =~= line_rewrite(line, table, names, j).push('\n'));
        lemma_concat_add(body_units(head, table, names), units.push(feed));
        let bodies = body_lines(lines, table, names);
        assert(bodies.drop_last() =~= body_lines(head, table, names));
    } else {
        assert(concat(Seq::<Seq<char>>::empty()) =~= Seq::<char>::empty());
    }
}

/// The names of a table: one entry for each character of the full set.
pub open spec fn table_of(alphabet: Seq<(char, String)>) -> Seq<Seq<char>> {
    alphabet.map_values(|entry: (char, String)| entry.1@)
}

/// The variable names that a table holds, in the order of the full set:
/// the entries of the substitutable characters.
pub open spec fn issued(table: Seq<Seq<char>>) -> Seq<Seq<char>>
    decreases table.len(),
{
    if table.len() == 0 {
        Seq::empty()
    } else {
        let head = issued(table.drop_last());
        if is_bad_char(CharSet::FullSet.members()[table.len() - 1]) {
            head
        } else {
            head.push(table.last())
        }
    }
}

/// A complete alphabet: one entry for each character of the full set, in
/// the order of the set; a bad character stands for itself, and each
/// other character has a variable name of a length from `min` to `max`.
pub open spec fn is_alphabet(alphabet: Seq<(char, String)>, min: int, max: int) -> bool {
    &&& alphabet.len() == CharSet::FullSet.members().len()
    &&& forall|i: int|
        0 <= i < alphabet.len() ==> {
            let c = CharSet::FullSet.members()[i];
            &&& (#[trigger] alphabet[i]).0 == c
            &&& is_bad_char(c) ==> alphabet[i].1@ == seq![c]
            &&& !is_bad_char(c) ==> is_token(alphabet[i].1@, min, max)
        }
}

/// The lines that an obfuscated script opens with: the two watermarks,
/// the echo line where it is asked for, and the three statements that
/// define the aliases.
pub open spec fn header_lines(echo: bool, keyword: Seq<char>, space: Seq<char>, equals: Seq<char>) -> Seq<
    Seq<char>,
> {
    let marks = seq![WATERMARK_ORIGIN@, WATERMARK_REVERSAL@];
    let anchors = seq![
        keyword_line(keyword),
        space_line(keyword, space),
        equals_line(keyword, space, equals),
    ];
    if echo {
        marks.push(ECHO_OFF@) + anchors
    } else {
        marks + anchors
    }
}

/// The definition statements of a table: one for each substitutable
/// character, in the order of the full set.
pub open spec fn alphabet_lines(
    keyword: Seq<char>,
    space: Seq<char>,
    equals: Seq<char>,
    table: Seq<Seq<char>>,
) -> Seq<Seq<char>>
    decreases table.len(),
{
    if table.len() == 0 {
        Seq::empty()
    } else {
        let head = alphabet_lines(keyword, space, equals, table.drop_last());
        let c = CharSet::FullSet.members()[table.len() - 1];
        if is_bad_char(c) {
            head
        } else {
            head.push(definition_line(keyword, space, table.last(), equals, seq![c]))
        }
    }
}

/// The definition statements of the blobs: `names[j]` holds `blobs[j]`.
pub open spec fn blob_lines(
    keyword: Seq<char>,
    space: Seq<char>,
    equals: Seq<char>,
    names: Seq<Seq<char>>,
    blobs: Seq<Seq<char>>,
) -> Seq<Seq<char>> {
    Seq::new(blobs.len(), |j: int| definition_line(keyword, space, names[j], equals, blobs[j]))
}

/// The lines of the obfuscated script for the source lines `lines`: the
/// header, the definitions of the table and of the blobs, the body as
/// one entry, and the two watermarks again.
pub open spec fn document_lines(
    lines: Seq<Seq<char>>,
    echo: bool,
    keyword: Seq<char>,
    space: Seq<char>,
    equals: Seq<char>,
    table: Seq<Seq<char>>,
    blob_names: Seq<Seq<char>>,
) -> Seq<Seq<char>> {
    header_lines(echo, keyword, space, equals) + alphabet_lines(keyword, space, equals, table)
        + blob_lines(keyword, space, equals, blob_names, source_blobs(lines)) + seq![
        concat(body_lines(lines, table, blob_names)),
        WATERMARK_ORIGIN@,
        WATERMARK_REVERSAL@,
    ]
}

/// The obfuscated script for the source `src`, written with the given
/// aliases, table and blob names.
pub open spec fn document(
    src: Seq<char>,
    echo: bool,
    keyword: Seq<char>,
    space: Seq<char>,
    equals: Seq<char>,
    table: Seq<Seq<char>>,
    blob_names: Seq<Seq<char>>,
) -> Seq<char> {
    join(
        document_lines(split(src, '\n'), echo, keyword, space, equals, table, blob_names),
        '\n',
    )
}

/// Decides whether `c` may stand in the name of a variable reference.
pub fn name_char(c: char) -> (b: bool)
    ensures
        b == is_name_char(c),
{
    (c >= 'a' && c <= 'z') || (c >= 'A' && c <= 'Z') || (c >= '0' && c <= '9') || (c >= '_' && c
        <= '~') || c == '!' || c == '@' || c == '#' || c == '$' || c == '^' || c == '&' || c == '/'
        || c == '.' || c == ',' || c == '<' || c == '>' || c == ';' || c == ':' || c == '\''
        || c == '"' || c == '='
}

/// Decides whether a line holds a variable reference.
pub fn holds_reference(line: &Vec<char>) -> (b: bool)
    ensures
        b == has_reference(line@),
{
    let mut open: Option<usize> = None;
    let mut j: usize = 0;
    while j < line.len()
        invariant
            j <= line.len(),
            forall|a: int, b: int| b < j ==> !is_reference_at(line@, a, b),
            match open {
                Some(i) => i < j && is_open_at(line@, i as int, j as int),
                None => forall|a: int| 0 <= a < j ==> !is_open_at(line@, a, j as int),
            },
        decreases line.len() - j,
    {
        let c = line[j];
        if c == '%' {
            match open {
                Some(i) => {
                    if j > i + 1 {
                        proof {
                            assert(is_reference_at(line@, i as int, j as int));
                        }
                        return true;
                    }
                    proof {
                        assert forall|a: int| !is_reference_at(line@, a, j as int) by {
                            if is_reference_at(line@, a, j as int) {
                                assert(a < i);
                                assert(is_name_char(line@[i as int]));
                            }
                        }
                    }
                },
                None => {},
            }
            proof {
                assert forall|a: int, b: int| b < j + 1 implies !is_reference_at(line@, a, b) by {
                    if b == j {
                        assert(!is_reference_at(line@, a, j as int));
                    }
                }
            }
            open = Some(j);
        } else if !name_char(c) {
            proof {
                let next: int = j + 1;
                assert forall|a: int| 0 <= a < next implies !is_open_at(line@, a, next) by {
                    if a < j && is_open_at(line@, a, next) {
                        assert(is_name_char(line@[j as int]));
                    }
                }
            }
            open = None;
        } else {
            proof {
                match open {
                    Some(i) => {},
                    None => {
                        let next: int = j + 1;
                        assert forall|a: int| 0 <= a < next implies !is_open_at(line@, a, next) by {
                            if a < j && is_open_at(line@, a, next) {
                                assert(is_open_at(line@, a, j as int));
                            }
                        }
                    },
                }
            }
        }
        j += 1;
    }
    false
}

/// Decides whether a line opens a label.
pub fn opens_label(line: &Vec<char>) -> (b: bool)
    ensures
        b == is_label(line@),
{
    line.len() >= 1 && line[0] == ':' && !(line.len() >= 2 && line[1] == ':')
}

/// Decides whether a line starts with the assignment keyword.
pub fn keyword_first(line: &Vec<char>) -> (b: bool)
    ensures
        b == opens_with_keyword(line@),
{
    line.len() >= 3 && (line[0] == 's' || line[0] == 'S') && (line[1] == 'e' || line[1] == 'E')
        && (line[2] == 't' || line[2] == 'T')
}

/// Decides whether a line holds an assignment.
pub fn holds_assignment(line: &Vec<char>) -> (b: bool)
    ensures
        b == has_assignment(line@),
{
    let key: Vec<char> = vec!['s', 'e', 't', ' '];
    if line.len() < 7 {
        return false;
    }
    let last: usize = line.len() - 7;
    let mut at: usize = 0;
    loop
        invariant
            at <= last,
            last == line.len() - 7,
            key@ == seq!['s', 'e', 't', ' '],
            forall|a: int| 0 <= a < at ==> !occurs_at(line@, key@, a),
        ensures
            occurs_at(line@, key@, at as int),
        decreases last - at,
    {
        if occurs_at_pos(line, &key, at) {
            break;
        }
        if at == last {
            return false;
        }
        at += 1;
    }
    let mut operator: usize = at + 5;
    while operator + 1 < line.len()
        invariant
            at + 5 <= operator,
            operator + 1 <= line.len(),
            key@ == seq!['s', 'e', 't', ' '],
            occurs_at(line@, key@, at as int),
            forall|a: int| 0 <= a < at ==> !occurs_at(line@, key@, a),
            forall|q: int| at + 5 <= q < operator ==> line@[q] != '=',
        decreases line.len() - operator,
    {
        if line[operator] == '=' {
            proof {
                assert(is_assignment_at(line@, at as int, operator as int));
            }
            return true;
        }
        operator += 1;
    }
    proof {
        assert forall|a: int, q: int| !is_assignment_at(line@, a, q) by {
            if is_assignment_at(line@, a, q) {
                assert(a >= at);
                assert(line@[q] != '=');
            }
        }
    }
    false
}

/// Decides whether a line is left as it is.
pub fn opaque_line(line: &Vec<char>) -> (b: bool)
    ensures
        b == is_opaque(line@),
{
    holds_reference(line) || opens_label(line) || (keyword_first(line) && holds_assignment(line))
}

/// Decides whether one of the lines is left as it is.
pub fn any_opaque_line(lines: &Vec<Vec<char>>) -> (b: bool)
    ensures
        b == has_opaque_line(views(lines@)),
{
    let mut i: usize = 0;
    while i < lines.len()
        invariant
            i <= lines.len(),
            forall|k: int| 0 <= k < i ==> !is_opaque(#[trigger] views(lines@)[k]),
        decreases lines.len() - i,
    {
        if opaque_line(&lines[i]) {
            proof {
                assert(is_opaque(views(lines@)[i as int]));
            }
            return true;
        }
        i += 1;
    }
    false
}

/// The blobs of a line, in their order.
pub fn find_blobs(line: &Vec<char>) -> (blobs: Vec<String>)
    ensures
        string_views(blobs@) == line_blobs(line@),
{
    let mut blobs: Vec<String> = Vec::new();
    if opaque_line(line) {
        proof {
            assert(string_views(blobs@) =~= Seq::<Seq<char>>::empty());
        }
        return blobs;
    }
    let mut i: usize = 0;
    proof {
        assert(string_views(blobs@) =~= Seq::<Seq<char>>::empty());
    }
    while i < line.len()
        invariant
            i <= line.len(),
            string_views(blobs@) + blobs_from(line@, i as int) == blobs_from(line@, 0),
        decreases line.len() - i,
    {
        if line[i] == '%' {
            let ghost before = string_views(blobs@);
            let mut blob = String::new();
            blob.push('%');
            if i + 1 < line.len() {
                blob.push(line[i + 1]);
                proof {
                    assert(blob@ =~= blob_at(line@, i as int));
                }
                blobs.push(blob);
                proof {
                    assert(string_views(blobs@) =~= before.push(blob_at(line@, i as int)));
                    assert(before.push(blob_at(line@, i as int)) + blobs_from(line@, i + 2)
                        =~= before + blobs_from(line@, i as int));
                }
                i += 2;
            } else {
                proof {
                    assert(blob@ =~= blob_at(line@, i as int));
                }
                blobs.push(blob);
                proof {
                    assert(string_views(blobs@) =~= before.push(blob_at(line@, i as int)));
                    assert(before.push(blob_at(line@, i as int)) + blobs_from(line@, i + 1)
                        =~= before + blobs_from(line@, i as int));
                }
                i += 1;
            }
        } else {
            i += 1;
        }
    }
    proof {
        assert(string_views(blobs@) + Seq::<Seq<char>>::empty() =~= string_views(blobs@));
    }
    blobs
}

/// The place of a character in the full set, or `None` where it is no
/// character of the set.
pub fn position_in_full_set(c: char) -> (r: Option<usize>)
    ensures
        match r {
            Some(i) => is_extended(c) && i == full_set_index(c) && i < 97,
            None => !is_extended(c),
        },
{
    let code: u32 = c as u32;
    if c >= 'a' && c <= 'z' {
        Some((code - 97) as usize)
    } else if c >= 'A' && c <= 'Z' {
        Some((26 + code - 65) as usize)
    } else if c >= '0' && c <= '9' {
        Some((52 + code - 48) as usize)
    } else if c >= '!' && c <= '/' {
        Some((62 + code - 33) as usize)
    } else if c >= ':' && c <= '@' {
        Some((77 + code - 58) as usize)
    } else if c >= '[' && c <= '`' {
        Some((84 + code - 91) as usize)
    } else if c >= '{' && c <= '~' {
        Some((90 + code - 123) as usize)
    } else if c == ' ' {
        Some(94)
    } else if c == '\n' {
        Some(95)
    } else if c == '\r' {
        Some(96)
    } else {
        None
    }
}

/// Decides whether an alphabet lists the characters of the full set in
/// the order of the set.
pub fn full_set_order(alphabet: &Vec<(char, String)>) -> (b: bool)
    ensures
        b == in_full_set_order(alphabet@),
{
    let full = CharSet::FullSet.values();
    if alphabet.len() != full.len() {
        return false;
    }
    let mut i: usize = 0;
    while i < full.len()
        invariant
            i <= full.len(),
            full@ == CharSet::FullSet.members(),
            alphabet@.len() == full@.len(),
            forall|k: int| 0 <= k < i ==> (#[trigger] alphabet@[k]).0 == full@[k],
        decreases full.len() - i,
    {
        if alphabet[i].0 != full[i] {
            return false;
        }
        i += 1;
    }
    true
}

/// Rewrites a line for the body of the obfuscated script, and counts
/// the names that are taken: the blobs of the line take the names
/// `names[first]` and following. Nothing is rewritten where the alphabet
/// does not list the characters of the full set in the order of the
/// set, or where the names do not suffice.
pub fn rewrite_line(line: &Vec<char>, alphabet: &Vec<(char, String)>, names: &Vec<String>, first: usize) -> (r:
    Option<(String, usize)>)
    ensures
        match r {
            Some(p) => {
                &&& in_full_set_order(alphabet@)
                &&& first + line_blobs(line@).len() <= names@.len()
                &&& p.0@ == line_rewrite(
                    line@,
                    table_of(alphabet@),
                    string_views(names@),
                    first as int,
                )
                &&& p.1 == first + line_blobs(line@).len()
            },
            None => !in_full_set_order(alphabet@) || first + line_blobs(line@).len()
                > names@.len(),
        },
{
    let wanted: usize = find_blobs(line).len();
    if !full_set_order(alphabet) || first > names.len() || wanted > names.len() - first {
        return None;
    }
    let (units, next) = rewrite_units(line, alphabet, names, first);
    let text = concat_strings(&units);
    proof {
        let table = table_of(alphabet@);
        let all = string_views(names@);
        if is_opaque(line@) {
            lemma_concat_one(line@);
        } else {
            lemma_units_text(line@, 0, table, all, first as int);
        }
    }
    Some((text, next))
}

/// Rewrites a line for the body of the obfuscated script, unit by unit.
/// The blobs of the line take the names `names[first]` and following.
fn rewrite_units(line: &Vec<char>, alphabet: &Vec<(char, String)>, names: &Vec<String>, first: usize) -> (r:
    (Vec<String>, usize))
    requires
        in_full_set_order(alphabet@),
        first + line_blobs(line@).len() <= names@.len(),
    ensures
        string_views(r.0@) == line_units(
            line@,
            table_of(alphabet@),
            string_views(names@),
            first as int,
        ),
        r.1 == first + line_blobs(line@).len(),
{
    let ghost table = table_of(alphabet@);
    let ghost all = string_views(names@);
    let mut out: Vec<String> = Vec::new();
    if opaque_line(line) {
        out.push(string_of(line));
        proof {
            assert(string_views(out@) =~= seq![line@]);
        }
        return (out, first);
    }
    let count: usize = names.len();
    let mut i: usize = 0;
    let mut j: usize = first;
    proof {
        assert(string_views(out@) + units_from(line@, 0, table, all, first as int)
            =~= units_from(line@, 0, table, all, first as int));
    }
    while i < line.len()
        invariant
            i <= line.len(),
            count == names@.len(),
            alphabet@.len() == 97,
            table == table_of(alphabet@),
            all == string_views(names@),
            j + blobs_from(line@, i as int).len() == first + blobs_from(line@, 0).len(),
            first + blobs_from(line@, 0).len() <= names@.len(),
            string_views(out@) + units_from(line@, i as int, table, all, j as int) == units_from(
                line@,
                0,
                table,
                all,
                first as int,
            ),
        decreases line.len() - i,
    {
        let ghost before = string_views(out@);
        let c = line[i];
        let mut piece = String::new();
        if c == '%' {
            let ghost step = blob_at(line@, i as int).len() as int;
            proof {
                assert(blobs_from(line@, i as int) == seq![blob_at(line@, i as int)] + blobs_from(
                    line@,
                    i + step,
                ));
                assert(blobs_from(line@, i as int).len() == 1 + blobs_from(line@, i + step).len());
            }
            push_reference(&mut piece, names[j].as_str());
            proof {
                assert(all[j as int] == names@[j as int]@);
                assert(piece@ =~= reference(all[j as int]));
            }
            out.push(piece);
            proof {
                assert(string_views(out@) =~= before.push(reference(all[j as int])));
                assert(before.push(reference(all[j as int])) + units_from(
                    line@,
                    i + step,
                    table,
                    all,
                    j + 1,
                ) =~= before + units_from(line@, i as int, table, all, j as int));
            }
            if i + 1 < line.len() {
                i += 2;
            } else {
                i += 1;
            }
            j += 1;
        } else {
            match position_in_full_set(c) {
                Some(at) => {
                    if bad_char(c) {
                        piece.push(c);
                    } else {
                        push_reference(&mut piece, alphabet[at].1.as_str());
                        proof {
                            assert(table[at as int] == alphabet@[at as int].1@);
                        }
                    }
                },
                None => {
                    piece.push(c);
                },
            }
            proof {
                assert(piece@ =~= unit(c, table));
            }
            out.push(piece);
            proof {
                assert(string_views(out@) =~= before.push(unit(c, table)));
                assert(before.push(unit(c, table)) + units_from(
                    line@,
                    i + 1,
                    table,
                    all,
                    j as int,
                ) =~= before + units_from(line@, i as int, table, all, j as int));
            }
            i += 1;
        }
    }
    proof {
        assert(string_views(out@) + Seq::<Seq<char>>::empty() =~= string_views(out@));
    }
    (out, j)
}

/// How many of the first `n` characters of the full set are bad characters.
pub open spec fn bad_before(n: int) -> int {
    (if n > 66 { 1int } else { 0 }) + (if n > 67 { 1int } else { 0 }) + (if n > 79 { 1int } else { 0 })
        + (if n > 81 { 1int } else { 0 }) + (if n > 87 { 1int } else { 0 }) + (if n > 91 { 1int } else { 0 })
        + (if n > 95 { 1int } else { 0 }) + (if n > 96 { 1int } else { 0 })
}

/// A table holds one name for each of its characters that is no bad
/// character: 89 names where it is complete.
pub proof fn lemma_issued_len(table: Seq<Seq<char>>)
    requires
        table.len() <= 97,
    ensures
        issued(table).len() == table.len() - bad_before(table.len() as int),
        table.len() == 97 ==> issued(table).len() == 89,
    decreases table.len(),
{
    if table.len() > 0 {
        lemma_issued_len(table.drop_last());
        lemma_full_set();
        let i = table.len() - 1;
        let c = CharSet::FullSet.members()[i];
        assert(full_set_index(c) == i);
        assert(CharSet::FullSet.members()[full_set_index('%')] == '%');
        assert(CharSet::FullSet.members()[full_set_index('&')] == '&');
        assert(CharSet::FullSet.members()[full_set_index('<')] == '<');
        assert(CharSet::FullSet.members()[full_set_index('>')] == '>');
        assert(CharSet::FullSet.members()[full_set_index('^')] == '^');
        assert(CharSet::FullSet.members()[full_set_index('|')] == '|');
        assert(CharSet::FullSet.members()[full_set_index('\n')] == '\n');
        assert(CharSet::FullSet.members()[full_set_index('\r')] == '\r');
    }
}

/// Where the name of a character that is no bad character stands among
/// the names issued for a table: behind the names of the characters
/// before it.
pub proof fn lemma_issued_at(table: Seq<Seq<char>>, m: int)
    requires
        table.len() <= 97,
        0 <= m < table.len(),
        !is_bad_char(CharSet::FullSet.members()[m]),
    ensures
        0 <= m - bad_before(m) < issued(table).len(),
        issued(table)[m - bad_before(m)] == table[m],
    decreases table.len(),
{
    let head = table.drop_last();
    lemma_issued_len(head);
    lemma_issued_len(table);
    if m < table.len() - 1 {
        lemma_issued_at(head, m);
        assert(head[m] == table[m]);
        assert(issued(table)[m - bad_before(m)] == issued(head)[m - bad_before(m)]);
    }
}

/// No name is issued twice: the three aliases, the names of the
/// substitutable characters and the names of the blobs are different
/// names, each from each.
pub proof fn lemma_names_distinct(o: BatchObfuscator, src: Seq<char>, min: int, max: int)
    requires
        o.holds(src, min, max),
    ensures
        o.set_str@ != o.space_str@,
        o.set_str@ != o.eq_str@,
        o.space_str@ != o.eq_str@,
        forall|c: char|
            is_substitutable(c) ==> {
                let name = #[trigger] o.table()[full_set_index(c)];
                name != o.set_str@ && name != o.space_str@ && name != o.eq_str@
            },
        forall|c: char, d: char|
            is_substitutable(c) && is_substitutable(d) && c != d ==> #[trigger] o.table()[full_set_index(
                c,
            )] != #[trigger] o.table()[full_set_index(d)],
        forall|j: int|
            0 <= j < o.blob_names().len() ==> {
                let name = #[trigger] o.blob_names()[j];
                name != o.set_str@ && name != o.space_str@ && name != o.eq_str@
            },
        forall|j: int, c: char|
            0 <= j < o.blob_names().len() && is_substitutable(c) ==> #[trigger] o.blob_names()[j]
                != #[trigger] o.table()[full_set_index(c)],
        forall|i: int, j: int|
            0 <= i < j < o.blob_names().len() ==> #[trigger] o.blob_names()[i]
                != #[trigger] o.blob_names()[j],
{
    let names = o.names();
    let table = o.table();
    let blobs = o.blob_names();
    let n = issued(table).len() as int;
    lemma_full_set();
    lemma_issued_len(table);
    assert(names[0] == o.set_str@ && names[1] == o.space_str@ && names[2] == o.eq_str@);
    assert(CharSet::FullSet.members()[full_set_index('%')] == '%');
    assert(CharSet::FullSet.members()[full_set_index('&')] == '&');
    assert(CharSet::FullSet.members()[full_set_index('<')] == '<');
    assert(CharSet::FullSet.members()[full_set_index('>')] == '>');
    assert(CharSet::FullSet.members()[full_set_index('^')] == '^');
    assert(CharSet::FullSet.members()[full_set_index('|')] == '|');
    assert(CharSet::FullSet.members()[full_set_index('\n')] == '\n');
    assert(CharSet::FullSet.members()[full_set_index('\r')] == '\r');
    assert forall|c: char| is_substitutable(c) implies {
        let m = full_set_index(c);
        &&& 0 <= m - bad_before(m) < n
        &&& #[trigger] table[full_set_index(c)] == names[3 + m - bad_before(m)]
    } by {
        let m = full_set_index(c);
        assert(CharSet::FullSet.members()[m] == c);
        lemma_issued_at(table, m);
        assert(names[3 + (m - bad_before(m))] == issued(table)[m - bad_before(m)]);
    }
    assert forall|j: int| 0 <= j < blobs.len() implies #[trigger] blobs[j] == names[3 + n + j] by {}
    assert forall|c: char, d: char|
        is_substitutable(c) && is_substitutable(d) && c != d implies #[trigger] table[full_set_index(
        c,
    )] != #[trigger] table[full_set_index(d)] by {
        let a = full_set_index(c);
        let b = full_set_index(d);
        assert(CharSet::FullSet.members()[a] == c);
        assert(CharSet::FullSet.members()[b] == d);
        assert(a != b);
        assert(!is_bad_char(CharSet::FullSet.members()[a]));
        assert(!is_bad_char(CharSet::FullSet.members()[b]));
        let x = 3 + a - bad_before(a);
        let y = 3 + b - bad_before(b);
        assert(x != y);
        if x < y {
            assert(names[x] != names[y]);
        } else {
            assert(names[y] != names[x]);
        }
    }
    assert forall|c: char| is_substitutable(c) implies {
        let name = #[trigger] table[full_set_index(c)];
        name != o.set_str@ && name != o.space_str@ && name != o.eq_str@
    } by {
        let m = full_set_index(c);
        let x = 3 + m - bad_before(m);
        assert(names[0] != names[x] && names[1] != names[x] && names[2] != names[x]);
    }
    assert forall|j: int| 0 <= j < blobs.len() implies {
        let name = #[trigger] blobs[j];
        name != o.set_str@ && name != o.space_str@ && name != o.eq_str@
    } by {
        let x = 3 + n + j;
        assert(names[0] != names[x] && names[1] != names[x] && names[2] != names[x]);
    }
    assert forall|j: int, c: char|
        0 <= j < blobs.len() && is_substitutable(c) implies #[trigger] blobs[j]
        != #[trigger] table[full_set_index(c)] by {
        let m = full_set_index(c);
        let x = 3 + m - bad_before(m);
        let y = 3 + n + j;
        assert(names[x] != names[y]);
    }
    assert forall|i: int, j: int| 0 <= i < j < blobs.len() implies #[trigger] blobs[i]
        != #[trigger] blobs[j] by {
        assert(names[3 + n + i] != names[3 + n + j]);
    }
}

/// In a complete alphabet every character of the full set has its entry,
/// and no second one; a bad character stands for itself, and every
/// other character has a name.
pub proof fn lemma_alphabet_total(alphabet: Seq<(char, String)>, min: int, max: int, c: char)
    requires
        is_alphabet(alphabet, min, max),
        is_extended(c),
    ensures
        0 <= full_set_index(c) < alphabet.len(),
        alphabet[full_set_index(c)].0 == c,
        forall|i: int| 0 <= i < alphabet.len() && alphabet[i].0 == c ==> i == full_set_index(c),
        forall|i: int| 0 <= i < alphabet.len() ==> is_extended(#[trigger] alphabet[i].0),
        is_bad_char(c) ==> alphabet[full_set_index(c)].1@ == seq![c],
        !is_bad_char(c) ==> is_token(alphabet[full_set_index(c)].1@, min, max),
{
    lemma_full_set();
    assert forall|i: int| 0 <= i < alphabet.len() && alphabet[i].0 == c implies i
        == full_set_index(c) by {
        assert(alphabet[i].0 == CharSet::FullSet.members()[i]);
    }
    assert forall|i: int| 0 <= i < alphabet.len() implies is_extended(#[trigger] alphabet[i].0) by {
        assert(alphabet[i].0 == CharSet::FullSet.members()[i]);
    }
}

/// The delimiter is kept out of the names: a variable name holds
/// letters only, and in a complete alphabet the delimiter stands for
/// itself, so that no definition statement of the alphabet gives it as a
/// value.
pub proof fn lemma_delimiter_safe(alphabet: Seq<(char, String)>, min: int, max: int)
    requires
        is_alphabet(alphabet, min, max),
    ensures
        forall|s: Seq<char>| #[trigger] is_token(s, min, max) ==> !s.contains('%'),
        alphabet[full_set_index('%')].0 == '%',
        alphabet[full_set_index('%')].1@ == seq!['%'],
        forall|i: int|
            0 <= i < alphabet.len() && !is_bad_char((#[trigger] alphabet[i]).0) ==> alphabet[i].0
                != '%' && !alphabet[i].1@.contains('%'),
{
    lemma_full_set();
    assert forall|s: Seq<char>| #[trigger] is_token(s, min, max) implies !s.contains('%') by {
        if s.contains('%') {
            let i = choose|i: int| 0 <= i < s.len() && s[i] == '%';
            assert(crate::batch::is_letter(s[i]));
        }
    }
    assert(is_extended('%'));
    assert(alphabet[full_set_index('%')].0 == CharSet::FullSet.members()[full_set_index('%')]);
    assert forall|i: int|
        0 <= i < alphabet.len() && !is_bad_char((#[trigger] alphabet[i]).0) implies alphabet[i].0
        != '%' && !alphabet[i].1@.contains('%') by {
        assert(alphabet[i].0 == CharSet::FullSet.members()[i]);
        assert(is_token(alphabet[i].1@, min, max));
    }
}

/// Each definition statement of a table gives a name of the table the
/// character it stands for, and that character is no bad character: no
/// statement gives the delimiter as a value.
pub proof fn lemma_alphabet_lines_values(
    keyword: Seq<char>,
    space: Seq<char>,
    equals: Seq<char>,
    table: Seq<Seq<char>>,
    i: int,
)
    requires
        0 <= i < alphabet_lines(keyword, space, equals, table).len(),
    ensures
        exists|m: int|
            0 <= m < table.len() && !is_bad_char(CharSet::FullSet.members()[m])
                && CharSet::FullSet.members()[m] != '%' && alphabet_lines(
                keyword,
                space,
                equals,
                table,
            )[i] == definition_line(
                keyword,
                space,
                #[trigger] table[m],
                equals,
                seq![CharSet::FullSet.members()[m]],
            ),
    decreases table.len(),
{
    let head = table.drop_last();
    let before = alphabet_lines(keyword, space, equals, head);
    if i < before.len() {
        lemma_alphabet_lines_values(keyword, space, equals, head, i);
        let m = choose|m: int|
            0 <= m < head.len() && !is_bad_char(CharSet::FullSet.members()[m])
                && CharSet::FullSet.members()[m] != '%' && before[i] == definition_line(
                keyword,
                space,
                #[trigger] head[m],
                equals,
                seq![CharSet::FullSet.members()[m]],
            );
        assert(table[m] == head[m]);
        assert(alphabet_lines(keyword, space, equals, table)[i] == before[i]);
    } else {
        let m = table.len() - 1;
        assert(alphabet_lines(keyword, space, equals, table)[i] == definition_line(
            keyword,
            space,
            table[m],
            equals,
            seq![CharSet::FullSet.members()[m]],
        ));
    }
}

/// The blobs of the first lines are among the blobs of all lines.
pub proof fn lemma_source_blobs_prefix(lines: Seq<Seq<char>>, n: int)
    requires
        0 <= n <= lines.len(),
    ensures
        source_blobs(lines.take(n)).len() <= source_blobs(lines).len(),
    decreases lines.len(),
{
    if n == lines.len() {
        assert(lines.take(n) == lines);
    } else {
        assert(lines.take(n) == lines.drop_last().take(n));
        lemma_source_blobs_prefix(lines.drop_last(), n);
    }
}

/// An obfuscator of batch scripts. `initialize` draws the variable names
/// and writes the obfuscated script into `obfuscated_code`.
#[derive(Debug)]
pub struct BatchObfuscator {
    /// The alias of the assignment keyword.
    pub set_str: String,
    /// The alias of the space.
    pub space_str: String,
    /// The alias of the assignment operator.
    pub eq_str: String,
    /// Every variable name issued so far, in the order of issue.
    pub used_variable_strings: Vec<String>,
    /// For each character of the full set, in the order of the set, what
    /// stands for it: its variable name, or the character itself.
    pub alphabet: Vec<(char, String)>,
    /// The lines of the obfuscated script.
    pub prep_commands: Vec<String>,
    /// The body, unit by unit: for each line of the source its
    /// references and copied characters (the line itself where it is
    /// left as it is), and a line feed as the unit that closes the line.
    pub exec_commands: Vec<String>,
    /// The obfuscated script.
    pub obfuscated_code: String,
    /// The script is to open with the line that turns the echo off.
    pub echo_mode: bool,
    /// Lines that are left as they are need the caller's consent.
    pub warn_mode: bool,
    /// `obfuscated_code` holds a script.
    pub initialized: bool,
}

impl BatchObfuscator {
    /// The names issued so far.
    pub open spec fn names(&self) -> Seq<Seq<char>> {
        string_views(self.used_variable_strings@)
    }

    /// What stands for each character of the full set.
    pub open spec fn table(&self) -> Seq<Seq<char>> {
        table_of(self.alphabet@)
    }

    /// The names of the blobs: those issued after the three aliases and
    /// the names of the table.
    pub open spec fn blob_names(&self) -> Seq<Seq<char>> {
        self.names().skip(3 + issued(self.table()).len() as int)
    }

    /// The state after the source `src` has been obfuscated with names
    /// of a length from `min` to `max`: the names issued are the three
    /// aliases, the names of the table and the names of the blobs, in
    /// this order and without a repetition, and the script is the one
    /// that `document` describes for them.
    pub open spec fn holds(&self, src: Seq<char>, min: int, max: int) -> bool {
        let lines = split(src, '\n');
        let keyword = self.set_str@;
        let space = self.space_str@;
        let equals = self.eq_str@;
        let blob_names = self.blob_names();
        &&& is_token(keyword, min, max)
        &&& is_token(space, min, max)
        &&& is_token(equals, min, max)
        &&& is_alphabet(self.alphabet@, min, max)
        &&& self.names() == seq![keyword, space, equals] + issued(self.table()) + blob_names
        &&& blob_names.len() == source_blobs(lines).len()
        &&& forall|j: int|
            0 <= j < blob_names.len() ==> is_token(
                #[trigger] blob_names[j],
                DEFAULT_MIN_LENGTH as int,
                DEFAULT_MAX_LENGTH as int,
            )
        &&& pairwise_distinct(self.names())
        &&& string_views(self.prep_commands@) == document_lines(
            lines,
            self.echo_mode,
            keyword,
            space,
            equals,
            self.table(),
            blob_names,
        )
        &&& string_views(self.exec_commands@) == body_units(lines, self.table(), blob_names)
        &&& self.obfuscated_code@ == document(
            src,
            self.echo_mode,
            keyword,
            space,
            equals,
            self.table(),
            blob_names,
        )
    }

    /// An obfuscator that has issued no name and holds no script. It
    /// writes no echo line, and it asks for consent.
    pub fn new() -> (r: Self)
        ensures
            r.set_str@.len() == 0,
            r.space_str@.len() == 0,
            r.eq_str@.len() == 0,
            r.used_variable_strings@.len() == 0,
            r.alphabet@.len() == 0,
            r.prep_commands@.len() == 0,
            r.exec_commands@.len() == 0,
            r.obfuscated_code@.len() == 0,
            !r.echo_mode,
            r.warn_mode,
            !r.initialized,
    {
        BatchObfuscator {
            set_str: String::new(),
            space_str: String::new(),
            eq_str: String::new(),
            used_variable_strings: Vec::new(),
            alphabet: Vec::new(),
            prep_commands: Vec::new(),
            exec_commands: Vec::new(),
            obfuscated_code: String::new(),
            echo_mode: false,
            warn_mode: true,
            initialized: false,
        }
    }

    /// Makes the script open with the line that keeps the interpreter
    /// from echoing its commands.
    pub fn dont_echo(&mut self)
        ensures
            final(self).echo_mode,
            final(self).warn_mode == old(self).warn_mode,
            final(self).initialized == old(self).initialized,
            final(self).set_str == old(self).set_str,
            final(self).space_str == old(self).space_str,
            final(self).eq_str == old(self).eq_str,
            final(self).used_variable_strings == old(self).used_variable_strings,
            final(self).alphabet == old(self).alphabet,
            final(self).prep_commands == old(self).prep_commands,
            final(self).exec_commands == old(self).exec_commands,
            final(self).obfuscated_code == old(self).obfuscated_code,
    {
        self.echo_mode = true;
    }

    /// Gives consent to leave lines as they are that define or use
    /// variables or labels of their own.
    pub fn dont_warn(&mut self)
        ensures
            !final(self).warn_mode,
            final(self).echo_mode == old(self).echo_mode,
            final(self).initialized == old(self).initialized,
            final(self).set_str == old(self).set_str,
            final(self).space_str == old(self).space_str,
            final(self).eq_str == old(self).eq_str,
            final(self).used_variable_strings == old(self).used_variable_strings,
            final(self).alphabet == old(self).alphabet,
            final(self).prep_commands == old(self).prep_commands,
            final(self).exec_commands == old(self).exec_commands,
            final(self).obfuscated_code == old(self).obfuscated_code,
    {
        self.warn_mode = false;
    }

    /// The definition statement that gives the variable `name` the value
    /// `value`, written with the aliases of `prelude`.
    pub fn define_batch_variable(name: String, value: String, prelude: &BatchObfuscator) -> (r:
        String)
        ensures
            r@ == definition_line(
                prelude.set_str@,
                prelude.space_str@,
                name@,
                prelude.eq_str@,
                value@,
            ),
    {
        definition_statement(
            prelude.set_str.as_str(),
            prelude.space_str.as_str(),
            name.as_str(),
            prelude.eq_str.as_str(),
            value.as_str(),
        )
    }

    /// Builds the alphabet: each character of the full set, in the order
    /// of the set, gets its entry; each substitutable one gets a fresh
    /// name and its definition statement.
    fn build_alphabet(&mut self, min: Option<u32>, max: Option<u32>) -> (r: Result<(), BatchError>)
        requires
            1 <= min_length(min) <= max_length(max),
            old(self).alphabet@.len() == 0,
            pairwise_distinct(old(self).names()),
        ensures
            final(self).set_str == old(self).set_str,
            final(self).space_str == old(self).space_str,
            final(self).eq_str == old(self).eq_str,
            final(self).exec_commands == old(self).exec_commands,
            final(self).obfuscated_code == old(self).obfuscated_code,
            final(self).echo_mode == old(self).echo_mode,
            final(self).warn_mode == old(self).warn_mode,
            final(self).initialized == old(self).initialized,
            match r {
                Ok(()) => {
                    &&& is_alphabet(final(self).alphabet@, min_length(min), max_length(max))
                    &&& final(self).names() == old(self).names() + issued(final(self).table())
                    &&& pairwise_distinct(final(self).names())
                    &&& string_views(final(self).prep_commands@) == string_views(
                        old(self).prep_commands@,
                    ) + alphabet_lines(
                        old(self).set_str@,
                        old(self).space_str@,
                        old(self).eq_str@,
                        final(self).table(),
                    )
                },
                Err(e) => {
                    &&& e == BatchError::TokenSpaceExhausted
                    &&& is_exhausted(final(self).names(), min_length(min), max_length(max))
                    &&& final(self).names().len() <= old(self).names().len() + 97
                },
            },
    {
        let full = CharSet::FullSet.values();
        let ghost keyword = self.set_str@;
        let ghost space = self.space_str@;
        let ghost equals = self.eq_str@;
        let ghost names0 = self.names();
        let ghost prep0 = string_views(self.prep_commands@);
        let mut i: usize = 0;
        proof {
            assert(self.table() =~= Seq::<Seq<char>>::empty());
            assert(names0 + issued(self.table()) =~= names0);
            assert(prep0 + alphabet_lines(keyword, space, equals, self.table()) =~= prep0);
        }
        while i < full.len()
            invariant
                i <= full.len(),
                full@ == CharSet::FullSet.members(),
                full@.len() == 97,
                1 <= min_length(min) <= max_length(max),
                self.set_str == old(self).set_str,
                self.space_str == old(self).space_str,
                self.eq_str == old(self).eq_str,
                self.exec_commands == old(self).exec_commands,
                self.obfuscated_code == old(self).obfuscated_code,
                self.echo_mode == old(self).echo_mode,
                self.warn_mode == old(self).warn_mode,
                self.initialized == old(self).initialized,
                keyword == self.set_str@,
                space == self.space_str@,
                equals == self.eq_str@,
                self.alphabet@.len() == i,
                forall|m: int|
                    0 <= m < i ==> {
                        let c = CharSet::FullSet.members()[m];
                        &&& (#[trigger] self.alphabet@[m]).0 == c
                        &&& is_bad_char(c) ==> self.alphabet@[m].1@ == seq![c]
                        &&& !is_bad_char(c) ==> is_token(
                            self.alphabet@[m].1@,
                            min_length(min),
                            max_length(max),
                        )
                    },
                names0 == old(self).names(),
                self.names() == names0 + issued(self.table()),
                issued(self.table()).len() <= i,
                pairwise_distinct(self.names()),
                string_views(self.prep_commands@) == prep0 + alphabet_lines(
                    keyword,
                    space,
                    equals,
                    self.table(),
                ),
            decreases full.len() - i,
        {
            let c = full[i];
            let ghost table = self.table();
            let ghost names = self.names();
            let ghost prep = string_views(self.prep_commands@);
            let mut value = String::new();
            value.push(c);
            proof {
                assert(value@ =~= seq![c]);
            }
            if bad_char(c) {
                self.alphabet.push((c, value));
                proof {
                    assert(self.table() =~= table.push(seq![c]));
                    assert(self.table().drop_last() =~= table);
                }
            } else {
                let name = match generate_random_chars(min, max, &mut self.used_variable_strings) {
                    Ok(name) => name,
                    Err(e) => {
                        proof {
                            assert(self.names() == names);
                            assert(names.len() == names0.len() + issued(table).len());
                        }
                        return Err(e);
                    },
                };
                let line = definition_statement(
                    self.set_str.as_str(),
                    self.space_str.as_str(),
                    name.as_str(),
                    self.eq_str.as_str(),
                    value.as_str(),
                );
                self.prep_commands.push(line);
                let ghost fresh = name@;
                self.alphabet.push((c, name));
                proof {
                    assert(self.table() =~= table.push(fresh));
                    assert(self.table().drop_last() =~= table);
                    assert(self.names() =~= names0 + issued(self.table()));
                    assert(string_views(self.prep_commands@) =~= prep.push(
                        definition_line(keyword, space, fresh, equals, seq![c]),
                    ));
                    assert(string_views(self.prep_commands@) =~= prep0 + alphabet_lines(
                        keyword,
                        space,
                        equals,
                        self.table(),
                    ));
                }
            }
            i += 1;
        }
        Ok(())
    }

    /// Obfuscates the source with the alphabet built before: each blob
    /// gets a fresh name of the default lengths and its definition
    /// statement, each line is rewritten, and the script is put together.
    /// The names of the default lengths do not run out.
    fn obfuscate(&mut self, src: String)
        requires
            in_full_set_order(old(self).alphabet@),
            old(self).exec_commands@.len() == 0,
            pairwise_distinct(old(self).names()),
        ensures
            final(self).set_str == old(self).set_str,
            final(self).space_str == old(self).space_str,
            final(self).eq_str == old(self).eq_str,
            final(self).alphabet == old(self).alphabet,
            final(self).echo_mode == old(self).echo_mode,
            final(self).warn_mode == old(self).warn_mode,
            final(self).initialized == old(self).initialized,
            ({
                let lines = split(src@, '\n');
                let fresh = final(self).names().skip(old(self).names().len() as int);
                let body = body_lines(lines, old(self).table(), fresh);
                &&& final(self).names() == old(self).names() + fresh
                &&& fresh.len() == source_blobs(lines).len()
                &&& forall|j: int|
                    0 <= j < fresh.len() ==> is_token(
                        #[trigger] fresh[j],
                        DEFAULT_MIN_LENGTH as int,
                        DEFAULT_MAX_LENGTH as int,
                    )
                &&& pairwise_distinct(final(self).names())
                &&& string_views(final(self).exec_commands@) == body_units(
                    lines,
                    old(self).table(),
                    fresh,
                )
                &&& string_views(final(self).prep_commands@) == string_views(
                    old(self).prep_commands@,
                ) + blob_lines(
                    old(self).set_str@,
                    old(self).space_str@,
                    old(self).eq_str@,
                    fresh,
                    source_blobs(lines),
                ) + seq![concat(body), WATERMARK_ORIGIN@, WATERMARK_REVERSAL@]
                &&& final(self).obfuscated_code@ == join(
                    string_views(final(self).prep_commands@),
                    '\n',
                )
            }),
    {
        let chars = chars_of(src.as_str());
        let lines = split_chars(&chars, '\n');
        let ghost all = views(lines@);
        let ghost keyword = self.set_str@;
        let ghost space = self.space_str@;
        let ghost equals = self.eq_str@;
        let ghost table = self.table();
        let ghost names0 = self.names();
        let ghost prep0 = string_views(self.prep_commands@);

        // The blobs of the source.
        let mut blobs: Vec<String> = Vec::new();
        let mut i: usize = 0;
        proof {
            assert(string_views(blobs@) =~= source_blobs(all.take(0)));
        }
        while i < lines.len()
            invariant
                i <= lines.len(),
                all == views(lines@),
                string_views(blobs@) == source_blobs(all.take(i as int)),
            decreases lines.len() - i,
        {
            let ghost before = string_views(blobs@);
            let mut found = find_blobs(&lines[i]);
            let ghost added = string_views(found@);
            blobs.append(&mut found);
            proof {
                assert(all.take(i + 1).drop_last() == all.take(i as int));
                assert(string_views(blobs@) =~= before + added);
            }
            i += 1;
        }
        proof {
            assert(all.take(lines.len() as int) == all);
        }
        let ghost wanted = string_views(blobs@);

        // A name and a definition statement for each of them.
        let mut blob_names: Vec<String> = Vec::new();
        let mut j: usize = 0;
        proof {
            assert(names0 + string_views(blob_names@) =~= names0);
            assert(prep0 + blob_lines(
                keyword,
                space,
                equals,
                string_views(blob_names@),
                wanted.take(0),
            ) =~= prep0);
        }
        while j < blobs.len()
            invariant
                j <= blobs.len(),
                wanted == string_views(blobs@),
                self.set_str == old(self).set_str,
                self.space_str == old(self).space_str,
                self.eq_str == old(self).eq_str,
                self.alphabet == old(self).alphabet,
                self.exec_commands == old(self).exec_commands,
                self.obfuscated_code == old(self).obfuscated_code,
                self.echo_mode == old(self).echo_mode,
                self.warn_mode == old(self).warn_mode,
                self.initialized == old(self).initialized,
                keyword == self.set_str@,
                space == self.space_str@,
                equals == self.eq_str@,
                blob_names@.len() == j,
                self.names() == names0 + string_views(blob_names@),
                pairwise_distinct(self.names()),
                forall|m: int|
                    0 <= m < j ==> is_token(
                        #[trigger] string_views(blob_names@)[m],
                        DEFAULT_MIN_LENGTH as int,
                        DEFAULT_MAX_LENGTH as int,
                    ),
                string_views(self.prep_commands@) == prep0 + blob_lines(
                    keyword,
                    space,
                    equals,
                    string_views(blob_names@),
                    wanted.take(j as int),
                ),
            decreases blobs.len() - j,
        {
            let ghost issued_names = string_views(blob_names@);
            let ghost prep = string_views(self.prep_commands@);
            let held: usize = self.used_variable_strings.len();
            let name = match generate_random_chars(None, None, &mut self.used_variable_strings) {
                Ok(name) => name,
                Err(_) => {
                    proof {
                        // More names of twelve letters exist than a vector can hold.
                        let used = self.names();
                        assert(used.len() == held);
                        lemma_power_bounds(12);
                        lemma_names_suffice(used, 12);
                        lemma_exhausted_within(
                            used,
                            DEFAULT_MIN_LENGTH as int,
                            DEFAULT_MAX_LENGTH as int,
                            12,
                        );
                    }
                    unreached()
                },
            };
            let line = definition_statement(
                self.set_str.as_str(),
                self.space_str.as_str(),
                name.as_str(),
                self.eq_str.as_str(),
                blobs[j].as_str(),
            );
            self.prep_commands.push(line);
            let ghost fresh = name@;
            blob_names.push(name);
            proof {
                assert(string_views(blob_names@) =~= issued_names.push(fresh));
                assert(self.names() =~= names0 + string_views(blob_names@));
                assert(string_views(self.prep_commands@) =~= prep.push(
                    definition_line(keyword, space, fresh, equals, wanted[j as int]),
                ));
                assert(string_views(self.prep_commands@) =~= prep0 + blob_lines(
                    keyword,
                    space,
                    equals,
                    string_views(blob_names@),
                    wanted.take(j + 1),
                ));
            }
            j += 1;
        }
        let ghost fresh = string_views(blob_names@);
        proof {
            assert(wanted.take(blobs.len() as int) == wanted);
            assert(self.names().skip(names0.len() as int) =~= fresh);
        }

        // The body.
        let mut done: usize = 0;
        i = 0;
        proof {
            assert(string_views(self.exec_commands@) =~= body_units(all.take(0), table, fresh));
        }
        while i < lines.len()
            invariant
                i <= lines.len(),
                all == views(lines@),
                fresh == string_views(blob_names@),
                fresh.len() == source_blobs(all).len(),
                table == self.table(),
                in_full_set_order(self.alphabet@),
                self.set_str == old(self).set_str,
                self.space_str == old(self).space_str,
                self.eq_str == old(self).eq_str,
                self.alphabet == old(self).alphabet,
                self.echo_mode == old(self).echo_mode,
                self.warn_mode == old(self).warn_mode,
                self.initialized == old(self).initialized,
                self.names() == names0 + fresh,
                pairwise_distinct(self.names()),
                string_views(self.prep_commands@) == prep0 + blob_lines(
                    keyword,
                    space,
                    equals,
                    fresh,
                    source_blobs(all),
                ),
                done == source_blobs(all.take(i as int)).len(),
                string_views(self.exec_commands@) == body_units(all.take(i as int), table, fresh),
            decreases lines.len() - i,
        {
            let ghost body = string_views(self.exec_commands@);
            proof {
                assert(all.take(i + 1).drop_last() == all.take(i as int));
                lemma_source_blobs_prefix(all, i + 1);
            }
            let (mut units, next) = rewrite_units(&lines[i], &self.alphabet, &blob_names, done);
            let ghost added = string_views(units@);
            self.exec_commands.append(&mut units);
            let mut feed = String::new();
            feed.push('\n');
            self.exec_commands.push(feed);
            proof {
                assert(feed@ =~= seq!['\n']);
                assert(string_views(self.exec_commands@) =~= body + added.push(seq!['\n']));
            }
            done = next;
            i += 1;
        }
        proof {
            assert(all.take(lines.len() as int) == all);
            lemma_body_units_text(all, table, fresh);
        }

        // The script.
        let ghost prep = string_views(self.prep_commands@);
        let body_text = concat_strings(&self.exec_commands);
        self.prep_commands.push(body_text);
        self.prep_commands.push(String::from_str(WATERMARK_ORIGIN));
        self.prep_commands.push(String::from_str(WATERMARK_REVERSAL));
        proof {
            assert(string_views(self.prep_commands@) =~= prep + seq![
                concat(body_lines(all, table, fresh)),
                WATERMARK_ORIGIN@,
                WATERMARK_REVERSAL@,
            ]);
        }
        self.obfuscated_code = join_strings(&self.prep_commands, '\n');
    }

    /// Obfuscates the source `src` with fresh variable names of a length
    /// from `min` to `max` (7 and 109 where `None`), and keeps the result.
    /// Nothing of what the obfuscator held before enters the result but
    /// its two modes.
    ///
    /// Where the source holds a line that is left as it is, and consent
    /// has not been given with `dont_warn`, nothing is done and the error
    /// is `AmbiguousUserSyntax`. Else, where no name may have more than one
    /// letter, nothing is done either and the error is
    /// `TokenSpaceExhausted`: there are 52 such names, and 92 are needed.
    /// In every other case the source is obfuscated.
    pub fn initialize(&mut self, min: Option<u32>, max: Option<u32>, src: String) -> (r: Result<
        (),
        BatchError,
    >)
        requires
            1 <= min_length(min) <= max_length(max),
        ensures
            r == Err::<(), BatchError>(BatchError::AmbiguousUserSyntax) <==> old(self).warn_mode
                && has_opaque_line(split(src@, '\n')),
            r == Err::<(), BatchError>(BatchError::TokenSpaceExhausted) <==> !(old(
                self,
            ).warn_mode && has_opaque_line(split(src@, '\n'))) && max_length(max) == 1,
            match r {
                Ok(()) => {
                    &&& final(self).holds(src@, min_length(min), max_length(max))
                    &&& is_alphabet(final(self).alphabet@, min_length(min), max_length(max))
                    &&& pairwise_distinct(final(self).names())
                    &&& final(self).names().len() == 92 + source_blobs(split(src@, '\n')).len()
                    &&& final(self).initialized
                    &&& final(self).echo_mode == old(self).echo_mode
                    &&& final(self).warn_mode == old(self).warn_mode
                },
                Err(e) => {
                    &&& *final(self) == *old(self)
                    &&& e == BatchError::AmbiguousUserSyntax || e
                        == BatchError::TokenSpaceExhausted
                },
            },
    {
        let chars = chars_of(src.as_str());
        let lines = split_chars(&chars, '\n');
        if self.warn_mode && any_opaque_line(&lines) {
            return Err(BatchError::AmbiguousUserSyntax);
        }
        let ghost lo = min_length(min);
        let ghost hi = max_length(max);
        let mut work = BatchObfuscator::new();
        work.echo_mode = self.echo_mode;
        work.warn_mode = self.warn_mode;
        proof {
            assert(work.names() =~= Seq::<Seq<char>>::empty());
        }
        let keyword = match generate_random_chars(min, max, &mut work.used_variable_strings) {
            Ok(name) => name,
            Err(e) => {
                proof {
                    lemma_few_names_suffice(work.names(), lo, hi);
                }
                return Err(e);
            },
        };
        let space = match generate_random_chars(min, max, &mut work.used_variable_strings) {
            Ok(name) => name,
            Err(e) => {
                proof {
                    lemma_few_names_suffice(work.names(), lo, hi);
                }
                return Err(e);
            },
        };
        let equals = match generate_random_chars(min, max, &mut work.used_variable_strings) {
            Ok(name) => name,
            Err(e) => {
                proof {
                    lemma_few_names_suffice(work.names(), lo, hi);
                }
                return Err(e);
            },
        };
        proof {
            assert(work.names() =~= seq![keyword@, space@, equals@]);
        }
        work.prep_commands.push(String::from_str(WATERMARK_ORIGIN));
        work.prep_commands.push(String::from_str(WATERMARK_REVERSAL));
        if work.echo_mode {
            work.prep_commands.push(String::from_str(ECHO_OFF));
        }
        work.prep_commands.push(keyword_statement(keyword.as_str()));
        work.prep_commands.push(space_statement(keyword.as_str(), space.as_str()));
        work.prep_commands.push(
            equals_statement(keyword.as_str(), space.as_str(), equals.as_str()),
        );
        proof {
            assert(string_views(work.prep_commands@) =~= header_lines(
                work.echo_mode,
                keyword@,
                space@,
                equals@,
            ));
        }
        work.set_str = keyword;
        work.space_str = space;
        work.eq_str = equals;
        match work.build_alphabet(min, max) {
            Ok(()) => {},
            Err(e) => {
                proof {
                    lemma_few_names_suffice(work.names(), lo, hi);
                }
                return Err(e);
            },
        }
        let ghost anchors = seq![work.set_str@, work.space_str@, work.eq_str@];
        let ghost table = work.table();
        proof {
            assert(work.names() == anchors + issued(table));
            lemma_issued_len(table);
            if hi == 1 {
                // 92 names of one letter, no two of them equal: there are but 52.
                let names = work.names();
                assert forall|i: int| 0 <= i < names.len() implies is_token(
                    #[trigger] names[i],
                    1,
                    1,
                ) by {
                    if i >= 3 {
                        lemma_issued_tokens(work.alphabet@, lo, hi, i - 3);
                    }
                }
                lemma_single_letters(names);
            }
        }
        work.obfuscate(src);
        work.initialized = true;
        proof {
            let fresh = work.names().skip((anchors + issued(table)).len() as int);
            assert(work.blob_names() == fresh);
            assert(work.names() =~= anchors + issued(table) + fresh);
        }
        *self = work;
        Ok(())
    }
}

impl Default for BatchObfuscator {
    /// An obfuscator that has issued no name and holds no script. It
    /// writes no echo line, and it asks for no consent.
    fn default() -> (r: Self)
        ensures
            r.set_str@.len() == 0,
            r.space_str@.len() == 0,
            r.eq_str@.len() == 0,
            r.used_variable_strings@.len() == 0,
            r.alphabet@.len() == 0,
            r.prep_commands@.len() == 0,
            r.exec_commands@.len() == 0,
            r.obfuscated_code@.len() == 0,
            !r.echo_mode,
            !r.warn_mode,
            !r.initialized,
    {
        BatchObfuscator {
            set_str: String::new(),
            space_str: String::new(),
            eq_str: String::new(),
            used_variable_strings: Vec::new(),
            alphabet: Vec::new(),
            prep_commands: Vec::new(),
            exec_commands: Vec::new(),
            obfuscated_code: String::new(),
            echo_mode: false,
            warn_mode: false,
            initialized: false,
        }
    }
}

/// Fewer than 2704 names do not exhaust the names of a range of lengths
/// that reaches two letters or more.
proof fn lemma_few_names_suffice(used: Seq<Seq<char>>, min: int, max: int)
    requires
        1 <= min <= max,
        used.len() <= 100,
        is_exhausted(used, min, max),
    ensures
        max == 1,
{
    if max >= 2 {
        lemma_power_bounds(max as nat);
        lemma_names_suffice(used, max as nat);
        lemma_exhausted_within(used, min, max, max);
    }
}

/// The names issued for a complete alphabet are names of its lengths.
proof fn lemma_issued_tokens(alphabet: Seq<(char, String)>, min: int, max: int, i: int)
    requires
        is_alphabet(alphabet, min, max),
        0 <= i < issued(table_of(alphabet)).len(),
    ensures
        is_token(issued(table_of(alphabet))[i], min, max),
{
    lemma_issued_among(table_of(alphabet), i);
    let m = choose|m: int|
        0 <= m < table_of(alphabet).len() && !is_bad_char(CharSet::FullSet.members()[m])
            && issued(table_of(alphabet))[i] == #[trigger] table_of(alphabet)[m];
    assert(table_of(alphabet)[m] == alphabet[m].1@);
}

/// Each name issued for a table is the entry of a character that is no
/// bad character.
proof fn lemma_issued_among(table: Seq<Seq<char>>, i: int)
    requires
        0 <= i < issued(table).len(),
    ensures
        exists|m: int|
            0 <= m < table.len() && !is_bad_char(CharSet::FullSet.members()[m]) && issued(
                table,
            )[i] == #[trigger] table[m],
    decreases table.len(),
{
    let head = table.drop_last();
    if i < issued(head).len() {
        lemma_issued_among(head, i);
        let m = choose|m: int|
            0 <= m < head.len() && !is_bad_char(CharSet::FullSet.members()[m]) && issued(head)[i]
                == #[trigger] head[m];
        assert(table[m] == head[m]);
    } else {
        assert(issued(table)[i] == table[table.len() - 1]);
    }
}

} // verus!
