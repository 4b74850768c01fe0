//! The textual protocol between the two directions: the statements that an
//! obfuscated script opens with, and how each is recognised again.

use crate::batch::{all_letters, is_letter, letter, BatchError};
use crate::text::{
    ends_with, ends_with_chars, occurs_at, occurs_at_pos, push_all, slice_of, starts_with,
    starts_with_chars,
};
use vstd::prelude::*;

verus! {

/// The comment line that says where an obfuscated script comes from.
pub const WATERMARK_ORIGIN: &'static str =
    ":: VGhpcyBmaWxlIHdhcyBvYmZ1c2NhdGVkIHZpYSBodHRwczovL2dpdGh1Yi5jb20vMHhUYXMvMHhpZGl6M3I=";

/// The comment line that says how an obfuscated script can be read again.
pub const WATERMARK_REVERSAL: &'static str =
    ":: VGhpcyBmaWxlIGNhbiBiZSBwcm9ncmFtYXRpY2FsbHkgZGVvYmZ1c2NhdGVkIHZpYSBodHRwczovL2dpdGh1Yi5jb20vMHhUYXMvMHhpZGl6M3I=";

/// The line that keeps the interpreter from echoing the commands it runs.
pub const ECHO_OFF: &'static str = "@echo off";

/// `%name%`: a reference to the variable `name`.
pub open spec fn reference(name: Seq<char>) -> Seq<char> {
    seq!['%'] + name + seq!['%']
}

/// What a keyword statement opens with.
pub open spec fn keyword_open() -> Seq<char> {
    seq!['s', 'e', 't', ' ']
}

/// What a keyword statement closes with.
pub open spec fn keyword_close() -> Seq<char> {
    seq!['=', 's', 'e', 't']
}

/// What a space statement opens with.
pub open spec fn space_open(keyword: Seq<char>) -> Seq<char> {
    reference(keyword) + seq![' ']
}

/// What a space statement closes with.
pub open spec fn space_close() -> Seq<char> {
    seq!['=', ' ']
}

/// What an equals statement opens with, and a definition statement too.
pub open spec fn equals_open(keyword: Seq<char>, space: Seq<char>) -> Seq<char> {
    reference(keyword) + reference(space)
}

/// What an equals statement closes with.
pub open spec fn equals_close() -> Seq<char> {
    seq!['=', '=']
}

/// `set <keyword>=set`: the statement that defines the alias of the
/// assignment keyword.
pub open spec fn keyword_line(keyword: Seq<char>) -> Seq<char> {
    keyword_open() + keyword + keyword_close()
}

/// `%<keyword>% <space>= `: the statement that defines the alias of the space.
pub open spec fn space_line(keyword: Seq<char>, space: Seq<char>) -> Seq<char> {
    space_open(keyword) + space + space_close()
}

/// `%<keyword>%%<space>%<equals>==`: the statement that defines the alias
/// of the assignment operator.
pub open spec fn equals_line(keyword: Seq<char>, space: Seq<char>, equals: Seq<char>) -> Seq<
    char,
> {
    equals_open(keyword, space) + equals + equals_close()
}

/// `%<keyword>%%<space>%<name>%<equals>%<value>`: the statement that
/// defines the variable `name` to hold `value`.
pub open spec fn definition_line(
    keyword: Seq<char>,
    space: Seq<char>,
    name: Seq<char>,
    equals: Seq<char>,
    value: Seq<char>,
) -> Seq<char> {
    equals_open(keyword, space) + name + reference(equals) + value
}

/// The letters that `line` holds between `prefix` and `suffix`, where it
/// is made of `prefix`, one letter or more, and `suffix`.
pub open spec fn enclosed(line: Seq<char>, prefix: Seq<char>, suffix: Seq<char>) -> Option<
    Seq<char>,
> {
    let name = line.subrange(prefix.len() as int, line.len() - suffix.len());
    if line.len() > prefix.len() + suffix.len() && starts_with(line, prefix) && ends_with(
        line,
        suffix,
    ) && all_letters(name) {
        Some(name)
    } else {
        None
    }
}

/// How many letters `s` opens with.
pub open spec fn leading_letters(s: Seq<char>) -> nat
    decreases s.len(),
{
    if s.len() == 0 || !is_letter(s[0]) {
        0
    } else {
        1 + leading_letters(s.drop_first())
    }
}

/// The name and the value that `line` defines, where it is a definition
/// statement written with the three aliases: the name is one letter or
/// more, the value one character or more.
pub open spec fn definition_of(
    line: Seq<char>,
    keyword: Seq<char>,
    space: Seq<char>,
    equals: Seq<char>,
) -> Option<(Seq<char>, Seq<char>)> {
    let prefix = equals_open(keyword, space);
    let rest = line.skip(prefix.len() as int);
    let n = leading_letters(rest) as int;
    let mark = reference(equals);
    if starts_with(line, prefix) && n > 0 && occurs_at(rest, mark, n) && rest.len() > n
        + mark.len() {
        Some((rest.take(n), rest.skip(n + mark.len())))
    } else {
        None
    }
}

/// A line made of `prefix`, letters and `suffix` is read back as the letters.
pub proof fn lemma_enclosed_made(prefix: Seq<char>, name: Seq<char>, suffix: Seq<char>)
    requires
        name.len() > 0,
        all_letters(name),
    ensures
        enclosed(prefix + name + suffix, prefix, suffix) == Some(name),
{
    let line = prefix + name + suffix;
    assert(line.subrange(0, prefix.len() as int) =~= prefix);
    assert(line.subrange(line.len() - suffix.len(), line.len() as int) =~= suffix);
    assert(line.subrange(prefix.len() as int, line.len() - suffix.len()) =~= name);
}

/// Letters followed by something that is no letter: the leading letters
/// are those letters.
pub proof fn lemma_leading_letters(name: Seq<char>, rest: Seq<char>)
    requires
        all_letters(name),
        rest.len() == 0 || !is_letter(rest[0]),
    ensures
        leading_letters(name + rest) == name.len(),
    decreases name.len(),
{
    if name.len() == 0 {
        assert(name + rest =~= rest);
    } else {
        assert(is_letter(name[0]));
        assert((name + rest)[0] == name[0]);
        assert((name + rest).drop_first() =~= name.drop_first() + rest);
        assert(all_letters(name.drop_first())) by {
            assert forall|i: int| 0 <= i < name.drop_first().len() implies is_letter(
                #[trigger] name.drop_first()[i],
            ) by {
                assert(name.drop_first()[i] == name[i + 1]);
            }
        }
        lemma_leading_letters(name.drop_first(), rest);
    }
}

/// A definition statement is read back as the name and the value it was
/// written with.
pub proof fn lemma_definition_made(
    keyword: Seq<char>,
    space: Seq<char>,
    name: Seq<char>,
    equals: Seq<char>,
    value: Seq<char>,
)
    requires
        name.len() > 0,
        all_letters(name),
        value.len() > 0,
    ensures
        definition_of(definition_line(keyword, space, name, equals, value), keyword, space, equals)
            == Some((name, value)),
{
    let prefix = equals_open(keyword, space);
    let mark = reference(equals);
    let line = definition_line(keyword, space, name, equals, value);
    let rest = line.skip(prefix.len() as int);
    assert(line.subrange(0, prefix.len() as int) =~= prefix);
    assert(rest =~= name + (mark + value));
    assert((mark + value)[0] == '%');
    lemma_leading_letters(name, mark + value);
    let n = name.len() as int;
    assert(rest.subrange(n, n + mark.len()) =~= mark);
    assert(rest.take(n) =~= name);
    assert(rest.skip(n + mark.len()) =~= value);
}

/// `%name%` as a vector.
pub fn reference_to(name: &Vec<char>) -> (r: Vec<char>)
    ensures
        r@ == reference(name@),
{
    let mut r: Vec<char> = vec!['%'];
    push_all(&mut r, name);
    r.push('%');
    r
}

/// Appends `%name%` to `out`.
pub fn push_reference(out: &mut String, name: &str)
    ensures
        final(out)@ == old(out)@ + reference(name@),
{
    out.push('%');
    out.append(name);
    out.push('%');
    proof {
        assert(out@ =~= old(out)@ + reference(name@));
    }
}

/// The keyword statement for the alias `keyword`.
pub fn keyword_statement(keyword: &str) -> (r: String)
    ensures
        r@ == keyword_line(keyword@),
{
    let mut r = String::new();
    r.push('s');
    r.push('e');
    r.push('t');
    r.push(' ');
    r.append(keyword);
    r.push('=');
    r.push('s');
    r.push('e');
    r.push('t');
    proof {
        assert(r@ =~= keyword_line(keyword@));
    }
    r
}

/// The space statement for the aliases `keyword` and `space`.
pub fn space_statement(keyword: &str, space: &str) -> (r: String)
    ensures
        r@ == space_line(keyword@, space@),
{
    let mut r = String::new();
    push_reference(&mut r, keyword);
    r.push(' ');
    r.append(space);
    r.push('=');
    r.push(' ');
    proof {
        assert(r@ =~= space_line(keyword@, space@));
    }
    r
}

/// The equals statement for the three aliases.
pub fn equals_statement(keyword: &str, space: &str, equals: &str) -> (r: String)
    ensures
        r@ == equals_line(keyword@, space@, equals@),
{
    let mut r = String::new();
    push_reference(&mut r, keyword);
    push_reference(&mut r, space);
    r.append(equals);
    r.push('=');
    r.push('=');
    proof {
        assert(r@ =~= equals_line(keyword@, space@, equals@));
    }
    r
}

/// The definition statement that gives the variable `name` the value `value`.
pub fn definition_statement(keyword: &str, space: &str, name: &str, equals: &str, value: &str) -> (r:
    String)
    ensures
        r@ == definition_line(keyword@, space@, name@, equals@, value@),
{
    let mut r = String::new();
    push_reference(&mut r, keyword);
    push_reference(&mut r, space);
    r.append(name);
    push_reference(&mut r, equals);
    r.append(value);
    proof {
        assert(r@ =~= definition_line(keyword@, space@, name@, equals@, value@));
    }
    r
}

/// Decides whether the characters of `v` from `from` up to `to` are letters.
pub(crate) fn letters_between(v: &Vec<char>, from: usize, to: usize) -> (b: bool)
    requires
        from <= to <= v.len(),
    ensures
        b == all_letters(v@.subrange(from as int, to as int)),
{
    let mut i: usize = from;
    while i < to
        invariant
            from <= i <= to,
            to <= v.len(),
            all_letters(v@.subrange(from as int, i as int)),
        decreases to - i,
    {
        if !letter(v[i]) {
            proof {
                assert(v@.subrange(from as int, to as int)[i - from] == v@[i as int]);
            }
            return false;
        }
        proof {
            assert(v@.subrange(from as int, i + 1) == v@.subrange(from as int, i as int).push(
                v@[i as int],
            ));
        }
        i += 1;
    }
    true
}

/// Reads the letters between `prefix` and `suffix` out of `line`.
pub fn parse_enclosed(line: &Vec<char>, prefix: &Vec<char>, suffix: &Vec<char>) -> (r: Option<
    Vec<char>,
>)
    ensures
        match r {
            Some(name) => enclosed(line@, prefix@, suffix@) == Some(name@),
            None => enclosed(line@, prefix@, suffix@) is None,
        },
{
    if prefix.len() > line.len() || suffix.len() >= line.len() - prefix.len() {
        return None;
    }
    if !starts_with_chars(line, prefix) || !ends_with_chars(line, suffix) {
        return None;
    }
    let from = prefix.len();
    let to = line.len() - suffix.len();
    if !letters_between(line, from, to) {
        return None;
    }
    Some(slice_of(line, from, to))
}

/// Counts the letters that `v` holds from `from` on without a break.
pub(crate) fn count_leading_letters(v: &Vec<char>, from: usize) -> (n: usize)
    requires
        from <= v.len(),
    ensures
        n == leading_letters(v@.skip(from as int)),
        from + n <= v.len(),
{
    let mut i: usize = from;
    while i < v.len() && letter(v[i])
        invariant
            from <= i <= v.len(),
            leading_letters(v@.skip(from as int)) == (i - from) + leading_letters(
                v@.skip(i as int),
            ),
        decreases v.len() - i,
    {
        proof {
            assert(v@.skip(i as int).drop_first() == v@.skip(i + 1));
        }
        i += 1;
    }
    i - from
}

/// Reads the name and the value out of a definition statement. Every
/// other line is a malformed definition.
pub fn parse_definition(
    line: &Vec<char>,
    keyword: &Vec<char>,
    space: &Vec<char>,
    equals: &Vec<char>,
) -> (r: Result<(Vec<char>, Vec<char>), BatchError>)
    ensures
        match r {
            Ok(d) => definition_of(line@, keyword@, space@, equals@) == Some((d.0@, d.1@)),
            Err(e) => e == BatchError::MalformedDefinition && definition_of(
                line@,
                keyword@,
                space@,
                equals@,
            ) is None,
        },
{
    let mut prefix = reference_to(keyword);
    let second = reference_to(space);
    push_all(&mut prefix, &second);
    if !starts_with_chars(line, &prefix) {
        return Err(BatchError::MalformedDefinition);
    }
    let from: usize = prefix.len();
    let n: usize = count_leading_letters(line, from);
    if n == 0 {
        return Err(BatchError::MalformedDefinition);
    }
    let mark = reference_to(equals);
    let found = occurs_at_pos(line, &mark, from + n);
    proof {
        let rest = line@.skip(from as int);
        if from + n + mark@.len() <= line@.len() {
            assert(rest.subrange(n as int, n + mark@.len()) == line@.subrange(
                from + n,
                from + n + mark@.len(),
            ));
        }
        assert(found == occurs_at(rest, mark@, n as int));
    }
    if !found {
        return Err(BatchError::MalformedDefinition);
    }
    let value_from: usize = from + n + mark.len();
    if value_from >= line.len() {
        return Err(BatchError::MalformedDefinition);
    }
    let name = slice_of(line, from, from + n);
    let value = slice_of(line, value_from, line.len());
    proof {
        let rest = line@.skip(from as int);
        assert(rest.take(n as int) == name@);
        assert(rest.skip(n + mark@.len()) == value@);
    }
    Ok((name, value))
}

} // verus!
