//! The inverse direction: from an obfuscated script back to its source.
//!
//! Nothing but the script is given. The three aliases are read off the
//! statements that define them, the variable table off the definition
//! statements, and what is left is the body, in which every reference to a
//! known variable is replaced by its value.

use crate::batch::format::{
    definition_of, enclosed, equals_close, equals_open, keyword_close, keyword_open,
    parse_definition, parse_enclosed, reference, reference_to, space_close, space_open,
    WATERMARK_ORIGIN, WATERMARK_REVERSAL,
};
use crate::batch::{bad_char, is_bad_char, BatchError};
use crate::text::{
    chars_of, contains, contains_chars, join, push_all, same_chars, split, split_chars,
    string_of, views,
};
use vstd::prelude::*;

verus! {

/// The three aliases that an obfuscated script opens with.
pub struct Anchors {
    /// The alias of the assignment keyword.
    pub keyword: Vec<char>,
    /// The alias of the space.
    pub space: Vec<char>,
    /// The alias of the assignment operator.
    pub equals: Vec<char>,
}

/// The views of a variable table.
pub open spec fn table_view(table: Seq<(Vec<char>, Vec<char>)>) -> Seq<(Seq<char>, Seq<char>)> {
    table.map_values(|d: (Vec<char>, Vec<char>)| (d.0@, d.1@))
}

/// The views of a variable table that holds strings.
pub open spec fn string_table_view(table: Seq<(String, String)>) -> Seq<(Seq<char>, Seq<char>)> {
    table.map_values(|d: (String, String)| (d.0@, d.1@))
}

/// What the first of `lines` that is made of `prefix`, letters and
/// `suffix` holds between the two.
pub open spec fn first_enclosed(lines: Seq<Seq<char>>, prefix: Seq<char>, suffix: Seq<char>) -> Option<
    Seq<char>,
>
    decreases lines.len(),
{
    if lines.len() == 0 {
        None
    } else if enclosed(lines[0], prefix, suffix) is Some {
        enclosed(lines[0], prefix, suffix)
    } else {
        first_enclosed(lines.drop_first(), prefix, suffix)
    }
}

/// The three aliases of a script, each read off the first statement that
/// defines it, the later ones in terms of the earlier ones; `None` where
/// one of the three statements is missing.
pub open spec fn anchors_of(lines: Seq<Seq<char>>) -> Option<(Seq<char>, Seq<char>, Seq<char>)> {
    match first_enclosed(lines, keyword_open(), keyword_close()) {
        None => None,
        Some(keyword) => match first_enclosed(lines, space_open(keyword), space_close()) {
            None => None,
            Some(space) => match first_enclosed(
                lines,
                equals_open(keyword, space),
                equals_close(),
            ) {
                None => None,
                Some(equals) => Some((keyword, space, equals)),
            },
        },
    }
}

/// The definitions among `lines`, in their order.
pub open spec fn definitions_of(
    lines: Seq<Seq<char>>,
    keyword: Seq<char>,
    space: Seq<char>,
    equals: Seq<char>,
) -> Seq<(Seq<char>, Seq<char>)>
    decreases lines.len(),
{
    if lines.len() == 0 {
        Seq::empty()
    } else {
        let head = definitions_of(lines.drop_last(), keyword, space, equals);
        match definition_of(lines.last(), keyword, space, equals) {
            Some(d) => head.push(d),
            None => head,
        }
    }
}

/// The value of the variable `name`: that of its last definition.
pub open spec fn lookup(table: Seq<(Seq<char>, Seq<char>)>, name: Seq<char>) -> Option<Seq<char>>
    decreases table.len(),
{
    if table.len() == 0 {
        None
    } else if table.last().0 == name {
        Some(table.last().1)
    } else {
        lookup(table.drop_last(), name)
    }
}

/// A line of the body: free of the three aliases and of the two
/// watermarks. An empty line is one.
pub open spec fn is_body_line(
    line: Seq<char>,
    keyword: Seq<char>,
    space: Seq<char>,
    equals: Seq<char>,
) -> bool {
    &&& !contains(line, keyword)
    &&& !contains(line, space)
    &&& !contains(line, equals)
    &&& !contains(line, WATERMARK_ORIGIN@)
    &&& !contains(line, WATERMARK_REVERSAL@)
}

/// A piece that stood between two delimiters in the source: not empty,
/// and free of spaces and of bad characters.
pub open spec fn is_wrappable(piece: Seq<char>) -> bool {
    &&& piece.len() > 0
    &&& forall|i: int| 0 <= i < piece.len() ==> piece[i] != ' ' && !is_bad_char(#[trigger] piece[i])
}

/// What a piece between two delimiters stands for: the value of the
/// variable it names; else itself, between delimiters again where it is
/// wrappable.
pub open spec fn decode_piece(piece: Seq<char>, table: Seq<(Seq<char>, Seq<char>)>) -> Seq<char> {
    match lookup(table, piece) {
        Some(value) => value,
        None => if is_wrappable(piece) {
            reference(piece)
        } else {
            piece
        },
    }
}

/// What the pieces stand for, one after another.
pub open spec fn decode_pieces(pieces: Seq<Seq<char>>, table: Seq<(Seq<char>, Seq<char>)>) -> Seq<
    char,
>
    decreases pieces.len(),
{
    if pieces.len() == 0 {
        Seq::empty()
    } else {
        decode_pieces(pieces.drop_last(), table) + decode_piece(pieces.last(), table)
    }
}

/// What a line of the body stands for.
pub open spec fn decode_line(line: Seq<char>, table: Seq<(Seq<char>, Seq<char>)>) -> Seq<char> {
    decode_pieces(split(line, '%'), table)
}

/// What each of the body lines among `lines` stands for, in their order.
pub open spec fn restored_lines(
    lines: Seq<Seq<char>>,
    keyword: Seq<char>,
    space: Seq<char>,
    equals: Seq<char>,
    table: Seq<(Seq<char>, Seq<char>)>,
) -> Seq<Seq<char>>
    decreases lines.len(),
{
    if lines.len() == 0 {
        Seq::empty()
    } else {
        let head = restored_lines(lines.drop_last(), keyword, space, equals, table);
        if is_body_line(lines.last(), keyword, space, equals) {
            head.push(decode_line(lines.last(), table))
        } else {
            head
        }
    }
}

/// What the body lines among `lines` stand for, with a line feed between
/// each two neighbours.
pub open spec fn decode_body(
    lines: Seq<Seq<char>>,
    keyword: Seq<char>,
    space: Seq<char>,
    equals: Seq<char>,
    table: Seq<(Seq<char>, Seq<char>)>,
) -> Seq<char> {
    join(restored_lines(lines, keyword, space, equals, table), '\n')
}

/// `s` without the line feed it ends with, if it ends with one.
pub open spec fn strip_line_feed(s: Seq<char>) -> Seq<char> {
    if s.len() > 0 && s.last() == '\n' {
        s.drop_last()
    } else {
        s
    }
}

/// The source that the obfuscated script `src` stands for.
pub open spec fn decode(src: Seq<char>) -> Result<Seq<char>, BatchError> {
    let lines = split(src, '\n');
    match anchors_of(lines) {
        None => Err(BatchError::AnchorNotFound),
        Some((keyword, space, equals)) => Ok(
            strip_line_feed(
                decode_body(
                    lines,
                    keyword,
                    space,
                    equals,
                    definitions_of(lines, keyword, space, equals),
                ),
            ),
        ),
    }
}

/// Finds the first line that is made of `prefix`, letters and `suffix`,
/// and reads the letters.
pub fn find_enclosed(lines: &Vec<Vec<char>>, prefix: &Vec<char>, suffix: &Vec<char>) -> (r: Option<
    Vec<char>,
>)
    ensures
        match r {
            Some(name) => first_enclosed(views(lines@), prefix@, suffix@) == Some(name@),
            None => first_enclosed(views(lines@), prefix@, suffix@) is None,
        },
{
    let ghost all = views(lines@);
    let mut i: usize = 0;
    proof {
        assert(all.skip(0) == all);
    }
    while i < lines.len()
        invariant
            i <= lines.len(),
            all == views(lines@),
            first_enclosed(all, prefix@, suffix@) == first_enclosed(
                all.skip(i as int),
                prefix@,
                suffix@,
            ),
        decreases lines.len() - i,
    {
        proof {
            assert(all.skip(i as int).drop_first() == all.skip(i + 1));
        }
        match parse_enclosed(&lines[i], prefix, suffix) {
            Some(name) => {
                return Some(name);
            },
            None => {},
        }
        i += 1;
    }
    None
}

/// Finds the three aliases among the lines of a script.
pub fn recover_anchors(lines: &Vec<Vec<char>>) -> (r: Result<Anchors, BatchError>)
    ensures
        match r {
            Ok(a) => anchors_of(views(lines@)) == Some((a.keyword@, a.space@, a.equals@)),
            Err(e) => e == BatchError::AnchorNotFound && anchors_of(views(lines@)) is None,
        },
{
    let open: Vec<char> = vec!['s', 'e', 't', ' '];
    let close: Vec<char> = vec!['=', 's', 'e', 't'];
    proof {
        assert(open@ =~= keyword_open());
        assert(close@ =~= keyword_close());
    }
    let keyword = match find_enclosed(lines, &open, &close) {
        Some(k) => k,
        None => {
            return Err(BatchError::AnchorNotFound);
        },
    };
    let mut open = reference_to(&keyword);
    open.push(' ');
    let close: Vec<char> = vec!['=', ' '];
    proof {
        assert(open@ =~= space_open(keyword@));
        assert(close@ =~= space_close());
    }
    let space = match find_enclosed(lines, &open, &close) {
        Some(p) => p,
        None => {
            return Err(BatchError::AnchorNotFound);
        },
    };
    let mut open = reference_to(&keyword);
    let second = reference_to(&space);
    push_all(&mut open, &second);
    let close: Vec<char> = vec!['=', '='];
    proof {
        assert(open@ =~= equals_open(keyword@, space@));
        assert(close@ =~= equals_close());
    }
    match find_enclosed(lines, &open, &close) {
        Some(equals) => Ok(Anchors { keyword, space, equals }),
        None => Err(BatchError::AnchorNotFound),
    }
}

/// Collects the variable table from the definition statements among the lines.
pub fn recover_definitions(lines: &Vec<Vec<char>>, anchors: &Anchors) -> (table: Vec<
    (Vec<char>, Vec<char>),
>)
    ensures
        table_view(table@) == definitions_of(
            views(lines@),
            anchors.keyword@,
            anchors.space@,
            anchors.equals@,
        ),
{
    let ghost all = views(lines@);
    let mut table: Vec<(Vec<char>, Vec<char>)> = Vec::new();
    let mut i: usize = 0;
    while i < lines.len()
        invariant
            i <= lines.len(),
            all == views(lines@),
            table_view(table@) == definitions_of(
                all.take(i as int),
                anchors.keyword@,
                anchors.space@,
                anchors.equals@,
            ),
        decreases lines.len() - i,
    {
        proof {
            assert(all.take(i + 1).drop_last() == all.take(i as int));
        }
        let ghost before = table_view(table@);
        match parse_definition(&lines[i], &anchors.keyword, &anchors.space, &anchors.equals) {
            Ok(d) => {
                let ghost pair = (d.0@, d.1@);
                table.push(d);
                proof {
                    assert(table_view(table@) =~= before.push(pair));
                }
            },
            Err(_) => {},
        }
        i += 1;
    }
    proof {
        assert(all.take(lines.len() as int) == all);
    }
    table
}

/// Looks up the value of the variable `name`.
pub fn lookup_value<'a>(table: &'a Vec<(Vec<char>, Vec<char>)>, name: &Vec<char>) -> (r: Option<
    &'a Vec<char>,
>)
    ensures
        match r {
            Some(value) => lookup(table_view(table@), name@) == Some(value@),
            None => lookup(table_view(table@), name@) is None,
        },
{
    let ghost all = table_view(table@);
    let mut i: usize = table.len();
    proof {
        assert(all.take(i as int) == all);
    }
    while i > 0
        invariant
            i <= table.len(),
            all == table_view(table@),
            lookup(all, name@) == lookup(all.take(i as int), name@),
        decreases i,
    {
        i -= 1;
        proof {
            assert(all.take(i + 1).drop_last() == all.take(i as int));
        }
        if same_chars(&table[i].0, name) {
            return Some(&table[i].1);
        }
    }
    None
}

/// Decides whether a piece is put between delimiters again.
pub fn wrappable(piece: &Vec<char>) -> (b: bool)
    ensures
        b == is_wrappable(piece@),
{
    if piece.len() == 0 {
        return false;
    }
    let mut i: usize = 0;
    while i < piece.len()
        invariant
            i <= piece.len(),
            forall|j: int| 0 <= j < i ==> piece@[j] != ' ' && !is_bad_char(#[trigger] piece@[j]),
        decreases piece.len() - i,
    {
        if piece[i] == ' ' || bad_char(piece[i]) {
            return false;
        }
        i += 1;
    }
    true
}

/// Replaces every reference in a line of the body by what it stands for.
pub fn restore_line(line: &Vec<char>, table: &Vec<(Vec<char>, Vec<char>)>) -> (r: Vec<char>)
    ensures
        r@ == decode_line(line@, table_view(table@)),
{
    let pieces = split_chars(line, '%');
    let ghost all = views(pieces@);
    let mut out: Vec<char> = Vec::new();
    let mut i: usize = 0;
    while i < pieces.len()
        invariant
            i <= pieces.len(),
            all == views(pieces@),
            out@ == decode_pieces(all.take(i as int), table_view(table@)),
        decreases pieces.len() - i,
    {
        proof {
            assert(all.take(i + 1).drop_last() == all.take(i as int));
        }
        match lookup_value(table, &pieces[i]) {
            Some(value) => {
                push_all(&mut out, value);
            },
            None => {
                if wrappable(&pieces[i]) {
                    let wrapped = reference_to(&pieces[i]);
                    push_all(&mut out, &wrapped);
                } else {
                    push_all(&mut out, &pieces[i]);
                }
            },
        }
        i += 1;
    }
    proof {
        assert(all.take(pieces.len() as int) == all);
    }
    out
}

/// Decides whether a line belongs to the body of the script.
fn body_line(line: &Vec<char>, anchors: &Anchors, origin: &Vec<char>, reversal: &Vec<char>) -> (b:
    bool)
    requires
        origin@ == WATERMARK_ORIGIN@,
        reversal@ == WATERMARK_REVERSAL@,
    ensures
        b == is_body_line(line@, anchors.keyword@, anchors.space@, anchors.equals@),
{
    !contains_chars(line, &anchors.keyword) && !contains_chars(line, &anchors.space)
        && !contains_chars(line, &anchors.equals) && !contains_chars(line, origin)
        && !contains_chars(line, reversal)
}

/// Restores the body lines among the lines of a script, and joins them
/// with line feeds. Empty lines are body lines.
pub fn restore_body(
    lines: &Vec<Vec<char>>,
    anchors: &Anchors,
    table: &Vec<(Vec<char>, Vec<char>)>,
) -> (r: Vec<char>)
    ensures
        r@ == decode_body(
            views(lines@),
            anchors.keyword@,
            anchors.space@,
            anchors.equals@,
            table_view(table@),
        ),
{
    let ghost all = views(lines@);
    let origin = chars_of(WATERMARK_ORIGIN);
    let reversal = chars_of(WATERMARK_REVERSAL);
    let mut out: Vec<char> = Vec::new();
    let mut any: bool = false;
    let mut i: usize = 0;
    while i < lines.len()
        invariant
            i <= lines.len(),
            all == views(lines@),
            origin@ == WATERMARK_ORIGIN@,
            reversal@ == WATERMARK_REVERSAL@,
            any == (restored_lines(
                all.take(i as int),
                anchors.keyword@,
                anchors.space@,
                anchors.equals@,
                table_view(table@),
            ).len() > 0),
            out@ == decode_body(
                all.take(i as int),
                anchors.keyword@,
                anchors.space@,
                anchors.equals@,
                table_view(table@),
            ),
        decreases lines.len() - i,
    {
        let ghost before = restored_lines(
            all.take(i as int),
            anchors.keyword@,
            anchors.space@,
            anchors.equals@,
            table_view(table@),
        );
        proof {
            assert(all.take(i + 1).drop_last() == all.take(i as int));
        }
        if body_line(&lines[i], anchors, &origin, &reversal) {
            let restored = restore_line(&lines[i], table);
            if any {
                out.push('\n');
            }
            push_all(&mut out, &restored);
            any = true;
            proof {
                assert(before.push(restored@).drop_last() =~= before);
            }
        }
        i += 1;
    }
    proof {
        assert(all.take(lines.len() as int) == all);
    }
    out
}

/// Reads an obfuscated script back into its source. The script is
/// refused where one of the three statements that define the aliases is
/// missing.
pub fn deobfuscate_text(src: &str) -> (r: Result<String, BatchError>)
    ensures
        match r {
            Ok(text) => decode(src@) == Ok::<Seq<char>, BatchError>(text@),
            Err(e) => decode(src@) == Err::<Seq<char>, BatchError>(e),
        },
{
    let chars = chars_of(src);
    let lines = split_chars(&chars, '\n');
    let anchors = match recover_anchors(&lines) {
        Ok(a) => a,
        Err(e) => {
            return Err(e);
        },
    };
    let table = recover_definitions(&lines, &anchors);
    let mut body = restore_body(&lines, &anchors, &table);
    if body.len() > 0 && body[body.len() - 1] == '\n' {
        body.pop();
    }
    Ok(string_of(&body))
}

/// A reader of obfuscated batch scripts. `initialize` recovers the
/// aliases and the variable table of a script and writes its source into
/// `cleaned_code`.
#[derive(Debug)]
pub struct BatchDeobfuscator {
    /// The alias of the assignment keyword.
    pub set_str: String,
    /// The alias of the space.
    pub space_str: String,
    /// The alias of the assignment operator.
    pub eq_str: String,
    /// The variable table: names and values, in the order of their
    /// definitions. The last definition of a name is the one that counts.
    pub alphabet: Vec<(String, String)>,
    /// The source that was recovered.
    pub cleaned_code: String,
    /// `cleaned_code` holds a source.
    pub initialized: bool,
}

impl BatchDeobfuscator {
    /// The variable table as sequences of characters.
    pub open spec fn table(&self) -> Seq<(Seq<char>, Seq<char>)> {
        string_table_view(self.alphabet@)
    }

    /// The three aliases as vectors of characters.
    fn anchors(&self) -> (a: Anchors)
        ensures
            a.keyword@ == self.set_str@,
            a.space@ == self.space_str@,
            a.equals@ == self.eq_str@,
    {
        Anchors {
            keyword: chars_of(self.set_str.as_str()),
            space: chars_of(self.space_str.as_str()),
            equals: chars_of(self.eq_str.as_str()),
        }
    }

    /// A reader that knows no alias and no variable and holds no source.
    pub fn new() -> (r: Self)
        ensures
            r.set_str@.len() == 0,
            r.space_str@.len() == 0,
            r.eq_str@.len() == 0,
            r.alphabet@.len() == 0,
            r.cleaned_code@.len() == 0,
            !r.initialized,
    {
        BatchDeobfuscator {
            set_str: String::new(),
            space_str: String::new(),
            eq_str: String::new(),
            alphabet: Vec::new(),
            cleaned_code: String::new(),
            initialized: false,
        }
    }

    /// Reads the obfuscated script `src` and keeps its aliases, its
    /// variable table and its source. Nothing of what the reader held
    /// before enters the result.
    ///
    /// Where one of the three statements that define the aliases is
    /// missing, nothing is done and the error is `AnchorNotFound`.
    pub fn initialize(&mut self, src: String) -> (r: Result<(), BatchError>)
        ensures
            match r {
                Ok(()) => {
                    let lines = split(src@, '\n');
                    let s = *final(self);
                    &&& anchors_of(lines) == Some((s.set_str@, s.space_str@, s.eq_str@))
                    &&& s.table() == definitions_of(lines, s.set_str@, s.space_str@, s.eq_str@)
                    &&& decode(src@) == Ok::<Seq<char>, BatchError>(s.cleaned_code@)
                    &&& s.initialized
                },
                Err(e) => {
                    &&& *final(self) == *old(self)
                    &&& e == BatchError::AnchorNotFound
                    &&& decode(src@) == Err::<Seq<char>, BatchError>(e)
                },
            },
    {
        let chars = chars_of(src.as_str());
        let lines = split_chars(&chars, '\n');
        let anchors = match recover_anchors(&lines) {
            Ok(a) => a,
            Err(e) => {
                return Err(e);
            },
        };
        let mut work = BatchDeobfuscator::new();
        work.set_str = string_of(&anchors.keyword);
        work.space_str = string_of(&anchors.space);
        work.eq_str = string_of(&anchors.equals);
        proof {
            assert(work.table() =~= Seq::<(Seq<char>, Seq<char>)>::empty());
        }
        work.reverse_alphabet(src.as_str());
        proof {
            let found = definitions_of(views(lines@), work.set_str@, work.space_str@, work.eq_str@);
            assert(Seq::<(Seq<char>, Seq<char>)>::empty() + found =~= found);
        }
        work.deobfuscate(src);
        work.initialized = true;
        *self = work;
        Ok(())
    }

    /// Adds to the variable table the definitions that `src` holds,
    /// written with the aliases of the reader.
    pub fn reverse_alphabet(&mut self, src: &str)
        ensures
            final(self).table() == old(self).table() + definitions_of(
                split(src@, '\n'),
                old(self).set_str@,
                old(self).space_str@,
                old(self).eq_str@,
            ),
            final(self).set_str == old(self).set_str,
            final(self).space_str == old(self).space_str,
            final(self).eq_str == old(self).eq_str,
            final(self).cleaned_code == old(self).cleaned_code,
            final(self).initialized == old(self).initialized,
    {
        let chars = chars_of(src);
        let lines = split_chars(&chars, '\n');
        let anchors = self.anchors();
        let found = recover_definitions(&lines, &anchors);
        let ghost table0 = self.table();
        let ghost wanted = table_view(found@);
        let mut i: usize = 0;
        proof {
            assert(table0 + wanted.take(0) =~= table0);
        }
        while i < found.len()
            invariant
                i <= found.len(),
                wanted == table_view(found@),
                self.table() == table0 + wanted.take(i as int),
                self.set_str == old(self).set_str,
                self.space_str == old(self).space_str,
                self.eq_str == old(self).eq_str,
                self.cleaned_code == old(self).cleaned_code,
                self.initialized == old(self).initialized,
            decreases found.len() - i,
        {
            let ghost before = self.table();
            let name = string_of(&found[i].0);
            let value = string_of(&found[i].1);
            self.alphabet.push((name, value));
            proof {
                assert(self.table() =~= before.push(wanted[i as int]));
                assert(table0 + wanted.take(i + 1) =~= (table0 + wanted.take(i as int)).push(
                    wanted[i as int],
                ));
            }
            i += 1;
        }
        proof {
            assert(wanted.take(found.len() as int) == wanted);
        }
    }

    /// Restores the body of the script `src` with the aliases and the
    /// variable table of the reader, and keeps it as the source.
    pub fn deobfuscate(&mut self, src: String)
        ensures
            final(self).cleaned_code@ == strip_line_feed(
                decode_body(
                    split(src@, '\n'),
                    old(self).set_str@,
                    old(self).space_str@,
                    old(self).eq_str@,
                    old(self).table(),
                ),
            ),
            final(self).set_str == old(self).set_str,
            final(self).space_str == old(self).space_str,
            final(self).eq_str == old(self).eq_str,
            final(self).alphabet == old(self).alphabet,
            final(self).initialized == old(self).initialized,
    {
        let chars = chars_of(src.as_str());
        let lines = split_chars(&chars, '\n');
        let anchors = self.anchors();
        let ghost wanted = self.table();
        let mut table: Vec<(Vec<char>, Vec<char>)> = Vec::new();
        let mut i: usize = 0;
        proof {
            assert(table_view(table@) =~= wanted.take(0));
        }
        while i < self.alphabet.len()
            invariant
                i <= self.alphabet.len(),
                *self == *old(self),
                wanted == self.table(),
                table_view(table@) == wanted.take(i as int),
            decreases self.alphabet.len() - i,
        {
            let ghost before = table_view(table@);
            let name = chars_of(self.alphabet[i].0.as_str());
            let value = chars_of(self.alphabet[i].1.as_str());
            table.push((name, value));
            proof {
                assert(table_view(table@) =~= before.push(wanted[i as int]));
                assert(wanted.take(i + 1) =~= wanted.take(i as int).push(wanted[i as int]));
            }
            i += 1;
        }
        proof {
            assert(wanted.take(self.alphabet.len() as int) == wanted);
        }
        let mut body = restore_body(&lines, &anchors, &table);
        if body.len() > 0 && body[body.len() - 1] == '\n' {
            body.pop();
        }
        self.cleaned_code = string_of(&body);
    }
}

} // verus!
