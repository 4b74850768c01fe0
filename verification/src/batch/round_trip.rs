//! Reading back what was written: the proof that an obfuscated script
//! stands for the source it was made from.
//!
//! The claim is made of a source of characters of the full set, none of
//! whose lines is left as it is. It leaves out a script in which one of
//! the three aliases happens to stand inside a line of the body: such a
//! line is taken for a statement of the script. A script that opens with
//! the echo line stands for the echo line and the source behind it.

use crate::batch::deobfuscator::{
    anchors_of, decode, decode_line, decode_piece, decode_pieces, definitions_of,
    first_enclosed, is_body_line, is_wrappable, lookup, restored_lines,
};
use crate::batch::format::{
    definition_line, definition_of, enclosed, equals_close, equals_line, equals_open,
    keyword_close, keyword_line, keyword_open, lemma_definition_made, lemma_enclosed_made,
    lemma_leading_letters, reference, space_close, space_line, space_open, ECHO_OFF,
    WATERMARK_ORIGIN, WATERMARK_REVERSAL,
};
use crate::batch::obfuscator::{
    alphabet_lines, blob_at, blob_lines, blobs_from, body_lines, document, document_lines,
    has_opaque_line, header_lines, is_opaque, issued, lemma_source_blobs_prefix, line_blobs,
    line_rewrite, rewrite_from, source_blobs, unit, BatchObfuscator,
};
use crate::batch::{
    all_letters, full_set_index, is_bad_char, is_extended, is_letter, is_substitutable,
    lemma_full_set, pairwise_distinct, BatchError, CharSet,
};
use crate::text::{
    all_free_of, concat, contains, free_of, join, lemma_join_split, lemma_split_add,
    lemma_split_each_add, lemma_split_each_plain, lemma_split_join, lemma_split_nonempty,
    lemma_split_pieces_free, lemma_split_whole, occurs_at, split, split_each, starts_with,
};
use vstd::prelude::*;

verus! {

/// A variable name: one letter or more.
pub open spec fn is_name(s: Seq<char>) -> bool {
    s.len() > 0 && all_letters(s)
}

/// Every character of `s` is a bad character.
pub open spec fn all_bad(s: Seq<char>) -> bool {
    forall|i: int| 0 <= i < s.len() ==> is_bad_char(#[trigger] s[i])
}

/// The names of a variable table are names, and no two of them are equal.
pub open spec fn is_table(t: Seq<(Seq<char>, Seq<char>)>) -> bool {
    &&& forall|i: int| 0 <= i < t.len() ==> is_name((#[trigger] t[i]).0)
    &&& forall|i: int, j: int| 0 <= i < j < t.len() ==> (#[trigger] t[i]).0 != (#[trigger] t[j]).0
}

/// A name that is defined once is looked up as what it was defined to be.
proof fn lemma_lookup_found(t: Seq<(Seq<char>, Seq<char>)>, i: int)
    requires
        is_table(t),
        0 <= i < t.len(),
    ensures
        lookup(t, t[i].0) == Some(t[i].1),
    decreases t.len(),
{
    if i < t.len() - 1 {
        assert(t.last() == t[t.len() - 1]);
        assert(t[i].0 != t[t.len() - 1].0);
        let head = t.drop_last();
        assert(is_table(head)) by {
            assert forall|a: int| 0 <= a < head.len() implies is_name((#[trigger] head[a]).0) by {
                assert(head[a] == t[a]);
            }
            assert forall|a: int, b: int| 0 <= a < b < head.len() implies (#[trigger] head[a]).0
                != (#[trigger] head[b]).0 by {
                assert(head[a] == t[a]);
                assert(head[b] == t[b]);
            }
        }
        assert(head[i] == t[i]);
        lemma_lookup_found(head, i);
    }
}

/// What is no name is not found in a variable table.
proof fn lemma_lookup_missing(t: Seq<(Seq<char>, Seq<char>)>, piece: Seq<char>)
    requires
        is_table(t),
        !is_name(piece),
    ensures
        lookup(t, piece) is None,
    decreases t.len(),
{
    if t.len() > 0 {
        assert(is_name(t[t.len() - 1].0));
        let head = t.drop_last();
        assert(is_table(head)) by {
            assert forall|a: int| 0 <= a < head.len() implies is_name((#[trigger] head[a]).0) by {
                assert(head[a] == t[a]);
            }
            assert forall|a: int, b: int| 0 <= a < b < head.len() implies (#[trigger] head[a]).0
                != (#[trigger] head[b]).0 by {
                assert(head[a] == t[a]);
                assert(head[b] == t[b]);
            }
        }
        lemma_lookup_missing(head, piece);
    }
}

/// A run of bad characters between two delimiters stands for itself.
proof fn lemma_decode_literal(t: Seq<(Seq<char>, Seq<char>)>, piece: Seq<char>)
    requires
        is_table(t),
        all_bad(piece),
    ensures
        decode_piece(piece, t) == piece,
{
    if piece.len() > 0 {
        assert(is_bad_char(piece[0]));
        assert(!is_letter(piece[0]));
    }
    lemma_lookup_missing(t, piece);
}

/// The pieces of two lists, one after the other, stand for what the
/// first stands for followed by what the second stands for.
proof fn lemma_decode_pieces_add(
    a: Seq<Seq<char>>,
    b: Seq<Seq<char>>,
    t: Seq<(Seq<char>, Seq<char>)>,
)
    ensures
        decode_pieces(a + b, t) == decode_pieces(a, t) + decode_pieces(b, t),
    decreases b.len(),
{
    if b.len() == 0 {
        assert(a + b =~= a);
        assert(decode_pieces(a, t) + decode_pieces(b, t) =~= decode_pieces(a, t));
    } else {
        assert((a + b).drop_last() =~= a + b.drop_last());
        assert((a + b).last() == b.last());
        lemma_decode_pieces_add(a, b.drop_last(), t);
        assert(decode_pieces(a + b, t) =~= decode_pieces(a, t) + decode_pieces(b, t));
    }
}

/// The pieces of a list stand for what the first stands for followed by
/// what the others stand for.
proof fn lemma_decode_pieces_first(ps: Seq<Seq<char>>, t: Seq<(Seq<char>, Seq<char>)>)
    requires
        ps.len() >= 1,
    ensures
        decode_pieces(ps, t) == decode_piece(ps[0], t) + decode_pieces(ps.drop_first(), t),
{
    let one = seq![ps[0]];
    assert(one + ps.drop_first() =~= ps);
    lemma_decode_pieces_add(one, ps.drop_first(), t);
    assert(one.drop_last() =~= Seq::<Seq<char>>::empty());
    assert(decode_pieces(Seq::<Seq<char>>::empty(), t) =~= Seq::<char>::empty());
    assert(decode_pieces(one, t) =~= decode_piece(ps[0], t));
}

/// A reference splits into nothing, the name, and nothing.
proof fn lemma_split_reference(name: Seq<char>)
    requires
        free_of(name, '%'),
    ensures
        split(reference(name), '%') == seq![Seq::<char>::empty(), name, Seq::<char>::empty()],
{
    let none = Seq::<char>::empty();
    let open = seq!['%'];
    assert(open.drop_last() =~= none);
    assert(split(none, '%') == seq![none]);
    assert(split(open, '%') == seq![none].push(none));
    assert(!name.contains('%'));
    lemma_split_whole(name, '%');
    lemma_split_add(open, name, '%');
    assert(none + name =~= name);
    assert(split(open + name, '%') =~= seq![none, name]);
    let both = open + name;
    assert(reference(name) =~= both.push('%'));
    assert(both.push('%').drop_last() =~= both);
}

/// A reference in front of a text adds two pieces: nothing, and the name.
proof fn lemma_split_after_reference(name: Seq<char>, rest: Seq<char>)
    requires
        free_of(name, '%'),
    ensures
        split(reference(name) + rest, '%') == seq![Seq::<char>::empty(), name] + split(
            rest,
            '%',
        ),
{
    lemma_split_reference(name);
    lemma_split_add(reference(name), rest, '%');
    let ps = split(rest, '%');
    assert(Seq::<char>::empty() + ps[0] =~= ps[0]);
    let pa = split(reference(name), '%');
    assert(pa.drop_last().push(pa.last() + ps[0]) + ps.drop_first() =~= seq![
        Seq::<char>::empty(),
        name,
    ] + ps);
}

/// A character that is no delimiter, in front of a text, joins the first piece.
proof fn lemma_split_after_char(c: char, rest: Seq<char>)
    requires
        c != '%',
    ensures
        split(rest, '%').len() >= 1,
        split(seq![c] + rest, '%') == seq![seq![c] + split(rest, '%')[0]] + split(
            rest,
            '%',
        ).drop_first(),
{
    let one = seq![c];
    assert(!one.contains('%'));
    lemma_split_whole(one, '%');
    lemma_split_add(one, rest, '%');
    let ps = split(rest, '%');
    let pa = split(one, '%');
    assert(pa.drop_last().push(pa.last() + ps[0]) + ps.drop_first() =~= seq![one + ps[0]]
        + ps.drop_first());
}

/// What the decoder needs to know of the names in order to read a line
/// back: the table `t` gives each substitutable character for the name
/// that `table` has for it.
pub open spec fn reads_table(t: Seq<(Seq<char>, Seq<char>)>, table: Seq<Seq<char>>) -> bool {
    forall|c: char|
        is_substitutable(c) ==> is_name(#[trigger] table[full_set_index(c)]) && lookup(
            t,
            table[full_set_index(c)],
        ) == Some(seq![c])
}

/// The table `t` gives each of `blobs` for the name that `names` has for
/// it from `j` on.
pub open spec fn reads_blobs(
    t: Seq<(Seq<char>, Seq<char>)>,
    names: Seq<Seq<char>>,
    j: int,
    blobs: Seq<Seq<char>>,
) -> bool {
    &&& 0 <= j
    &&& j + blobs.len() <= names.len()
    &&& forall|q: int|
        0 <= q < blobs.len() ==> is_name(#[trigger] names[j + q]) && lookup(t, names[j + q])
            == Some(blobs[q])
}

/// A line of the source, rewritten from `i` on, is read back as the line
/// from `i` on; and the rewritten text opens with a run of bad characters.
proof fn lemma_rewrite_read_back(
    line: Seq<char>,
    i: int,
    table: Seq<Seq<char>>,
    names: Seq<Seq<char>>,
    j: int,
    t: Seq<(Seq<char>, Seq<char>)>,
)
    requires
        0 <= i <= line.len(),
        forall|m: int| 0 <= m < line.len() ==> is_extended(#[trigger] line[m]),
        is_table(t),
        reads_table(t, table),
        reads_blobs(t, names, j, blobs_from(line, i)),
    ensures
        split(rewrite_from(line, i, table, names, j), '%').len() >= 1,
        all_bad(split(rewrite_from(line, i, table, names, j), '%')[0]),
        decode_pieces(split(rewrite_from(line, i, table, names, j), '%'), t) == line.skip(i),
    decreases line.len() - i,
{
    let none = Seq::<char>::empty();
    let w = rewrite_from(line, i, table, names, j);
    if i >= line.len() {
        assert(w =~= none);
        assert(split(w, '%') == seq![none]);
        lemma_decode_literal(t, none);
        lemma_decode_pieces_first(split(w, '%'), t);
        assert(split(w, '%').drop_first() =~= Seq::<Seq<char>>::empty());
        assert(decode_pieces(split(w, '%'), t) =~= line.skip(i));
    } else if line[i] == '%' {
        let step = blob_at(line, i).len() as int;
        let name = names[j];
        let bs = blobs_from(line, i);
        let later = blobs_from(line, i + step);
        assert(bs == seq![blob_at(line, i)] + later);
        assert(bs[0] == blob_at(line, i));
        assert(is_name(names[j + 0]) && lookup(t, names[j + 0]) == Some(bs[0]));
        assert(reads_blobs(t, names, j + 1, later)) by {
            assert forall|q: int| 0 <= q < later.len() implies is_name(
                #[trigger] names[j + 1 + q],
            ) && lookup(t, names[j + 1 + q]) == Some(later[q]) by {
                assert(bs[q + 1] == later[q]);
                assert(is_name(names[j + (q + 1)]) && lookup(t, names[j + (q + 1)]) == Some(
                    bs[q + 1],
                ));
            }
        }
        let w2 = rewrite_from(line, i + step, table, names, j + 1);
        lemma_rewrite_read_back(line, i + step, table, names, j + 1, t);
        assert(free_of(name, '%')) by {
            assert forall|m: int| 0 <= m < name.len() implies #[trigger] name[m] != '%' by {
                assert(is_letter(name[m]));
            }
        }
        lemma_split_after_reference(name, w2);
        let ps2 = split(w2, '%');
        let front = seq![none, name];
        assert(split(w, '%') == front + ps2);
        lemma_decode_pieces_add(front, ps2, t);
        lemma_decode_pieces_first(front, t);
        assert(front.drop_first() =~= seq![name]);
        lemma_decode_pieces_first(seq![name], t);
        assert(seq![name].drop_first() =~= Seq::<Seq<char>>::empty());
        lemma_decode_literal(t, none);
        assert(decode_pieces(front, t) =~= blob_at(line, i));
        assert(blob_at(line, i) + line.skip(i + step) =~= line.skip(i));
    } else {
        let c = line[i];
        let w2 = rewrite_from(line, i + 1, table, names, j);
        assert(blobs_from(line, i) == blobs_from(line, i + 1));
        lemma_rewrite_read_back(line, i + 1, table, names, j, t);
        let ps2 = split(w2, '%');
        assert(is_extended(line[i]));
        if is_substitutable(c) {
            let name = table[full_set_index(c)];
            assert(free_of(name, '%')) by {
                assert forall|m: int| 0 <= m < name.len() implies #[trigger] name[m] != '%' by {
                    assert(is_letter(name[m]));
                }
            }
            lemma_split_after_reference(name, w2);
            let front = seq![none, name];
            assert(split(w, '%') == front + ps2);
            lemma_decode_pieces_add(front, ps2, t);
            lemma_decode_pieces_first(front, t);
            assert(front.drop_first() =~= seq![name]);
            lemma_decode_pieces_first(seq![name], t);
            assert(seq![name].drop_first() =~= Seq::<Seq<char>>::empty());
            lemma_decode_literal(t, none);
            assert(decode_pieces(front, t) =~= seq![c]);
            assert(seq![c] + line.skip(i + 1) =~= line.skip(i));
        } else {
            assert(is_bad_char(c));
            lemma_split_after_char(c, w2);
            let first = seq![c] + ps2[0];
            assert(all_bad(first)) by {
                assert forall|m: int| 0 <= m < first.len() implies is_bad_char(
                    #[trigger] first[m],
                ) by {
                    if m > 0 {
                        assert(first[m] == ps2[0][m - 1]);
                    }
                }
            }
            let ps = seq![first] + ps2.drop_first();
            assert(split(w, '%') == ps);
            lemma_decode_literal(t, first);
            lemma_decode_literal(t, ps2[0]);
            lemma_decode_pieces_first(ps, t);
            lemma_decode_pieces_first(ps2, t);
            assert(ps.drop_first() =~= ps2.drop_first());
            assert(decode_pieces(ps, t) =~= seq![c] + decode_pieces(ps2, t));
            assert(seq![c] + line.skip(i + 1) =~= line.skip(i));
        }
    }
}

/// What the names of the obfuscator are asked to be: the three aliases,
/// the names of the table and the names of the blobs are names, the table
/// is complete, and no name is issued twice.
pub open spec fn is_scheme(
    keyword: Seq<char>,
    space: Seq<char>,
    equals: Seq<char>,
    table: Seq<Seq<char>>,
    blob_names: Seq<Seq<char>>,
) -> bool {
    &&& is_name(keyword)
    &&& is_name(space)
    &&& is_name(equals)
    &&& table.len() == 97
    &&& forall|i: int|
        0 <= i < 97 ==> if is_bad_char(CharSet::FullSet.members()[i]) {
            #[trigger] table[i] == seq![CharSet::FullSet.members()[i]]
        } else {
            is_name(table[i])
        }
    &&& forall|j: int| 0 <= j < blob_names.len() ==> is_name(#[trigger] blob_names[j])
    &&& pairwise_distinct(seq![keyword, space, equals] + issued(table) + blob_names)
}

/// The variable table that the definition statements of a table of names
/// spell out: one entry for each substitutable character.
pub open spec fn entries(table: Seq<Seq<char>>) -> Seq<(Seq<char>, Seq<char>)>
    decreases table.len(),
{
    if table.len() == 0 {
        Seq::empty()
    } else {
        let head = entries(table.drop_last());
        let c = CharSet::FullSet.members()[table.len() - 1];
        if is_bad_char(c) {
            head
        } else {
            head.push((table.last(), seq![c]))
        }
    }
}

/// The variable table that the definition statements of the blobs spell out.
pub open spec fn blob_entries(names: Seq<Seq<char>>, blobs: Seq<Seq<char>>) -> Seq<
    (Seq<char>, Seq<char>),
> {
    Seq::new(blobs.len(), |j: int| (names[j], blobs[j]))
}

/// The names of the entries are the names issued for the table, one for one.
proof fn lemma_entries_names(table: Seq<Seq<char>>)
    ensures
        entries(table).len() == issued(table).len(),
        forall|i: int| 0 <= i < entries(table).len() ==> (#[trigger] entries(table)[i]).0 == issued(
            table,
        )[i],
    decreases table.len(),
{
    if table.len() > 0 {
        lemma_entries_names(table.drop_last());
    }
}

/// The names issued for a table of names are names.
proof fn lemma_issued_names(table: Seq<Seq<char>>)
    requires
        table.len() <= 97,
        forall|i: int|
            0 <= i < table.len() && !is_bad_char(CharSet::FullSet.members()[i]) ==> is_name(
                #[trigger] table[i],
            ),
    ensures
        forall|i: int| 0 <= i < issued(table).len() ==> is_name(#[trigger] issued(table)[i]),
    decreases table.len(),
{
    if table.len() > 0 {
        let head = table.drop_last();
        assert forall|i: int|
            0 <= i < head.len() && !is_bad_char(CharSet::FullSet.members()[i]) implies is_name(
            #[trigger] head[i],
        ) by {
            assert(head[i] == table[i]);
        }
        lemma_issued_names(head);
        assert forall|i: int| 0 <= i < issued(table).len() implies is_name(
            #[trigger] issued(table)[i],
        ) by {
            if i < issued(head).len() {
                assert(issued(table)[i] == issued(head)[i]);
            } else {
                assert(issued(table)[i] == table[table.len() - 1]);
                assert(is_name(table[table.len() - 1]));
            }
        }
    }
}

/// Each substitutable character of a table has its entry.
proof fn lemma_entry_exists(table: Seq<Seq<char>>, m: int)
    requires
        0 <= m < table.len(),
        !is_bad_char(CharSet::FullSet.members()[m]),
    ensures
        exists|i: int|
            0 <= i < entries(table).len() && #[trigger] entries(table)[i] == (
                table[m],
                seq![CharSet::FullSet.members()[m]],
            ),
    decreases table.len(),
{
    let head = table.drop_last();
    if m == table.len() - 1 {
        let i = entries(head).len() as int;
        assert(entries(table)[i] == (table[m], seq![CharSet::FullSet.members()[m]]));
    } else {
        lemma_entry_exists(head, m);
        let i = choose|i: int|
            0 <= i < entries(head).len() && #[trigger] entries(head)[i] == (
                head[m],
                seq![CharSet::FullSet.members()[m]],
            );
        assert(head[m] == table[m]);
        assert(entries(table)[i] == entries(head)[i]);
    }
}

/// The blobs of two lists of lines, one after the other.
proof fn lemma_source_blobs_add(a: Seq<Seq<char>>, b: Seq<Seq<char>>)
    ensures
        source_blobs(a + b) == source_blobs(a) + source_blobs(b),
    decreases b.len(),
{
    if b.len() == 0 {
        assert(a + b =~= a);
        assert(source_blobs(a) + source_blobs(b) =~= source_blobs(a));
    } else {
        assert((a + b).drop_last() =~= a + b.drop_last());
        assert((a + b).last() == b.last());
        lemma_source_blobs_add(a, b.drop_last());
        assert(source_blobs(a + b) =~= source_blobs(a) + source_blobs(b));
    }
}

/// Where the blobs of a line stand among the blobs of all lines: behind
/// those of the lines before it.
proof fn lemma_source_blobs_at(lines: Seq<Seq<char>>, n: int, q: int)
    requires
        0 <= n < lines.len(),
        0 <= q < line_blobs(lines[n]).len(),
    ensures
        source_blobs(lines.take(n)).len() + line_blobs(lines[n]).len() <= source_blobs(
            lines,
        ).len(),
        source_blobs(lines)[source_blobs(lines.take(n)).len() + q] == line_blobs(lines[n])[q],
{
    let upto = lines.take(n + 1);
    assert(upto.drop_last() =~= lines.take(n));
    assert(upto.last() == lines[n]);
    assert(source_blobs(upto) == source_blobs(lines.take(n)) + line_blobs(lines[n]));
    assert(upto + lines.skip(n + 1) =~= lines);
    lemma_source_blobs_add(upto, lines.skip(n + 1));
}

/// The lines of the body, one by one.
proof fn lemma_body_lines_at(
    lines: Seq<Seq<char>>,
    table: Seq<Seq<char>>,
    names: Seq<Seq<char>>,
    n: int,
)
    requires
        0 <= n < lines.len(),
    ensures
        body_lines(lines, table, names).len() == lines.len(),
        body_lines(lines, table, names)[n] == line_rewrite(
            lines[n],
            table,
            names,
            source_blobs(lines.take(n)).len() as int,
        ).push('\n'),
    decreases lines.len(),
{
    let head = lines.drop_last();
    lemma_body_lines_len(lines, table, names);
    lemma_body_lines_len(head, table, names);
    if n == lines.len() - 1 {
        assert(lines.take(n) =~= head);
    } else {
        lemma_body_lines_at(head, table, names, n);
        assert(head.take(n) =~= lines.take(n));
        assert(head[n] == lines[n]);
    }
}

/// The body has as many lines as the source.
proof fn lemma_body_lines_len(lines: Seq<Seq<char>>, table: Seq<Seq<char>>, names: Seq<Seq<char>>)
    ensures
        body_lines(lines, table, names).len() == lines.len(),
    decreases lines.len(),
{
    if lines.len() > 0 {
        lemma_body_lines_len(lines.drop_last(), table, names);
    }
}

/// The variable table that an obfuscated script spells out reads every
/// name back: it is a table, it gives each substitutable character for
/// its name, and each blob for its name.
proof fn lemma_script_table(
    keyword: Seq<char>,
    space: Seq<char>,
    equals: Seq<char>,
    table: Seq<Seq<char>>,
    blob_names: Seq<Seq<char>>,
    blobs: Seq<Seq<char>>,
)
    requires
        is_scheme(keyword, space, equals, table, blob_names),
        blobs.len() == blob_names.len(),
    ensures
        is_table(entries(table) + blob_entries(blob_names, blobs)),
        reads_table(entries(table) + blob_entries(blob_names, blobs), table),
        reads_blobs(entries(table) + blob_entries(blob_names, blobs), blob_names, 0, blobs),
{
    let t = entries(table) + blob_entries(blob_names, blobs);
    let all = seq![keyword, space, equals] + issued(table) + blob_names;
    let n = entries(table).len() as int;
    lemma_entries_names(table);
    lemma_issued_names(table);
    lemma_full_set();
    assert forall|i: int| 0 <= i < t.len() implies (#[trigger] t[i]).0 == all[3 + i] && is_name(
        t[i].0,
    ) by {
        if i < n {
            assert(t[i] == entries(table)[i]);
            assert(is_name(issued(table)[i]));
        } else {
            assert(t[i] == blob_entries(blob_names, blobs)[i - n]);
            assert(is_name(blob_names[i - n]));
        }
    }
    assert(is_table(t)) by {
        assert forall|i: int, j: int| 0 <= i < j < t.len() implies (#[trigger] t[i]).0 != (
        #[trigger] t[j]).0 by {
            assert(t[i].0 == all[3 + i]);
            assert(t[j].0 == all[3 + j]);
        }
    }
    assert(reads_table(t, table)) by {
        assert forall|c: char| is_substitutable(c) implies is_name(
            #[trigger] table[full_set_index(c)],
        ) && lookup(t, table[full_set_index(c)]) == Some(seq![c]) by {
            let m = full_set_index(c);
            assert(CharSet::FullSet.members()[m] == c);
            lemma_entry_exists(table, m);
            let i = choose|i: int|
                0 <= i < entries(table).len() && #[trigger] entries(table)[i] == (
                    table[m],
                    seq![CharSet::FullSet.members()[m]],
                );
            assert(t[i] == entries(table)[i]);
            lemma_lookup_found(t, i);
            assert(is_name(table[m]));
        }
    }
    assert(reads_blobs(t, blob_names, 0, blobs)) by {
        assert forall|q: int| 0 <= q < blobs.len() implies is_name(#[trigger] blob_names[0 + q])
            && lookup(t, blob_names[0 + q]) == Some(blobs[q]) by {
            assert(t[n + q] == blob_entries(blob_names, blobs)[q]);
            lemma_lookup_found(t, n + q);
        }
    }
}

/// The texts without the character each of them ends with.
pub open spec fn plain_lines(bodies: Seq<Seq<char>>) -> Seq<Seq<char>> {
    bodies.map_values(|b: Seq<char>| b.drop_last())
}

/// Each text ends with a line feed and holds no other.
pub open spec fn are_lines(bodies: Seq<Seq<char>>) -> bool {
    forall|i: int|
        0 <= i < bodies.len() ==> {
            &&& (#[trigger] bodies[i]).len() > 0
            &&& bodies[i].last() == '\n'
            &&& free_of(bodies[i].drop_last(), '\n')
        }
}

/// Lines put one after another split into the lines, and nothing after
/// the last line feed.
proof fn lemma_split_body(bodies: Seq<Seq<char>>)
    requires
        are_lines(bodies),
    ensures
        split(concat(bodies), '\n') == plain_lines(bodies).push(Seq::<char>::empty()),
    decreases bodies.len(),
{
    let none = Seq::<char>::empty();
    if bodies.len() == 0 {
        assert(plain_lines(bodies).push(none) =~= seq![none]);
    } else {
        let head = bodies.drop_last();
        let last = bodies.last();
        assert(are_lines(head)) by {
            assert forall|i: int| 0 <= i < head.len() implies {
                &&& (#[trigger] head[i]).len() > 0
                &&& head[i].last() == '\n'
                &&& free_of(head[i].drop_last(), '\n')
            } by {
                assert(head[i] == bodies[i]);
            }
        }
        lemma_split_body(head);
        assert(bodies[bodies.len() - 1] == last);
        let line = last.drop_last();
        assert(!line.contains('\n'));
        lemma_split_whole(line, '\n');
        assert(line.push('\n') =~= last);
        assert(last.drop_last() == line);
        assert(split(last, '\n') == seq![line].push(none));
        lemma_split_add(concat(head), last, '\n');
        assert(none + line =~= line);
        let pa = split(concat(head), '\n');
        let pb = split(last, '\n');
        assert(pa.drop_last().push(pa.last() + pb[0]) + pb.drop_first() =~= plain_lines(
            bodies,
        ).push(none));
    }
}

/// A name holds nothing but letters.
proof fn lemma_name_free(name: Seq<char>, c: char)
    requires
        all_letters(name),
        !is_letter(c),
    ensures
        free_of(name, c),
{
    assert forall|i: int| 0 <= i < name.len() implies #[trigger] name[i] != c by {
        assert(is_letter(name[i]));
    }
}

/// The blobs of a line hold one character or two, taken from the line.
proof fn lemma_blobs_chars(line: Seq<char>, i: int, c: char)
    requires
        0 <= i,
        free_of(line, c),
    ensures
        all_free_of(blobs_from(line, i), c),
        forall|q: int|
            0 <= q < blobs_from(line, i).len() ==> (#[trigger] blobs_from(line, i)[q]).len() > 0,
    decreases line.len() - i,
{
    if i < line.len() {
        if line[i] == '%' {
            let step = blob_at(line, i).len() as int;
            lemma_blobs_chars(line, i + step, c);
            let later = blobs_from(line, i + step);
            let b = blob_at(line, i);
            assert(free_of(b, c)) by {
                assert forall|m: int| 0 <= m < b.len() implies #[trigger] b[m] != c by {
                    assert(b[m] == line[i + m]);
                }
            }
            assert forall|q: int| 0 <= q < blobs_from(line, i).len() implies free_of(
                #[trigger] blobs_from(line, i)[q],
                c,
            ) && blobs_from(line, i)[q].len() > 0 by {
                if q > 0 {
                    assert(blobs_from(line, i)[q] == later[q - 1]);
                }
            }
        } else {
            lemma_blobs_chars(line, i + 1, c);
        }
    }
}

/// The blobs of a source hold one character or two, and no line feed.
proof fn lemma_source_blobs_chars(lines: Seq<Seq<char>>)
    requires
        all_free_of(lines, '\n'),
    ensures
        all_free_of(source_blobs(lines), '\n'),
        forall|q: int|
            0 <= q < source_blobs(lines).len() ==> (#[trigger] source_blobs(lines)[q]).len() > 0,
    decreases lines.len(),
{
    if lines.len() > 0 {
        let head = lines.drop_last();
        assert(all_free_of(head, '\n')) by {
            assert forall|i: int| 0 <= i < head.len() implies free_of(#[trigger] head[i], '\n') by {
                assert(head[i] == lines[i]);
            }
        }
        lemma_source_blobs_chars(head);
        assert(free_of(lines[lines.len() - 1], '\n'));
        lemma_blobs_chars(lines.last(), 0, '\n');
        let a = source_blobs(head);
        let b = line_blobs(lines.last());
        assert forall|q: int| 0 <= q < source_blobs(lines).len() implies free_of(
            #[trigger] source_blobs(lines)[q],
            '\n',
        ) && source_blobs(lines)[q].len() > 0 by {
            if q < a.len() {
                assert(source_blobs(lines)[q] == a[q]);
            } else {
                assert(source_blobs(lines)[q] == b[q - a.len()]);
            }
        }
    }
}

/// A character that may stand in a rewritten line: the delimiter, a
/// letter, or a bad character.
pub open spec fn is_body_char(c: char) -> bool {
    c == '%' || is_letter(c) || is_bad_char(c)
}

/// A rewritten line holds delimiters, letters and bad characters only,
/// and no line feed where the line holds none. It is empty only where
/// nothing is left of the line.
proof fn lemma_rewrite_chars(
    line: Seq<char>,
    i: int,
    table: Seq<Seq<char>>,
    names: Seq<Seq<char>>,
    j: int,
)
    requires
        0 <= i <= line.len(),
        0 <= j,
        j + blobs_from(line, i).len() <= names.len(),
        free_of(line, '\n'),
        forall|m: int| 0 <= m < line.len() ==> is_extended(#[trigger] line[m]),
        forall|c: char| is_substitutable(c) ==> is_name(#[trigger] table[full_set_index(c)]),
        forall|q: int| 0 <= q < names.len() ==> is_name(#[trigger] names[q]),
    ensures
        free_of(rewrite_from(line, i, table, names, j), '\n'),
        forall|m: int|
            0 <= m < rewrite_from(line, i, table, names, j).len() ==> is_body_char(
                #[trigger] rewrite_from(line, i, table, names, j)[m],
            ),
        i < line.len() ==> rewrite_from(line, i, table, names, j).len() > 0,
    decreases line.len() - i,
{
    let w = rewrite_from(line, i, table, names, j);
    if i < line.len() {
        if line[i] == '%' {
            let step = blob_at(line, i).len() as int;
            assert(blobs_from(line, i) == seq![blob_at(line, i)] + blobs_from(line, i + step));
            lemma_rewrite_chars(line, i + step, table, names, j + 1);
            let w2 = rewrite_from(line, i + step, table, names, j + 1);
            let name = names[j];
            assert(is_name(names[j]));
            let r = reference(name);
            assert forall|m: int| 0 <= m < w.len() implies #[trigger] w[m] != '\n'
                && is_body_char(w[m]) by {
                if m < r.len() {
                    assert(w[m] == r[m]);
                    if 0 < m < r.len() - 1 {
                        assert(r[m] == name[m - 1]);
                        assert(is_letter(name[m - 1]));
                    }
                } else {
                    assert(w[m] == w2[m - r.len()]);
                }
            }
        } else {
            let c = line[i];
            assert(blobs_from(line, i) == blobs_from(line, i + 1));
            lemma_rewrite_chars(line, i + 1, table, names, j);
            let w2 = rewrite_from(line, i + 1, table, names, j);
            let u = unit(c, table);
            assert(is_extended(line[i]));
            assert(line[i] != '\n');
            assert forall|m: int| 0 <= m < w.len() implies #[trigger] w[m] != '\n'
                && is_body_char(w[m]) by {
                if m < u.len() {
                    assert(w[m] == u[m]);
                    if is_substitutable(c) {
                        let name = table[full_set_index(c)];
                        assert(is_name(name));
                        if 0 < m < u.len() - 1 {
                            assert(u[m] == name[m - 1]);
                            assert(is_letter(name[m - 1]));
                        }
                    }
                } else {
                    assert(w[m] == w2[m - u.len()]);
                }
            }
        }
    }
}

/// A line that differs from `prefix` at one place is not made of it.
proof fn lemma_enclosed_differs(line: Seq<char>, prefix: Seq<char>, suffix: Seq<char>, at: int)
    requires
        0 <= at < prefix.len(),
        at >= line.len() || line[at] != prefix[at],
    ensures
        enclosed(line, prefix, suffix) is None,
        !starts_with(line, prefix),
{
    if starts_with(line, prefix) {
        assert(line.subrange(0, prefix.len() as int)[at] == line[at]);
    }
}

/// Lines that are not made of `prefix` and `suffix` are passed over.
proof fn lemma_first_enclosed_skip(
    a: Seq<Seq<char>>,
    b: Seq<Seq<char>>,
    prefix: Seq<char>,
    suffix: Seq<char>,
)
    requires
        forall|i: int| 0 <= i < a.len() ==> enclosed(#[trigger] a[i], prefix, suffix) is None,
    ensures
        first_enclosed(a + b, prefix, suffix) == first_enclosed(b, prefix, suffix),
    decreases a.len(),
{
    if a.len() == 0 {
        assert(a + b =~= b);
    } else {
        assert((a + b)[0] == a[0]);
        assert((a + b).drop_first() =~= a.drop_first() + b);
        assert forall|i: int| 0 <= i < a.drop_first().len() implies enclosed(
            #[trigger] a.drop_first()[i],
            prefix,
            suffix,
        ) is None by {
            assert(a.drop_first()[i] == a[i + 1]);
        }
        lemma_first_enclosed_skip(a.drop_first(), b, prefix, suffix);
    }
}

/// The definitions of two lists of lines, one after the other.
proof fn lemma_definitions_add(
    a: Seq<Seq<char>>,
    b: Seq<Seq<char>>,
    keyword: Seq<char>,
    space: Seq<char>,
    equals: Seq<char>,
)
    ensures
        definitions_of(a + b, keyword, space, equals) == definitions_of(a, keyword, space, equals)
            + definitions_of(b, keyword, space, equals),
    decreases b.len(),
{
    if b.len() == 0 {
        assert(a + b =~= a);
        assert(definitions_of(a, keyword, space, equals) + definitions_of(
            b,
            keyword,
            space,
            equals,
        ) =~= definitions_of(a, keyword, space, equals));
    } else {
        assert((a + b).drop_last() =~= a + b.drop_last());
        assert((a + b).last() == b.last());
        lemma_definitions_add(a, b.drop_last(), keyword, space, equals);
        assert(definitions_of(a + b, keyword, space, equals) =~= definitions_of(
            a,
            keyword,
            space,
            equals,
        ) + definitions_of(b, keyword, space, equals));
    }
}

/// Lines that are no definition statements define nothing.
proof fn lemma_definitions_none(
    a: Seq<Seq<char>>,
    keyword: Seq<char>,
    space: Seq<char>,
    equals: Seq<char>,
)
    requires
        forall|i: int|
            0 <= i < a.len() ==> definition_of(#[trigger] a[i], keyword, space, equals) is None,
    ensures
        definitions_of(a, keyword, space, equals) == Seq::<(Seq<char>, Seq<char>)>::empty(),
    decreases a.len(),
{
    if a.len() > 0 {
        assert forall|i: int| 0 <= i < a.drop_last().len() implies definition_of(
            #[trigger] a.drop_last()[i],
            keyword,
            space,
            equals,
        ) is None by {
            assert(a.drop_last()[i] == a[i]);
        }
        lemma_definitions_none(a.drop_last(), keyword, space, equals);
        assert(a.last() == a[a.len() - 1]);
    }
}

/// A definition statement holds the keyword alias.
proof fn lemma_definition_holds_keyword(
    line: Seq<char>,
    keyword: Seq<char>,
    space: Seq<char>,
    equals: Seq<char>,
)
    requires
        starts_with(line, equals_open(keyword, space)),
    ensures
        contains(line, keyword),
{
    let prefix = equals_open(keyword, space);
    assert(prefix.subrange(1, 1 + keyword.len() as int) =~= keyword);
    assert(line.subrange(1, 1 + keyword.len() as int) =~= line.subrange(
        0,
        prefix.len() as int,
    ).subrange(1, 1 + keyword.len() as int));
    assert(occurs_at(line, keyword, 1));
}

/// The definition statements of a table of names define its entries.
proof fn lemma_definitions_alphabet(
    keyword: Seq<char>,
    space: Seq<char>,
    equals: Seq<char>,
    table: Seq<Seq<char>>,
)
    requires
        forall|i: int|
            0 <= i < table.len() && !is_bad_char(CharSet::FullSet.members()[i]) ==> is_name(
                #[trigger] table[i],
            ),
    ensures
        definitions_of(alphabet_lines(keyword, space, equals, table), keyword, space, equals)
            == entries(table),
    decreases table.len(),
{
    if table.len() > 0 {
        let head = table.drop_last();
        assert forall|i: int|
            0 <= i < head.len() && !is_bad_char(CharSet::FullSet.members()[i]) implies is_name(
            #[trigger] head[i],
        ) by {
            assert(head[i] == table[i]);
        }
        lemma_definitions_alphabet(keyword, space, equals, head);
        let c = CharSet::FullSet.members()[table.len() - 1];
        if !is_bad_char(c) {
            assert(is_name(table[table.len() - 1]));
            let line = definition_line(keyword, space, table.last(), equals, seq![c]);
            let lines = alphabet_lines(keyword, space, equals, head).push(line);
            assert(alphabet_lines(keyword, space, equals, table) == lines);
            assert(lines.drop_last() =~= alphabet_lines(keyword, space, equals, head));
            lemma_definition_made(keyword, space, table.last(), equals, seq![c]);
        }
    }
}

/// The definition statements of the blobs define the blobs.
proof fn lemma_definitions_blobs(
    keyword: Seq<char>,
    space: Seq<char>,
    equals: Seq<char>,
    names: Seq<Seq<char>>,
    blobs: Seq<Seq<char>>,
)
    requires
        blobs.len() <= names.len(),
        forall|j: int| 0 <= j < names.len() ==> is_name(#[trigger] names[j]),
        forall|j: int| 0 <= j < blobs.len() ==> (#[trigger] blobs[j]).len() > 0,
    ensures
        definitions_of(blob_lines(keyword, space, equals, names, blobs), keyword, space, equals)
            == blob_entries(names, blobs),
    decreases blobs.len(),
{
    let lines = blob_lines(keyword, space, equals, names, blobs);
    if blobs.len() == 0 {
        assert(blob_entries(names, blobs) =~= Seq::<(Seq<char>, Seq<char>)>::empty());
    } else {
        let head = blobs.drop_last();
        assert forall|j: int| 0 <= j < head.len() implies (#[trigger] head[j]).len() > 0 by {
            assert(head[j] == blobs[j]);
        }
        lemma_definitions_blobs(keyword, space, equals, names, head);
        assert(lines.drop_last() =~= blob_lines(keyword, space, equals, names, head));
        let j = blobs.len() - 1;
        assert(is_name(names[j]));
        assert(blobs[j].len() > 0);
        lemma_definition_made(keyword, space, names[j], equals, blobs[j]);
        assert(blob_entries(names, blobs) =~= blob_entries(names, head).push(
            (names[j], blobs[j]),
        ));
    }
}

/// What two lists of lines are restored as, one after the other.
proof fn lemma_restored_add(
    a: Seq<Seq<char>>,
    b: Seq<Seq<char>>,
    keyword: Seq<char>,
    space: Seq<char>,
    equals: Seq<char>,
    t: Seq<(Seq<char>, Seq<char>)>,
)
    ensures
        restored_lines(a + b, keyword, space, equals, t) == restored_lines(
            a,
            keyword,
            space,
            equals,
            t,
        ) + restored_lines(b, keyword, space, equals, t),
    decreases b.len(),
{
    if b.len() == 0 {
        assert(a + b =~= a);
        assert(restored_lines(a, keyword, space, equals, t) + restored_lines(
            b,
            keyword,
            space,
            equals,
            t,
        ) =~= restored_lines(a, keyword, space, equals, t));
    } else {
        assert((a + b).drop_last() =~= a + b.drop_last());
        assert((a + b).last() == b.last());
        lemma_restored_add(a, b.drop_last(), keyword, space, equals, t);
        assert(restored_lines(a + b, keyword, space, equals, t) =~= restored_lines(
            a,
            keyword,
            space,
            equals,
            t,
        ) + restored_lines(b, keyword, space, equals, t));
    }
}

/// Lines that are no lines of the body are restored as nothing.
proof fn lemma_restored_none(
    a: Seq<Seq<char>>,
    keyword: Seq<char>,
    space: Seq<char>,
    equals: Seq<char>,
    t: Seq<(Seq<char>, Seq<char>)>,
)
    requires
        forall|i: int| 0 <= i < a.len() ==> !is_body_line(#[trigger] a[i], keyword, space, equals),
    ensures
        restored_lines(a, keyword, space, equals, t) == Seq::<Seq<char>>::empty(),
    decreases a.len(),
{
    if a.len() > 0 {
        assert forall|i: int| 0 <= i < a.drop_last().len() implies !is_body_line(
            #[trigger] a.drop_last()[i],
            keyword,
            space,
            equals,
        ) by {
            assert(a.drop_last()[i] == a[i]);
        }
        lemma_restored_none(a.drop_last(), keyword, space, equals, t);
        assert(a.last() == a[a.len() - 1]);
    }
}

/// Rewritten lines that are read back one by one are read back together.
proof fn lemma_restored_rewritten(
    lines: Seq<Seq<char>>,
    rewritten: Seq<Seq<char>>,
    keyword: Seq<char>,
    space: Seq<char>,
    equals: Seq<char>,
    t: Seq<(Seq<char>, Seq<char>)>,
)
    requires
        rewritten.len() == lines.len(),
        forall|n: int|
            0 <= n < lines.len() ==> {
                &&& is_body_line(#[trigger] rewritten[n], keyword, space, equals)
                &&& decode_line(rewritten[n], t) == lines[n]
            },
    ensures
        restored_lines(rewritten, keyword, space, equals, t) == lines,
    decreases lines.len(),
{
    if lines.len() > 0 {
        let n = lines.len() - 1;
        assert forall|m: int| 0 <= m < lines.drop_last().len() implies {
            &&& is_body_line(#[trigger] rewritten.drop_last()[m], keyword, space, equals)
            &&& decode_line(rewritten.drop_last()[m], t) == lines.drop_last()[m]
        } by {
            assert(rewritten.drop_last()[m] == rewritten[m]);
            assert(lines.drop_last()[m] == lines[m]);
        }
        lemma_restored_rewritten(
            lines.drop_last(),
            rewritten.drop_last(),
            keyword,
            space,
            equals,
            t,
        );
        assert(rewritten.last() == rewritten[n]);
        assert(lines.last() == lines[n]);
        assert(lines.drop_last().push(lines[n]) =~= lines);
    } else {
        assert(lines =~= Seq::<Seq<char>>::empty());
    }
}

/// Two lists of texts, neither of them empty, joined one after the other.
proof fn lemma_join_add(a: Seq<Seq<char>>, b: Seq<Seq<char>>, sep: char)
    requires
        a.len() >= 1,
        b.len() >= 1,
    ensures
        join(a + b, sep) == join(a, sep).push(sep) + join(b, sep),
    decreases b.len(),
{
    assert((a + b).drop_last() =~= a + b.drop_last());
    assert((a + b).last() == b.last());
    if b.len() == 1 {
        assert(a + b.drop_last() =~= a);
        assert(join(b, sep) == b[0]);
    } else {
        lemma_join_add(a, b.drop_last(), sep);
        assert(join(a + b, sep) =~= join(a, sep).push(sep) + join(b, sep));
    }
}

/// The characters of the pieces of a text are characters of the text.
proof fn lemma_split_pieces_extended(s: Seq<char>, sep: char)
    requires
        forall|i: int| 0 <= i < s.len() ==> is_extended(#[trigger] s[i]),
    ensures
        forall|n: int, m: int|
            0 <= n < split(s, sep).len() && 0 <= m < split(s, sep)[n].len() ==> is_extended(
                #[trigger] split(s, sep)[n][m],
            ),
    decreases s.len(),
{
    if s.len() > 0 {
        let head = s.drop_last();
        assert forall|i: int| 0 <= i < head.len() implies is_extended(#[trigger] head[i]) by {
            assert(head[i] == s[i]);
        }
        lemma_split_pieces_extended(head, sep);
        lemma_split_nonempty(head, sep);
        let ph = split(head, sep);
        assert(is_extended(s[s.len() - 1]));
        assert forall|n: int, m: int|
            0 <= n < split(s, sep).len() && 0 <= m < split(s, sep)[n].len() implies is_extended(
            #[trigger] split(s, sep)[n][m],
        ) by {
            if n < ph.len() - 1 {
                assert(split(s, sep)[n] == ph[n]);
                assert(is_extended(ph[n][m]));
            } else if n == ph.len() - 1 {
                if m < ph[n].len() {
                    assert(split(s, sep)[n][m] == ph[n][m]);
                    assert(is_extended(ph[n][m]));
                }
            }
        }
    }
}

/// The watermarks open with a colon and hold no line feed.
proof fn lemma_watermarks()
    ensures
        WATERMARK_ORIGIN@.len() > 0,
        WATERMARK_ORIGIN@[0] == ':',
        free_of(WATERMARK_ORIGIN@, '\n'),
        WATERMARK_REVERSAL@.len() > 0,
        WATERMARK_REVERSAL@[0] == ':',
        free_of(WATERMARK_REVERSAL@, '\n'),
{
    reveal_strlit(
        ":: VGhpcyBmaWxlIHdhcyBvYmZ1c2NhdGVkIHZpYSBodHRwczovL2dpdGh1Yi5jb20vMHhUYXMvMHhpZGl6M3I=",
    );
    reveal_strlit(
        ":: VGhpcyBmaWxlIGNhbiBiZSBwcm9ncmFtYXRpY2FsbHkgZGVvYmZ1c2NhdGVkIHZpYSBodHRwczovL2dpdGh1Yi5jb20vMHhUYXMvMHhpZGl6M3I=",
    );
}

/// The line of the body that the `n`-th line of the source becomes,
/// without the line feed that ends it.
pub open spec fn rewritten_line(
    lines: Seq<Seq<char>>,
    table: Seq<Seq<char>>,
    blob_names: Seq<Seq<char>>,
    n: int,
) -> Seq<char> {
    line_rewrite(lines[n], table, blob_names, source_blobs(lines.take(n)).len() as int)
}

/// None of the three aliases stands in a line of the body.
pub open spec fn body_is_clear(
    lines: Seq<Seq<char>>,
    keyword: Seq<char>,
    space: Seq<char>,
    equals: Seq<char>,
    table: Seq<Seq<char>>,
    blob_names: Seq<Seq<char>>,
) -> bool {
    forall|n: int|
        0 <= n < lines.len() ==> {
            let r = #[trigger] rewritten_line(lines, table, blob_names, n);
            !contains(r, keyword) && !contains(r, space) && !contains(r, equals)
        }
}

/// What the proof asks of a source and of the names it is written with.
pub open spec fn is_readable(
    src: Seq<char>,
    keyword: Seq<char>,
    space: Seq<char>,
    equals: Seq<char>,
    table: Seq<Seq<char>>,
    blob_names: Seq<Seq<char>>,
) -> bool {
    let lines = split(src, '\n');
    &&& is_scheme(keyword, space, equals, table, blob_names)
    &&& blob_names.len() == source_blobs(lines).len()
    &&& forall|i: int| 0 <= i < src.len() ==> is_extended(#[trigger] src[i])
    &&& !has_opaque_line(lines)
    &&& body_is_clear(lines, keyword, space, equals, table, blob_names)
}

/// The variable table that the script of a source spells out.
pub open spec fn script_table(src: Seq<char>, table: Seq<Seq<char>>, blob_names: Seq<Seq<char>>) -> Seq<
    (Seq<char>, Seq<char>),
> {
    entries(table) + blob_entries(blob_names, source_blobs(split(src, '\n')))
}

/// The lines of the script of a source.
pub open spec fn script_lines(
    src: Seq<char>,
    echo: bool,
    keyword: Seq<char>,
    space: Seq<char>,
    equals: Seq<char>,
    table: Seq<Seq<char>>,
    blob_names: Seq<Seq<char>>,
) -> Seq<Seq<char>> {
    let lines = split(src, '\n');
    header_lines(echo, keyword, space, equals) + alphabet_lines(keyword, space, equals, table)
        + blob_lines(keyword, space, equals, blob_names, source_blobs(lines)) + plain_lines(
        body_lines(lines, table, blob_names),
    ) + seq![Seq::<char>::empty(), WATERMARK_ORIGIN@, WATERMARK_REVERSAL@]
}

/// What holds of each line of the body of a readable source: it is the
/// rewritten line, it holds no line feed and no watermark, it is empty
/// exactly where the line of the source is, and it is read back as that line.
proof fn lemma_body_line(
    src: Seq<char>,
    keyword: Seq<char>,
    space: Seq<char>,
    equals: Seq<char>,
    table: Seq<Seq<char>>,
    blob_names: Seq<Seq<char>>,
    n: int,
)
    requires
        is_readable(src, keyword, space, equals, table, blob_names),
        0 <= n < split(src, '\n').len(),
    ensures
        ({
            let lines = split(src, '\n');
            let bodies = body_lines(lines, table, blob_names);
            let r = rewritten_line(lines, table, blob_names, n);
            &&& bodies.len() == lines.len()
            &&& bodies[n] == r.push('\n')
            &&& plain_lines(bodies)[n] == r
            &&& free_of(r, '\n')
            &&& !contains(r, WATERMARK_ORIGIN@)
            &&& !contains(r, WATERMARK_REVERSAL@)
            &&& !contains(r, keyword)
            &&& !contains(r, space)
            &&& !contains(r, equals)
            &&& is_body_line(r, keyword, space, equals)
            &&& decode_line(r, script_table(src, table, blob_names)) == lines[n]
        }),
{
    let lines = split(src, '\n');
    let blobs = source_blobs(lines);
    let t = script_table(src, table, blob_names);
    let bodies = body_lines(lines, table, blob_names);
    let line = lines[n];
    let j = source_blobs(lines.take(n)).len() as int;
    let r = rewritten_line(lines, table, blob_names, n);
    lemma_body_lines_at(lines, table, blob_names, n);
    assert(r.push('\n').drop_last() =~= r);
    assert(!is_opaque(lines[n]));
    assert(r == rewrite_from(line, 0, table, blob_names, j));
    assert(line_blobs(line) == blobs_from(line, 0));
    lemma_split_pieces_free(src, '\n');
    assert(free_of(lines[n], '\n'));
    lemma_split_pieces_extended(src, '\n');
    assert forall|m: int| 0 <= m < line.len() implies is_extended(#[trigger] line[m]) by {
        assert(is_extended(lines[n][m]));
    }
    lemma_script_table(keyword, space, equals, table, blob_names, blobs);
    lemma_source_blobs_prefix(lines, n);
    let upto = lines.take(n + 1);
    assert(upto.drop_last() =~= lines.take(n));
    assert(upto.last() == lines[n]);
    lemma_source_blobs_prefix(lines, n + 1);
    assert(j + line_blobs(line).len() <= blob_names.len());
    assert(reads_blobs(t, blob_names, j, blobs_from(line, 0))) by {
        assert forall|q: int| 0 <= q < blobs_from(line, 0).len() implies is_name(
            #[trigger] blob_names[j + q],
        ) && lookup(t, blob_names[j + q]) == Some(blobs_from(line, 0)[q]) by {
            lemma_source_blobs_at(lines, n, q);
            assert(is_name(blob_names[0 + (j + q)]) && lookup(t, blob_names[0 + (j + q)])
                == Some(blobs[j + q]));
        }
    }
    lemma_rewrite_chars(line, 0, table, blob_names, j);
    lemma_rewrite_read_back(line, 0, table, blob_names, j, t);
    assert(line.skip(0) =~= line);
    lemma_watermarks();
    assert(!contains(r, WATERMARK_ORIGIN@)) by {
        if contains(r, WATERMARK_ORIGIN@) {
            let at = choose|at: int| occurs_at(r, WATERMARK_ORIGIN@, at);
            assert(r.subrange(at, at + WATERMARK_ORIGIN@.len())[0] == r[at]);
            assert(is_body_char(r[at]));
        }
    }
    assert(!contains(r, WATERMARK_REVERSAL@)) by {
        if contains(r, WATERMARK_REVERSAL@) {
            let at = choose|at: int| occurs_at(r, WATERMARK_REVERSAL@, at);
            assert(r.subrange(at, at + WATERMARK_REVERSAL@.len())[0] == r[at]);
            assert(is_body_char(r[at]));
        }
    }
}

/// The definition statements of a scheme open with the two aliases and
/// hold no line feed.
proof fn lemma_alphabet_lines_shape(
    keyword: Seq<char>,
    space: Seq<char>,
    equals: Seq<char>,
    table: Seq<Seq<char>>,
)
    requires
        is_name(keyword),
        is_name(space),
        is_name(equals),
        table.len() <= 97,
        forall|i: int|
            0 <= i < table.len() && !is_bad_char(CharSet::FullSet.members()[i]) ==> is_name(
                #[trigger] table[i],
            ),
    ensures
        all_free_of(alphabet_lines(keyword, space, equals, table), '\n'),
        forall|i: int|
            0 <= i < alphabet_lines(keyword, space, equals, table).len() ==> starts_with(
                #[trigger] alphabet_lines(keyword, space, equals, table)[i],
                equals_open(keyword, space),
            ),
    decreases table.len(),
{
    if table.len() > 0 {
        let head = table.drop_last();
        assert forall|i: int|
            0 <= i < head.len() && !is_bad_char(CharSet::FullSet.members()[i]) implies is_name(
            #[trigger] head[i],
        ) by {
            assert(head[i] == table[i]);
        }
        lemma_alphabet_lines_shape(keyword, space, equals, head);
        let all = alphabet_lines(keyword, space, equals, table);
        let before = alphabet_lines(keyword, space, equals, head);
        let c = CharSet::FullSet.members()[table.len() - 1];
        if !is_bad_char(c) {
            assert(is_name(table[table.len() - 1]));
            lemma_definition_line_shape(keyword, space, table.last(), equals, seq![c]);
            assert forall|i: int| 0 <= i < all.len() implies free_of(#[trigger] all[i], '\n')
                && starts_with(all[i], equals_open(keyword, space)) by {
                if i < before.len() {
                    assert(all[i] == before[i]);
                }
            }
        }
    }
}

/// A definition statement opens with the two aliases, and holds no line
/// feed where its value holds none.
proof fn lemma_definition_line_shape(
    keyword: Seq<char>,
    space: Seq<char>,
    name: Seq<char>,
    equals: Seq<char>,
    value: Seq<char>,
)
    requires
        is_name(keyword),
        is_name(space),
        is_name(equals),
        is_name(name),
        free_of(value, '\n'),
    ensures
        free_of(definition_line(keyword, space, name, equals, value), '\n'),
        starts_with(definition_line(keyword, space, name, equals, value), equals_open(keyword, space)),
{
    let line = definition_line(keyword, space, name, equals, value);
    let prefix = equals_open(keyword, space);
    lemma_name_free(keyword, '\n');
    lemma_name_free(space, '\n');
    lemma_name_free(equals, '\n');
    lemma_name_free(name, '\n');
    assert(line.subrange(0, prefix.len() as int) =~= prefix);
    assert(free_of(reference(keyword), '\n'));
    assert(free_of(reference(space), '\n'));
    assert(free_of(reference(equals), '\n'));
    assert(free_of(prefix, '\n'));
    assert(free_of(prefix + name, '\n'));
    assert(free_of(prefix + name + reference(equals), '\n'));
}

/// The definition statements of the blobs open with the two aliases and
/// hold no line feed.
proof fn lemma_blob_lines_shape(
    keyword: Seq<char>,
    space: Seq<char>,
    equals: Seq<char>,
    names: Seq<Seq<char>>,
    blobs: Seq<Seq<char>>,
)
    requires
        is_name(keyword),
        is_name(space),
        is_name(equals),
        blobs.len() <= names.len(),
        forall|j: int| 0 <= j < names.len() ==> is_name(#[trigger] names[j]),
        all_free_of(blobs, '\n'),
    ensures
        all_free_of(blob_lines(keyword, space, equals, names, blobs), '\n'),
        forall|i: int|
            0 <= i < blob_lines(keyword, space, equals, names, blobs).len() ==> starts_with(
                #[trigger] blob_lines(keyword, space, equals, names, blobs)[i],
                equals_open(keyword, space),
            ),
{
    let all = blob_lines(keyword, space, equals, names, blobs);
    assert forall|i: int| 0 <= i < all.len() implies free_of(#[trigger] all[i], '\n')
        && starts_with(all[i], equals_open(keyword, space)) by {
        assert(is_name(names[i]));
        assert(free_of(blobs[i], '\n'));
        lemma_definition_line_shape(keyword, space, names[i], equals, blobs[i]);
    }
}

/// The three statements that define the aliases hold no line feed, and
/// each holds the keyword alias.
proof fn lemma_anchor_lines_shape(keyword: Seq<char>, space: Seq<char>, equals: Seq<char>)
    requires
        is_name(keyword),
        is_name(space),
        is_name(equals),
    ensures
        free_of(keyword_line(keyword), '\n'),
        free_of(space_line(keyword, space), '\n'),
        free_of(equals_line(keyword, space, equals), '\n'),
        contains(keyword_line(keyword), keyword),
        contains(space_line(keyword, space), keyword),
        contains(equals_line(keyword, space, equals), keyword),
{
    lemma_name_free(keyword, '\n');
    lemma_name_free(space, '\n');
    lemma_name_free(equals, '\n');
    assert(free_of(reference(keyword), '\n'));
    assert(free_of(reference(space), '\n'));
    assert(free_of(keyword_open() + keyword, '\n'));
    assert(free_of(space_open(keyword), '\n'));
    assert(free_of(space_open(keyword) + space, '\n'));
    assert(free_of(equals_open(keyword, space), '\n'));
    assert(free_of(equals_open(keyword, space) + equals, '\n'));
    let a = keyword_line(keyword);
    assert(a.subrange(4, 4 + keyword.len() as int) =~= keyword);
    assert(occurs_at(a, keyword, 4));
    let b = space_line(keyword, space);
    assert(b.subrange(1, 1 + keyword.len() as int) =~= keyword);
    assert(occurs_at(b, keyword, 1));
    let c = equals_line(keyword, space, equals);
    assert(c.subrange(1, 1 + keyword.len() as int) =~= keyword);
    assert(occurs_at(c, keyword, 1));
}

/// None of the three aliases stands inside `name`.
pub open spec fn is_clear(name: Seq<char>, keyword: Seq<char>, space: Seq<char>, equals: Seq<char>) -> bool {
    !contains(name, keyword) && !contains(name, space) && !contains(name, equals)
}

/// None of the three aliases stands inside a name of the table or of a blob.
pub open spec fn names_are_clear(
    keyword: Seq<char>,
    space: Seq<char>,
    equals: Seq<char>,
    table: Seq<Seq<char>>,
    blob_names: Seq<Seq<char>>,
) -> bool {
    &&& forall|c: char|
        is_substitutable(c) ==> is_clear(#[trigger] table[full_set_index(c)], keyword, space, equals)
    &&& forall|j: int|
        0 <= j < blob_names.len() ==> is_clear(#[trigger] blob_names[j], keyword, space, equals)
}

/// Where a name stands in two texts put together, and the first text ends
/// with a character that is no letter, the name stands in one of the two.
proof fn lemma_occurs_in_one(first: Seq<char>, second: Seq<char>, name: Seq<char>, at: int)
    requires
        first.len() > 0,
        !is_letter(first.last()),
        all_letters(name),
        occurs_at(first + second, name, at),
    ensures
        (at + name.len() <= first.len() && occurs_at(first, name, at)) || (at >= first.len()
            && occurs_at(second, name, at - first.len())),
{
    let all = first + second;
    let found = all.subrange(at, at + name.len());
    if at + name.len() <= first.len() {
        assert(first.subrange(at, at + name.len()) =~= found);
    } else if at >= first.len() {
        assert(second.subrange(at - first.len(), at - first.len() + name.len()) =~= found);
    } else {
        let m = first.len() - 1 - at;
        assert(found[m] == all[first.len() - 1]);
        assert(is_letter(name[m]));
    }
}

/// A name that stands in a reference stands in the name that is referred to.
proof fn lemma_occurs_in_reference(inner: Seq<char>, name: Seq<char>, at: int)
    requires
        name.len() > 0,
        all_letters(name),
        occurs_at(reference(inner), name, at),
    ensures
        contains(inner, name),
{
    let r = reference(inner);
    let found = r.subrange(at, at + name.len());
    assert(is_letter(name[0]));
    assert(found[0] == r[at]);
    assert(at >= 1);
    assert(is_letter(name[name.len() - 1]));
    assert(found[name.len() - 1] == r[at + name.len() - 1]);
    assert(at + name.len() <= r.len() - 1);
    assert(inner.subrange(at - 1, at - 1 + name.len()) =~= found);
    assert(occurs_at(inner, name, at - 1));
}

/// A name that stands in none of the names a line is rewritten with does
/// not stand in the rewritten line.
proof fn lemma_rewrite_is_clear(
    line: Seq<char>,
    i: int,
    table: Seq<Seq<char>>,
    names: Seq<Seq<char>>,
    j: int,
    alias: Seq<char>,
)
    requires
        0 <= i <= line.len(),
        0 <= j,
        j + blobs_from(line, i).len() <= names.len(),
        is_name(alias),
        forall|m: int| 0 <= m < line.len() ==> is_extended(#[trigger] line[m]),
        forall|c: char| is_substitutable(c) ==> !contains(#[trigger] table[full_set_index(c)], alias),
        forall|q: int| 0 <= q < names.len() ==> !contains(#[trigger] names[q], alias),
    ensures
        !contains(rewrite_from(line, i, table, names, j), alias),
    decreases line.len() - i,
{
    let w = rewrite_from(line, i, table, names, j);
    if contains(w, alias) {
        let at = choose|at: int| occurs_at(w, alias, at);
        if i >= line.len() {
            assert(w.len() == 0);
        } else if line[i] == '%' {
            let step = blob_at(line, i).len() as int;
            assert(blobs_from(line, i) == seq![blob_at(line, i)] + blobs_from(line, i + step));
            lemma_rewrite_is_clear(line, i + step, table, names, j + 1, alias);
            let first = reference(names[j]);
            let second = rewrite_from(line, i + step, table, names, j + 1);
            assert(first.last() == '%');
            lemma_occurs_in_one(first, second, alias, at);
            if at + alias.len() <= first.len() {
                lemma_occurs_in_reference(names[j], alias, at);
            }
        } else {
            let c = line[i];
            assert(blobs_from(line, i) == blobs_from(line, i + 1));
            lemma_rewrite_is_clear(line, i + 1, table, names, j, alias);
            let first = unit(c, table);
            let second = rewrite_from(line, i + 1, table, names, j);
            assert(is_extended(line[i]));
            if is_substitutable(c) {
                assert(first.last() == '%');
                lemma_occurs_in_one(first, second, alias, at);
                if at + alias.len() <= first.len() {
                    lemma_occurs_in_reference(table[full_set_index(c)], alias, at);
                }
            } else {
                assert(first.last() == c);
                assert(is_bad_char(c));
                lemma_occurs_in_one(first, second, alias, at);
                if at + alias.len() <= first.len() {
                    assert(first.subrange(at, at + alias.len())[0] == first[at]);
                    assert(is_letter(alias[0]));
                }
            }
        }
    }
}

/// Where none of the three aliases stands inside another name, none of
/// them stands in a line of the body.
pub proof fn lemma_body_is_clear(
    src: Seq<char>,
    keyword: Seq<char>,
    space: Seq<char>,
    equals: Seq<char>,
    table: Seq<Seq<char>>,
    blob_names: Seq<Seq<char>>,
)
    requires
        is_scheme(keyword, space, equals, table, blob_names),
        blob_names.len() == source_blobs(split(src, '\n')).len(),
        forall|i: int| 0 <= i < src.len() ==> is_extended(#[trigger] src[i]),
        !has_opaque_line(split(src, '\n')),
        names_are_clear(keyword, space, equals, table, blob_names),
    ensures
        body_is_clear(split(src, '\n'), keyword, space, equals, table, blob_names),
{
    let lines = split(src, '\n');
    lemma_split_pieces_extended(src, '\n');
    assert forall|n: int| 0 <= n < lines.len() implies {
        let r = #[trigger] rewritten_line(lines, table, blob_names, n);
        !contains(r, keyword) && !contains(r, space) && !contains(r, equals)
    } by {
        let line = lines[n];
        let j = source_blobs(lines.take(n)).len() as int;
        assert(!is_opaque(lines[n]));
        assert(line_blobs(line) == blobs_from(line, 0));
        assert forall|m: int| 0 <= m < line.len() implies is_extended(#[trigger] line[m]) by {
            assert(is_extended(lines[n][m]));
        }
        let upto = lines.take(n + 1);
        assert(upto.drop_last() =~= lines.take(n));
        assert(upto.last() == lines[n]);
        lemma_source_blobs_prefix(lines, n + 1);
        assert forall|c: char| is_substitutable(c) implies !contains(
            #[trigger] table[full_set_index(c)],
            keyword,
        ) && !contains(table[full_set_index(c)], space) && !contains(
            table[full_set_index(c)],
            equals,
        ) by {
            assert(is_clear(table[full_set_index(c)], keyword, space, equals));
        }
        assert forall|q: int| 0 <= q < blob_names.len() implies !contains(
            #[trigger] blob_names[q],
            keyword,
        ) && !contains(blob_names[q], space) && !contains(blob_names[q], equals) by {
            assert(is_clear(blob_names[q], keyword, space, equals));
        }
        lemma_rewrite_is_clear(line, 0, table, blob_names, j, keyword);
        lemma_rewrite_is_clear(line, 0, table, blob_names, j, space);
        lemma_rewrite_is_clear(line, 0, table, blob_names, j, equals);
    }
}

/// The lines that a script opens with before the three statements that
/// define the aliases: the watermarks, and the echo line where it is
/// asked for.
pub open spec fn opening_lines(echo: bool) -> Seq<Seq<char>> {
    if echo {
        seq![WATERMARK_ORIGIN@, WATERMARK_REVERSAL@, ECHO_OFF@]
    } else {
        seq![WATERMARK_ORIGIN@, WATERMARK_REVERSAL@]
    }
}

/// The echo line, where the script opens with it and none of the three
/// aliases stands in it; else nothing.
pub open spec fn echo_lines(echo: bool, keyword: Seq<char>, space: Seq<char>, equals: Seq<char>) -> Seq<
    Seq<char>,
> {
    if echo && is_clear(ECHO_OFF@, keyword, space, equals) {
        seq![ECHO_OFF@]
    } else {
        Seq::empty()
    }
}

/// What a script is read back as: its source, behind the echo line where
/// the script opens with it and none of the three aliases stands in it.
pub open spec fn read_back(
    src: Seq<char>,
    echo: bool,
    keyword: Seq<char>,
    space: Seq<char>,
    equals: Seq<char>,
) -> Seq<char> {
    if echo && is_clear(ECHO_OFF@, keyword, space, equals) {
        ECHO_OFF@.push('\n') + src
    } else {
        src
    }
}

/// The echo line opens with an at sign, holds a space, and holds neither
/// a delimiter nor a line feed; it is shorter than the watermarks.
proof fn lemma_echo_line()
    ensures
        ECHO_OFF@.len() == 9,
        ECHO_OFF@[0] == '@',
        ECHO_OFF@[5] == ' ',
        free_of(ECHO_OFF@, '\n'),
        free_of(ECHO_OFF@, '%'),
        WATERMARK_ORIGIN@.len() > 9,
        WATERMARK_REVERSAL@.len() > 9,
{
    reveal_strlit("@echo off");
    reveal_strlit(
        ":: VGhpcyBmaWxlIHdhcyBvYmZ1c2NhdGVkIHZpYSBodHRwczovL2dpdGh1Yi5jb20vMHhUYXMvMHhpZGl6M3I=",
    );
    reveal_strlit(
        ":: VGhpcyBmaWxlIGNhbiBiZSBwcm9ncmFtYXRpY2FsbHkgZGVvYmZ1c2NhdGVkIHZpYSBodHRwczovL2dpdGh1Yi5jb20vMHhUYXMvMHhpZGl6M3I=",
    );
}

/// The opening lines hold no line feed, and none of them is made of
/// something that opens with an `s` or with a delimiter.
proof fn lemma_opening_lines(echo: bool)
    ensures
        all_free_of(opening_lines(echo), '\n'),
        forall|i: int, prefix: Seq<char>, suffix: Seq<char>|
            0 <= i < opening_lines(echo).len() && prefix.len() > 0 && (prefix[0] == 's'
                || prefix[0] == '%') ==> #[trigger] enclosed(opening_lines(echo)[i], prefix, suffix)
                is None && !starts_with(opening_lines(echo)[i], prefix),
{
    lemma_watermarks();
    lemma_echo_line();
    let lines = opening_lines(echo);
    assert forall|i: int, prefix: Seq<char>, suffix: Seq<char>|
        0 <= i < lines.len() && prefix.len() > 0 && (prefix[0] == 's' || prefix[0]
            == '%') implies #[trigger] enclosed(lines[i], prefix, suffix) is None && !starts_with(
        lines[i],
        prefix,
    ) by {
        lemma_enclosed_differs(lines[i], prefix, suffix, 0);
    }
}

/// The script of a readable source splits into its lines.
proof fn lemma_script_split(
    src: Seq<char>,
    echo: bool,
    keyword: Seq<char>,
    space: Seq<char>,
    equals: Seq<char>,
    table: Seq<Seq<char>>,
    blob_names: Seq<Seq<char>>,
)
    requires
        is_readable(src, keyword, space, equals, table, blob_names),
    ensures
        split(document(src, echo, keyword, space, equals, table, blob_names), '\n')
            == script_lines(src, echo, keyword, space, equals, table, blob_names),
{
    let none = Seq::<char>::empty();
    let lines = split(src, '\n');
    let blobs = source_blobs(lines);
    let bodies = body_lines(lines, table, blob_names);
    let body = concat(bodies);
    let h = header_lines(echo, keyword, space, equals);
    let a = alphabet_lines(keyword, space, equals, table);
    let b = blob_lines(keyword, space, equals, blob_names, blobs);
    let tail = seq![WATERMARK_ORIGIN@, WATERMARK_REVERSAL@];
    let d = document_lines(lines, echo, keyword, space, equals, table, blob_names);
    let front = h + a + b;
    lemma_watermarks();
    lemma_opening_lines(echo);
    lemma_anchor_lines_shape(keyword, space, equals);
    lemma_alphabet_lines_shape(keyword, space, equals, table);
    lemma_split_pieces_free(src, '\n');
    lemma_source_blobs_chars(lines);
    lemma_blob_lines_shape(keyword, space, equals, blob_names, blobs);
    let o = opening_lines(echo);
    assert(h =~= o + seq![
        keyword_line(keyword),
        space_line(keyword, space),
        equals_line(keyword, space, equals),
    ]);
    assert(all_free_of(h, '\n')) by {
        assert forall|i: int| 0 <= i < h.len() implies free_of(#[trigger] h[i], '\n') by {
            if i < o.len() {
                assert(h[i] == o[i]);
            }
        }
    }
    assert(all_free_of(front, '\n')) by {
        assert forall|i: int| 0 <= i < front.len() implies free_of(#[trigger] front[i], '\n') by {
            if i < h.len() {
                assert(front[i] == h[i]);
            } else if i < h.len() + a.len() {
                assert(front[i] == a[i - h.len()]);
            } else {
                assert(front[i] == b[i - h.len() - a.len()]);
            }
        }
    }
    assert(all_free_of(tail, '\n'));
    lemma_body_lines_len(lines, table, blob_names);
    assert(are_lines(bodies)) by {
        assert forall|n: int| 0 <= n < bodies.len() implies {
            &&& (#[trigger] bodies[n]).len() > 0
            &&& bodies[n].last() == '\n'
            &&& free_of(bodies[n].drop_last(), '\n')
        } by {
            lemma_body_line(src, keyword, space, equals, table, blob_names, n);
            let r = rewritten_line(lines, table, blob_names, n);
            assert(r.push('\n').drop_last() =~= r);
        }
    }
    lemma_split_body(bodies);
    let middle = seq![body];
    assert(d =~= front + middle + tail);
    lemma_split_join(d, '\n');
    lemma_split_each_add(front + middle, tail, '\n');
    lemma_split_each_add(front, middle, '\n');
    lemma_split_each_plain(front, '\n');
    lemma_split_each_plain(tail, '\n');
    assert(middle.drop_last() =~= Seq::<Seq<char>>::empty());
    assert(split_each(Seq::<Seq<char>>::empty(), '\n') =~= Seq::<Seq<char>>::empty());
    assert(split_each(middle, '\n') =~= split(body, '\n'));
    assert(front + plain_lines(bodies).push(none) + tail =~= script_lines(
        src,
        echo,
        keyword,
        space,
        equals,
        table,
        blob_names,
    ));
}

/// The three aliases are read off the script they were written into.
proof fn lemma_script_anchors(
    src: Seq<char>,
    echo: bool,
    keyword: Seq<char>,
    space: Seq<char>,
    equals: Seq<char>,
    table: Seq<Seq<char>>,
    blob_names: Seq<Seq<char>>,
)
    requires
        is_name(keyword),
        is_name(space),
        is_name(equals),
    ensures
        anchors_of(script_lines(src, echo, keyword, space, equals, table, blob_names)) == Some(
            (keyword, space, equals),
        ),
{
    let all = script_lines(src, echo, keyword, space, equals, table, blob_names);
    let lines = split(src, '\n');
    let rest = alphabet_lines(keyword, space, equals, table) + blob_lines(
        keyword,
        space,
        equals,
        blob_names,
        source_blobs(lines),
    ) + plain_lines(body_lines(lines, table, blob_names)) + seq![
        Seq::<char>::empty(),
        WATERMARK_ORIGIN@,
        WATERMARK_REVERSAL@,
    ];
    let o = opening_lines(echo);
    let a = keyword_line(keyword);
    let b = space_line(keyword, space);
    let c = equals_line(keyword, space, equals);
    lemma_opening_lines(echo);
    assert(a[0] == 's');
    assert(b[0] == '%');
    assert(keyword_open()[0] == 's');
    assert(space_open(keyword)[0] == '%');
    assert(equals_open(keyword, space)[0] == '%');
    let at: int = keyword.len() as int + 2;
    assert(b[at] == ' ');
    assert(equals_open(keyword, space)[at] == '%');

    // The keyword alias.
    let skipped = o;
    let found = seq![a, b, c] + rest;
    assert(all =~= skipped + found);
    assert forall|i: int| 0 <= i < skipped.len() implies enclosed(
        #[trigger] skipped[i],
        keyword_open(),
        keyword_close(),
    ) is None by {
        assert(enclosed(o[i], keyword_open(), keyword_close()) is None);
    }
    lemma_first_enclosed_skip(skipped, found, keyword_open(), keyword_close());
    lemma_enclosed_made(keyword_open(), keyword, keyword_close());
    assert(found[0] == a);
    assert(first_enclosed(all, keyword_open(), keyword_close()) == Some(keyword));

    // The space alias.
    let skipped = o.push(a);
    let found = seq![b, c] + rest;
    assert(all =~= skipped + found);
    lemma_enclosed_differs(a, space_open(keyword), space_close(), 0);
    assert forall|i: int| 0 <= i < skipped.len() implies enclosed(
        #[trigger] skipped[i],
        space_open(keyword),
        space_close(),
    ) is None by {
        if i < o.len() {
            assert(enclosed(o[i], space_open(keyword), space_close()) is None);
        }
    }
    lemma_first_enclosed_skip(skipped, found, space_open(keyword), space_close());
    lemma_enclosed_made(space_open(keyword), space, space_close());
    assert(found[0] == b);
    assert(first_enclosed(all, space_open(keyword), space_close()) == Some(space));

    // The equals alias.
    let skipped = o.push(a).push(b);
    let found = seq![c] + rest;
    assert(all =~= skipped + found);
    lemma_enclosed_differs(a, equals_open(keyword, space), equals_close(), 0);
    lemma_enclosed_differs(b, equals_open(keyword, space), equals_close(), at);
    assert forall|i: int| 0 <= i < skipped.len() implies enclosed(
        #[trigger] skipped[i],
        equals_open(keyword, space),
        equals_close(),
    ) is None by {
        if i < o.len() {
            assert(enclosed(o[i], equals_open(keyword, space), equals_close()) is None);
        }
    }
    lemma_first_enclosed_skip(skipped, found, equals_open(keyword, space), equals_close());
    lemma_enclosed_made(equals_open(keyword, space), equals, equals_close());
    assert(found[0] == c);
    assert(first_enclosed(all, equals_open(keyword, space), equals_close()) == Some(equals));
}

/// The lines that an obfuscated script opens with define no variable,
/// and the lines that it closes with do not either.
proof fn lemma_header_defines_nothing(
    echo: bool,
    keyword: Seq<char>,
    space: Seq<char>,
    equals: Seq<char>,
)
    requires
        is_name(keyword),
        is_name(space),
        is_name(equals),
    ensures
        definitions_of(header_lines(echo, keyword, space, equals), keyword, space, equals)
            == Seq::<(Seq<char>, Seq<char>)>::empty(),
        definitions_of(
            seq![Seq::<char>::empty(), WATERMARK_ORIGIN@, WATERMARK_REVERSAL@],
            keyword,
            space,
            equals,
        ) == Seq::<(Seq<char>, Seq<char>)>::empty(),
{
    let none = Seq::<char>::empty();
    let first = WATERMARK_ORIGIN@;
    let second = WATERMARK_REVERSAL@;
    let o = opening_lines(echo);
    let a = keyword_line(keyword);
    let b = space_line(keyword, space);
    let c = equals_line(keyword, space, equals);
    let prefix = equals_open(keyword, space);
    lemma_watermarks();
    lemma_opening_lines(echo);
    assert(a[0] == 's');
    assert(prefix[0] == '%');
    let at: int = keyword.len() as int + 2;
    assert(b[at] == ' ');
    assert(prefix[at] == '%');
    lemma_enclosed_differs(first, prefix, equals_close(), 0);
    lemma_enclosed_differs(second, prefix, equals_close(), 0);
    lemma_enclosed_differs(a, prefix, equals_close(), 0);
    lemma_enclosed_differs(b, prefix, equals_close(), at);
    lemma_enclosed_differs(none, prefix, equals_close(), 0);
    assert(definition_of(c, keyword, space, equals) is None) by {
        let rest = c.skip(prefix.len() as int);
        let close = equals_close();
        assert(rest =~= equals + close);
        assert(close[0] == '=');
        lemma_leading_letters(equals, close);
    }
    let h = header_lines(echo, keyword, space, equals);
    assert(h =~= o + seq![a, b, c]);
    assert forall|i: int| 0 <= i < h.len() implies definition_of(
        #[trigger] h[i],
        keyword,
        space,
        equals,
    ) is None by {
        if i < o.len() {
            assert(h[i] == o[i]);
            assert(enclosed(o[i], prefix, equals_close()) is None);
        }
    }
    lemma_definitions_none(h, keyword, space, equals);
    lemma_definitions_none(seq![none, first, second], keyword, space, equals);
}

/// The variable table is read off the script of a readable source.
proof fn lemma_script_definitions(
    src: Seq<char>,
    echo: bool,
    keyword: Seq<char>,
    space: Seq<char>,
    equals: Seq<char>,
    table: Seq<Seq<char>>,
    blob_names: Seq<Seq<char>>,
)
    requires
        is_readable(src, keyword, space, equals, table, blob_names),
    ensures
        definitions_of(
            script_lines(src, echo, keyword, space, equals, table, blob_names),
            keyword,
            space,
            equals,
        ) == script_table(src, table, blob_names),
{
    let none = Seq::<char>::empty();
    let nothing = Seq::<(Seq<char>, Seq<char>)>::empty();
    let lines = split(src, '\n');
    let blobs = source_blobs(lines);
    let bodies = body_lines(lines, table, blob_names);
    let h = header_lines(echo, keyword, space, equals);
    let a = alphabet_lines(keyword, space, equals, table);
    let b = blob_lines(keyword, space, equals, blob_names, blobs);
    let r = plain_lines(bodies);
    let tail = seq![none, WATERMARK_ORIGIN@, WATERMARK_REVERSAL@];
    let all = script_lines(src, echo, keyword, space, equals, table, blob_names);
    lemma_header_defines_nothing(echo, keyword, space, equals);
    lemma_definitions_alphabet(keyword, space, equals, table);
    lemma_split_pieces_free(src, '\n');
    lemma_source_blobs_chars(lines);
    lemma_definitions_blobs(keyword, space, equals, blob_names, blobs);
    lemma_body_lines_len(lines, table, blob_names);
    assert forall|n: int| 0 <= n < r.len() implies definition_of(
        #[trigger] r[n],
        keyword,
        space,
        equals,
    ) is None by {
        lemma_body_line(src, keyword, space, equals, table, blob_names, n);
        if starts_with(r[n], equals_open(keyword, space)) {
            lemma_definition_holds_keyword(r[n], keyword, space, equals);
        }
    }
    lemma_definitions_none(r, keyword, space, equals);
    assert(all == h + a + b + r + tail);
    lemma_definitions_add(h + a + b + r, tail, keyword, space, equals);
    lemma_definitions_add(h + a + b, r, keyword, space, equals);
    lemma_definitions_add(h + a, b, keyword, space, equals);
    lemma_definitions_add(h, a, keyword, space, equals);
    assert(nothing + entries(table) + blob_entries(blob_names, blobs) + nothing + nothing
        =~= script_table(src, table, blob_names));
}

/// The lines that a script opens with are restored as the echo line,
/// where the script opens with it and no alias stands in it, and as
/// nothing else.
proof fn lemma_header_body(
    echo: bool,
    keyword: Seq<char>,
    space: Seq<char>,
    equals: Seq<char>,
    t: Seq<(Seq<char>, Seq<char>)>,
)
    requires
        is_name(keyword),
        is_name(space),
        is_name(equals),
        is_table(t),
    ensures
        restored_lines(header_lines(echo, keyword, space, equals), keyword, space, equals, t)
            == echo_lines(echo, keyword, space, equals),
{
    let none = Seq::<char>::empty();
    let nothing = Seq::<Seq<char>>::empty();
    let first = WATERMARK_ORIGIN@;
    let second = WATERMARK_REVERSAL@;
    let marks = seq![first, second];
    let anchors = seq![
        keyword_line(keyword),
        space_line(keyword, space),
        equals_line(keyword, space, equals),
    ];
    let h = header_lines(echo, keyword, space, equals);
    lemma_watermarks();
    lemma_echo_line();
    lemma_anchor_lines_shape(keyword, space, equals);
    assert(first.subrange(0, first.len() as int) =~= first);
    assert(occurs_at(first, first, 0));
    assert(second.subrange(0, second.len() as int) =~= second);
    assert(occurs_at(second, second, 0));
    assert forall|i: int| 0 <= i < marks.len() implies !is_body_line(
        #[trigger] marks[i],
        keyword,
        space,
        equals,
    ) by {}
    assert forall|i: int| 0 <= i < anchors.len() implies !is_body_line(
        #[trigger] anchors[i],
        keyword,
        space,
        equals,
    ) by {}
    lemma_restored_none(marks, keyword, space, equals, t);
    lemma_restored_none(anchors, keyword, space, equals, t);
    if echo {
        let line = ECHO_OFF@;
        let o = marks.push(line);
        assert(h =~= o + anchors);
        lemma_restored_add(o, anchors, keyword, space, equals, t);
        assert(o.drop_last() =~= marks);
        assert(o.last() == line);
        assert(!contains(line, first) && !contains(line, second));
        assert(is_body_line(line, keyword, space, equals) == is_clear(
            line,
            keyword,
            space,
            equals,
        ));
        assert(!line.contains('%'));
        lemma_split_whole(line, '%');
        let one = seq![line];
        assert(one.drop_last() =~= nothing);
        assert(decode_pieces(nothing, t) =~= none);
        assert(!is_letter(line[0]));
        lemma_lookup_missing(t, line);
        assert(line[5] == ' ' && !is_wrappable(line));
        assert(decode_line(line, t) =~= line);
        assert(restored_lines(h, keyword, space, equals, t) =~= echo_lines(
            echo,
            keyword,
            space,
            equals,
        ));
    } else {
        assert(h =~= marks + anchors);
        lemma_restored_add(marks, anchors, keyword, space, equals, t);
        assert(restored_lines(h, keyword, space, equals, t) =~= nothing);
    }
}

/// The body is read off the script of a readable source: the echo line
/// where it counts, the lines of the source, and the empty line that
/// follows the body.
proof fn lemma_script_body(
    src: Seq<char>,
    echo: bool,
    keyword: Seq<char>,
    space: Seq<char>,
    equals: Seq<char>,
    table: Seq<Seq<char>>,
    blob_names: Seq<Seq<char>>,
)
    requires
        is_readable(src, keyword, space, equals, table, blob_names),
    ensures
        restored_lines(
            script_lines(src, echo, keyword, space, equals, table, blob_names),
            keyword,
            space,
            equals,
            script_table(src, table, blob_names),
        ) == echo_lines(echo, keyword, space, equals) + split(src, '\n') + seq![
            Seq::<char>::empty(),
        ],
{
    let none = Seq::<char>::empty();
    let nothing = Seq::<Seq<char>>::empty();
    let lines = split(src, '\n');
    let blobs = source_blobs(lines);
    let bodies = body_lines(lines, table, blob_names);
    let t = script_table(src, table, blob_names);
    let h = header_lines(echo, keyword, space, equals);
    let a = alphabet_lines(keyword, space, equals, table);
    let b = blob_lines(keyword, space, equals, blob_names, blobs);
    let r = plain_lines(bodies);
    let first = WATERMARK_ORIGIN@;
    let second = WATERMARK_REVERSAL@;
    let gap = seq![none];
    let marks = seq![first, second];
    let all = script_lines(src, echo, keyword, space, equals, table, blob_names);
    lemma_watermarks();
    lemma_alphabet_lines_shape(keyword, space, equals, table);
    lemma_split_pieces_free(src, '\n');
    lemma_source_blobs_chars(lines);
    lemma_blob_lines_shape(keyword, space, equals, blob_names, blobs);
    lemma_script_table(keyword, space, equals, table, blob_names, blobs);
    lemma_header_body(echo, keyword, space, equals, t);
    assert(first.subrange(0, first.len() as int) =~= first);
    assert(occurs_at(first, first, 0));
    assert(second.subrange(0, second.len() as int) =~= second);
    assert(occurs_at(second, second, 0));
    assert forall|i: int| 0 <= i < a.len() implies !is_body_line(
        #[trigger] a[i],
        keyword,
        space,
        equals,
    ) by {
        lemma_definition_holds_keyword(a[i], keyword, space, equals);
    }
    assert forall|i: int| 0 <= i < b.len() implies !is_body_line(
        #[trigger] b[i],
        keyword,
        space,
        equals,
    ) by {
        lemma_definition_holds_keyword(b[i], keyword, space, equals);
    }
    assert forall|i: int| 0 <= i < marks.len() implies !is_body_line(
        #[trigger] marks[i],
        keyword,
        space,
        equals,
    ) by {}
    lemma_restored_none(a, keyword, space, equals, t);
    lemma_restored_none(b, keyword, space, equals, t);
    lemma_restored_none(marks, keyword, space, equals, t);
    // The empty line that follows the body is a line of the body.
    assert(is_body_line(none, keyword, space, equals));
    assert(gap.drop_last() =~= nothing);
    assert(split(none, '%') == seq![none]);
    assert(gap.last() == none);
    lemma_decode_literal(t, none);
    lemma_decode_pieces_first(seq![none], t);
    assert(seq![none].drop_first() =~= nothing);
    assert(decode_pieces(nothing, t) =~= none);
    assert(decode_line(none, t) =~= none);
    assert(restored_lines(nothing, keyword, space, equals, t) =~= nothing);
    assert(restored_lines(gap, keyword, space, equals, t) =~= gap);
    lemma_body_lines_len(lines, table, blob_names);
    assert forall|n: int| 0 <= n < lines.len() implies {
        &&& is_body_line(#[trigger] r[n], keyword, space, equals)
        &&& decode_line(r[n], t) == lines[n]
    } by {
        lemma_body_line(src, keyword, space, equals, table, blob_names, n);
    }
    lemma_restored_rewritten(lines, r, keyword, space, equals, t);
    assert(all =~= h + a + b + r + gap + marks);
    lemma_restored_add(h + a + b + r + gap, marks, keyword, space, equals, t);
    lemma_restored_add(h + a + b + r, gap, keyword, space, equals, t);
    lemma_restored_add(h + a + b, r, keyword, space, equals, t);
    lemma_restored_add(h + a, b, keyword, space, equals, t);
    lemma_restored_add(h, a, keyword, space, equals, t);
    let e = echo_lines(echo, keyword, space, equals);
    assert(e + nothing + nothing + lines + gap + nothing =~= e + lines + gap);
}

/// An obfuscated script stands for its source.
///
/// The source holds characters of the full set only, and no line that is
/// left as it is. The script is written with names none of which is
/// issued twice. Where the script opens with the echo line, it stands
/// for the echo line and the source behind it, unless an alias happens
/// to stand in the echo line.
///
/// One kind of script is left out, for which the claim does not hold:
/// one in which an alias happens to stand inside a line of the body,
/// since such a line is taken for a statement of the script.
pub proof fn lemma_document_read_back(
    src: Seq<char>,
    echo: bool,
    keyword: Seq<char>,
    space: Seq<char>,
    equals: Seq<char>,
    table: Seq<Seq<char>>,
    blob_names: Seq<Seq<char>>,
)
    requires
        is_readable(src, keyword, space, equals, table, blob_names),
    ensures
        decode(document(src, echo, keyword, space, equals, table, blob_names)) == Ok::<
            Seq<char>,
            BatchError,
        >(read_back(src, echo, keyword, space, equals)),
{
    let none = Seq::<char>::empty();
    let lines = split(src, '\n');
    let e = echo_lines(echo, keyword, space, equals);
    lemma_script_split(src, echo, keyword, space, equals, table, blob_names);
    lemma_script_anchors(src, echo, keyword, space, equals, table, blob_names);
    lemma_script_definitions(src, echo, keyword, space, equals, table, blob_names);
    lemma_script_body(src, echo, keyword, space, equals, table, blob_names);
    lemma_split_nonempty(src, '\n');
    lemma_join_split(src, '\n');
    let kept = e + lines;
    let restored = kept + seq![none];
    assert(restored.drop_last() =~= kept);
    assert(restored.last() == none);
    assert(join(restored, '\n') =~= join(kept, '\n').push('\n'));
    assert(join(kept, '\n').push('\n').drop_last() =~= join(kept, '\n'));
    if e.len() == 0 {
        assert(kept =~= lines);
    } else {
        assert(e == seq![ECHO_OFF@]);
        lemma_join_add(e, lines, '\n');
        assert(join(e, '\n') == ECHO_OFF@);
    }
}

/// What `initialize` leaves behind is a script that stands for its source.
///
/// The claim is that of `lemma_document_read_back`, stated of the state
/// of an obfuscator that holds the script of `src`, for a script that is
/// read back without an echo line.
pub proof fn lemma_round_trip(o: BatchObfuscator, src: Seq<char>, min: int, max: int)
    requires
        1 <= min,
        o.holds(src, min, max),
        !o.echo_mode || !is_clear(ECHO_OFF@, o.set_str@, o.space_str@, o.eq_str@),
        forall|i: int| 0 <= i < src.len() ==> is_extended(#[trigger] src[i]),
        !has_opaque_line(split(src, '\n')),
        body_is_clear(
            split(src, '\n'),
            o.set_str@,
            o.space_str@,
            o.eq_str@,
            o.table(),
            o.blob_names(),
        ),
    ensures
        decode(o.obfuscated_code@) == Ok::<Seq<char>, BatchError>(src),
{
    let table = o.table();
    assert forall|i: int| 0 <= i < 97 implies if is_bad_char(CharSet::FullSet.members()[i]) {
        #[trigger] table[i] == seq![CharSet::FullSet.members()[i]]
    } else {
        is_name(table[i])
    } by {
        assert(table[i] == o.alphabet@[i].1@);
    }
    lemma_document_read_back(
        src,
        o.echo_mode,
        o.set_str@,
        o.space_str@,
        o.eq_str@,
        table,
        o.blob_names(),
    );
}

/// What `initialize` leaves behind is a script that stands for its
/// source, where none of the three aliases stands inside another name.
///
/// The claim is that of `lemma_round_trip`, with a demand on the names
/// alone in place of the demand on the lines of the body.
pub proof fn lemma_round_trip_of_clear_names(o: BatchObfuscator, src: Seq<char>, min: int, max: int)
    requires
        1 <= min,
        o.holds(src, min, max),
        !o.echo_mode || !is_clear(ECHO_OFF@, o.set_str@, o.space_str@, o.eq_str@),
        forall|i: int| 0 <= i < src.len() ==> is_extended(#[trigger] src[i]),
        !has_opaque_line(split(src, '\n')),
        names_are_clear(o.set_str@, o.space_str@, o.eq_str@, o.table(), o.blob_names()),
    ensures
        decode(o.obfuscated_code@) == Ok::<Seq<char>, BatchError>(src),
{
    let table = o.table();
    assert forall|i: int| 0 <= i < 97 implies if is_bad_char(CharSet::FullSet.members()[i]) {
        #[trigger] table[i] == seq![CharSet::FullSet.members()[i]]
    } else {
        is_name(table[i])
    } by {
        assert(table[i] == o.alphabet@[i].1@);
    }
    lemma_body_is_clear(src, o.set_str@, o.space_str@, o.eq_str@, table, o.blob_names());
    lemma_round_trip(o, src, min, max);
}

} // verus!
