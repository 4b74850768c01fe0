//! Sequences of characters: conversion, splitting, joining and searching.
//!
//! Every executable function here works on `Vec<char>` and is specified
//! against a spec function over `Seq<char>` of the same name or purpose.

use vstd::prelude::*;

verus! {

broadcast use vstd::string::group_string_axioms;

/// `String::push` appends one character to the end of the string.
pub assume_specification[ String::push ](s: &mut String, c: char)
    ensures
        final(s)@ == old(s)@.push(c),
;

/// The views of a sequence of character vectors.
pub open spec fn views(v: Seq<Vec<char>>) -> Seq<Seq<char>> {
    v.map_values(|x: Vec<char>| x@)
}

/// The views of a sequence of strings.
pub open spec fn string_views(v: Seq<String>) -> Seq<Seq<char>> {
    v.map_values(|x: String| x@)
}

/// The pieces of `s` between occurrences of `sep`: one more piece than
/// there are separators, each free of `sep`.
pub open spec fn split(s: Seq<char>, sep: char) -> Seq<Seq<char>>
    decreases s.len(),
{
    if s.len() == 0 {
        seq![Seq::<char>::empty()]
    } else {
        let head = split(s.drop_last(), sep);
        if s.last() == sep {
            head.push(Seq::<char>::empty())
        } else {
            head.update(head.len() - 1, head.last().push(s.last()))
        }
    }
}

/// The pieces with one `sep` between each two neighbours.
pub open spec fn join(parts: Seq<Seq<char>>, sep: char) -> Seq<char>
    decreases parts.len(),
{
    if parts.len() == 0 {
        Seq::<char>::empty()
    } else if parts.len() == 1 {
        parts[0]
    } else {
        join(parts.drop_last(), sep).push(sep) + parts.last()
    }
}

/// The pieces one after another, with nothing between them.
pub open spec fn concat(parts: Seq<Seq<char>>) -> Seq<char>
    decreases parts.len(),
{
    if parts.len() == 0 {
        Seq::<char>::empty()
    } else {
        concat(parts.drop_last()) + parts.last()
    }
}

/// `needle` stands in `hay` at position `i`.
pub open spec fn occurs_at(hay: Seq<char>, needle: Seq<char>, i: int) -> bool {
    &&& 0 <= i
    &&& i + needle.len() <= hay.len()
    &&& hay.subrange(i, i + needle.len()) == needle
}

/// `needle` stands somewhere in `hay`.
pub open spec fn contains(hay: Seq<char>, needle: Seq<char>) -> bool {
    exists|i: int| occurs_at(hay, needle, i)
}

/// `hay` opens with `prefix`.
pub open spec fn starts_with(hay: Seq<char>, prefix: Seq<char>) -> bool {
    occurs_at(hay, prefix, 0)
}

/// `hay` closes with `suffix`.
pub open spec fn ends_with(hay: Seq<char>, suffix: Seq<char>) -> bool {
    occurs_at(hay, suffix, hay.len() - suffix.len())
}

/// Splitting never yields an empty list of pieces.
pub proof fn lemma_split_nonempty(s: Seq<char>, sep: char)
    ensures
        split(s, sep).len() >= 1,
    decreases s.len(),
{
    if s.len() > 0 {
        lemma_split_nonempty(s.drop_last(), sep);
    }
}

/// A text without the separator is one piece.
pub proof fn lemma_split_whole(s: Seq<char>, sep: char)
    requires
        !s.contains(sep),
    ensures
        split(s, sep) == seq![s],
    decreases s.len(),
{
    if s.len() > 0 {
        assert(!s.drop_last().contains(sep)) by {
            if s.drop_last().contains(sep) {
                let i = choose|i: int| 0 <= i < s.drop_last().len() && s.drop_last()[i] == sep;
                assert(s[i] == sep);
            }
        }
        lemma_split_whole(s.drop_last(), sep);
        assert(s.last() != sep) by {
            if s.last() == sep {
                assert(s[s.len() - 1] == sep);
            }
        }
        assert(s.drop_last().push(s.last()) == s);
        assert(seq![s.drop_last()].update(0, s) =~= seq![s]);
    } else {
        assert(s =~= Seq::<char>::empty());
    }
}

/// Splitting two texts put together: the last piece of the first and the
/// first piece of the second become one piece.
pub proof fn lemma_split_add(a: Seq<char>, b: Seq<char>, sep: char)
    ensures
        split(a, sep).len() >= 1,
        split(b, sep).len() >= 1,
        split(a + b, sep) == split(a, sep).drop_last().push(
            split(a, sep).last() + split(b, sep)[0],
        ) + split(b, sep).drop_first(),
    decreases b.len(),
{
    lemma_split_nonempty(a, sep);
    lemma_split_nonempty(b, sep);
    let pa = split(a, sep);
    if b.len() == 0 {
        assert(a + b =~= a);
        assert(pa.drop_last().push(pa.last() + split(b, sep)[0]) + split(b, sep).drop_first()
            =~= pa);
    } else {
        let b0 = b.drop_last();
        lemma_split_add(a, b0, sep);
        lemma_split_nonempty(b0, sep);
        assert((a + b).drop_last() =~= a + b0);
        assert((a + b).last() == b.last());
        let before = split(b0, sep);
        let joined = pa.drop_last().push(pa.last() + before[0]) + before.drop_first();
        assert(split(a + b0, sep) == joined);
        if b.last() == sep {
            assert(split(a + b, sep) == joined.push(Seq::<char>::empty()));
            assert(split(b, sep) == before.push(Seq::<char>::empty()));
            assert(joined.push(Seq::<char>::empty()) =~= pa.drop_last().push(
                pa.last() + split(b, sep)[0],
            ) + split(b, sep).drop_first());
        } else {
            let pb = before.update(before.len() - 1, before.last().push(b.last()));
            assert(split(b, sep) == pb);
            assert(split(a + b, sep) == joined.update(
                joined.len() - 1,
                joined.last().push(b.last()),
            ));
            if before.len() == 1 {
                assert((pa.last() + before[0]).push(b.last()) =~= pa.last() + pb[0]);
            }
            assert(joined.update(joined.len() - 1, joined.last().push(b.last()))
                =~= pa.drop_last().push(pa.last() + pb[0]) + pb.drop_first());
        }
    }
}

/// The pieces of all of `parts`, in their order.
pub open spec fn split_each(parts: Seq<Seq<char>>, sep: char) -> Seq<Seq<char>>
    decreases parts.len(),
{
    if parts.len() == 0 {
        Seq::empty()
    } else {
        split_each(parts.drop_last(), sep) + split(parts.last(), sep)
    }
}

/// Splitting what was joined gives the pieces of each part.
pub proof fn lemma_split_join(parts: Seq<Seq<char>>, sep: char)
    requires
        parts.len() >= 1,
    ensures
        split(join(parts, sep), sep) == split_each(parts, sep),
    decreases parts.len(),
{
    if parts.len() == 1 {
        assert(parts.drop_last() =~= Seq::<Seq<char>>::empty());
        assert(split_each(parts.drop_last(), sep) =~= Seq::<Seq<char>>::empty());
        assert(split_each(parts, sep) =~= split(parts[0], sep));
    } else {
        let head = parts.drop_last();
        lemma_split_join(head, sep);
        let a = join(head, sep).push(sep);
        lemma_split_nonempty(join(head, sep), sep);
        assert(a.drop_last() =~= join(head, sep));
        assert(split(a, sep) == split(join(head, sep), sep).push(Seq::<char>::empty()));
        lemma_split_add(a, parts.last(), sep);
        lemma_split_nonempty(parts.last(), sep);
        let pl = split(parts.last(), sep);
        assert(Seq::<char>::empty() + pl[0] =~= pl[0]);
        assert(split(a, sep).drop_last().push(pl[0]) + pl.drop_first() =~= split_each(head, sep)
            + pl);
    }
}

/// Joining the pieces of a text gives the text back.
pub proof fn lemma_join_split(s: Seq<char>, sep: char)
    ensures
        join(split(s, sep), sep) == s,
    decreases s.len(),
{
    if s.len() == 0 {
    } else {
        let head = split(s.drop_last(), sep);
        lemma_split_nonempty(s.drop_last(), sep);
        lemma_join_split(s.drop_last(), sep);
        assert(s.drop_last().push(s.last()) =~= s);
        if s.last() == sep {
            let all = head.push(Seq::<char>::empty());
            assert(all.drop_last() =~= head);
            assert(join(all, sep) =~= join(head, sep).push(sep));
        } else {
            let grown = head.last().push(s.last());
            let all = head.update(head.len() - 1, grown);
            if head.len() == 1 {
                assert(join(head, sep) == head[0]);
                assert(join(all, sep) == all[0]);
            } else {
                assert(all.drop_last() =~= head.drop_last());
                assert(join(all, sep) == join(head.drop_last(), sep).push(sep) + grown);
                assert(join(head, sep) == join(head.drop_last(), sep).push(sep) + head.last());
                assert(join(head.drop_last(), sep).push(sep) + grown =~= (join(
                    head.drop_last(),
                    sep,
                ).push(sep) + head.last()).push(s.last()));
            }
        }
    }
}

/// No character of `s` is `c`.
pub open spec fn free_of(s: Seq<char>, c: char) -> bool {
    forall|i: int| 0 <= i < s.len() ==> #[trigger] s[i] != c
}

/// No text of `parts` holds `c`.
pub open spec fn all_free_of(parts: Seq<Seq<char>>, c: char) -> bool {
    forall|i: int| 0 <= i < parts.len() ==> free_of(#[trigger] parts[i], c)
}

/// The pieces of a text hold no separator.
pub proof fn lemma_split_pieces_free(s: Seq<char>, sep: char)
    ensures
        all_free_of(split(s, sep), sep),
    decreases s.len(),
{
    if s.len() > 0 {
        lemma_split_pieces_free(s.drop_last(), sep);
        lemma_split_nonempty(s.drop_last(), sep);
        let head = split(s.drop_last(), sep);
        assert forall|i: int| 0 <= i < split(s, sep).len() implies free_of(
            #[trigger] split(s, sep)[i],
            sep,
        ) by {
            if i < head.len() - 1 {
                assert(split(s, sep)[i] == head[i]);
            } else if i == head.len() - 1 {
                assert(free_of(head[i], sep));
            }
        }
    }
}

/// The pieces of two lists of parts, one after the other.
pub proof fn lemma_split_each_add(a: Seq<Seq<char>>, b: Seq<Seq<char>>, sep: char)
    ensures
        split_each(a + b, sep) == split_each(a, sep) + split_each(b, sep),
    decreases b.len(),
{
    if b.len() == 0 {
        assert(a + b =~= a);
        assert(split_each(a, sep) + split_each(b, sep) =~= split_each(a, sep));
    } else {
        assert((a + b).drop_last() =~= a + b.drop_last());
        assert((a + b).last() == b.last());
        lemma_split_each_add(a, b.drop_last(), sep);
        assert(split_each(a + b, sep) =~= split_each(a, sep) + split_each(b, sep));
    }
}

/// Parts without the separator are their own pieces.
pub proof fn lemma_split_each_plain(parts: Seq<Seq<char>>, sep: char)
    requires
        all_free_of(parts, sep),
    ensures
        split_each(parts, sep) == parts,
    decreases parts.len(),
{
    if parts.len() > 0 {
        let head = parts.drop_last();
        assert(all_free_of(head, sep)) by {
            assert forall|i: int| 0 <= i < head.len() implies free_of(#[trigger] head[i], sep) by {
                assert(head[i] == parts[i]);
            }
        }
        lemma_split_each_plain(head, sep);
        let last = parts.last();
        assert(free_of(parts[parts.len() - 1], sep));
        assert(!last.contains(sep));
        lemma_split_whole(last, sep);
        assert(head + seq![last] =~= parts);
    } else {
        assert(parts =~= Seq::<Seq<char>>::empty());
    }
}

/// Two lists of pieces, one after the other, put together.
pub proof fn lemma_concat_add(a: Seq<Seq<char>>, b: Seq<Seq<char>>)
    ensures
        concat(a + b) == concat(a) + concat(b),
    decreases b.len(),
{
    if b.len() == 0 {
        assert(a + b =~= a);
        assert(concat(a) + concat(b) =~= concat(a));
    } else {
        assert((a + b).drop_last() =~= a + b.drop_last());
        assert((a + b).last() == b.last());
        lemma_concat_add(a, b.drop_last());
        assert(concat(a + b) =~= concat(a) + concat(b));
    }
}

/// One piece put together is the piece.
pub proof fn lemma_concat_one(x: Seq<char>)
    ensures
        concat(seq![x]) == x,
{
    assert(seq![x].drop_last() =~= Seq::<Seq<char>>::empty());
    assert(concat(Seq::<Seq<char>>::empty()) =~= Seq::<char>::empty());
    assert(concat(seq![x]) =~= x);
}

/// The characters of `s`, in order.
pub fn chars_of(s: &str) -> (v: Vec<char>)
    ensures
        v@ == s@,
{
    let mut v: Vec<char> = Vec::new();
    for c in it: s.chars()
        invariant
            it.seq() == s@,
            v@ == s@.take(it.index() as int),
    {
        v.push(c);
    }
    v
}

/// The string made of the characters of `v`, in order.
pub fn string_of(v: &Vec<char>) -> (s: String)
    ensures
        s@ == v@,
{
    let mut s = String::new();
    let mut i: usize = 0;
    while i < v.len()
        invariant
            i <= v.len(),
            s@ == v@.take(i as int),
        decreases v.len() - i,
    {
        s.push(v[i]);
        i += 1;
    }
    s
}

/// Appends the characters of `tail` to `dst`.
pub fn push_all(dst: &mut Vec<char>, tail: &Vec<char>)
    ensures
        final(dst)@ == old(dst)@ + tail@,
{
    let mut i: usize = 0;
    while i < tail.len()
        invariant
            i <= tail.len(),
            dst@ == old(dst)@ + tail@.take(i as int),
        decreases tail.len() - i,
    {
        dst.push(tail[i]);
        i += 1;
    }
}

/// A copy of the characters of `v` from `from` up to, not including, `to`.
pub(crate) fn slice_of(v: &Vec<char>, from: usize, to: usize) -> (r: Vec<char>)
    requires
        from <= to <= v.len(),
    ensures
        r@ == v@.subrange(from as int, to as int),
{
    let mut r: Vec<char> = Vec::new();
    let mut i: usize = from;
    while i < to
        invariant
            from <= i <= to,
            to <= v.len(),
            r@ == v@.subrange(from as int, i as int),
        decreases to - i,
    {
        r.push(v[i]);
        i += 1;
    }
    r
}

/// Splits `s` at every `sep`: the pieces hold no `sep`, and joined with
/// `sep` they give `s` back.
pub fn split_chars(s: &Vec<char>, sep: char) -> (parts: Vec<Vec<char>>)
    ensures
        views(parts@) == split(s@, sep),
        parts@.len() >= 1,
        all_free_of(views(parts@), sep),
        join(views(parts@), sep) == s@,
{
    let mut parts: Vec<Vec<char>> = Vec::new();
    let mut cur: Vec<char> = Vec::new();
    let mut i: usize = 0;
    while i < s.len()
        invariant
            i <= s.len(),
            views(parts@).push(cur@) == split(s@.take(i as int), sep),
        decreases s.len() - i,
    {
        proof {
            assert(s@.take(i + 1).drop_last() == s@.take(i as int));
            lemma_split_nonempty(s@.take(i as int), sep);
        }
        if s[i] == sep {
            parts.push(cur);
            cur = Vec::new();
        } else {
            cur.push(s[i]);
        }
        i += 1;
    }
    parts.push(cur);
    proof {
        assert(s@.take(s.len() as int) == s@);
        lemma_split_nonempty(s@, sep);
        lemma_split_pieces_free(s@, sep);
        lemma_join_split(s@, sep);
    }
    parts
}

/// Joins `parts` with one `sep` between each two neighbours.
pub fn join_chars(parts: &Vec<Vec<char>>, sep: char) -> (s: Vec<char>)
    ensures
        s@ == join(views(parts@), sep),
{
    let mut s: Vec<char> = Vec::new();
    let mut i: usize = 0;
    while i < parts.len()
        invariant
            i <= parts.len(),
            s@ == join(views(parts@).take(i as int), sep),
        decreases parts.len() - i,
    {
        proof {
            assert(views(parts@).take(i + 1).drop_last() == views(parts@).take(i as int));
        }
        if i > 0 {
            s.push(sep);
        }
        push_all(&mut s, &parts[i]);
        i += 1;
    }
    proof {
        assert(views(parts@).take(parts.len() as int) == views(parts@));
    }
    s
}

/// The strings of `parts` one after another.
pub fn concat_strings(parts: &Vec<String>) -> (s: String)
    ensures
        s@ == concat(string_views(parts@)),
{
    let ghost all = string_views(parts@);
    let mut s = String::new();
    let mut i: usize = 0;
    while i < parts.len()
        invariant
            i <= parts.len(),
            all == string_views(parts@),
            s@ == concat(all.take(i as int)),
        decreases parts.len() - i,
    {
        proof {
            assert(all.take(i + 1).drop_last() == all.take(i as int));
        }
        s.append(parts[i].as_str());
        i += 1;
    }
    proof {
        assert(all.take(parts.len() as int) == all);
    }
    s
}

/// The strings of `parts` with one `sep` between each two neighbours.
pub fn join_strings(parts: &Vec<String>, sep: char) -> (s: String)
    ensures
        s@ == join(string_views(parts@), sep),
{
    let ghost all = string_views(parts@);
    let mut s = String::new();
    let mut i: usize = 0;
    while i < parts.len()
        invariant
            i <= parts.len(),
            all == string_views(parts@),
            s@ == join(all.take(i as int), sep),
        decreases parts.len() - i,
    {
        proof {
            assert(all.take(i + 1).drop_last() == all.take(i as int));
        }
        if i > 0 {
            s.push(sep);
        }
        s.append(parts[i].as_str());
        i += 1;
    }
    proof {
        assert(all.take(parts.len() as int) == all);
    }
    s
}

/// Decides whether `needle` stands in `hay` at position `i`.
pub fn occurs_at_pos(hay: &Vec<char>, needle: &Vec<char>, i: usize) -> (b: bool)
    ensures
        b == occurs_at(hay@, needle@, i as int),
{
    if needle.len() > hay.len() || i > hay.len() - needle.len() {
        return false;
    }
    let mut k: usize = 0;
    while k < needle.len()
        invariant
            k <= needle.len(),
            i + needle.len() <= hay.len(),
            hay@.subrange(i as int, i + k) == needle@.take(k as int),
        decreases needle.len() - k,
    {
        if hay[i + k] != needle[k] {
            proof {
                assert(hay@.subrange(i as int, i + needle.len())[k as int] == hay@[i + k]);
            }
            return false;
        }
        proof {
            assert(hay@.subrange(i as int, i + k + 1) == hay@.subrange(i as int, i + k).push(
                hay@[i + k],
            ));
            assert(needle@.take(k + 1) == needle@.take(k as int).push(needle@[k as int]));
        }
        k += 1;
    }
    proof {
        assert(needle@.take(needle.len() as int) == needle@);
    }
    true
}

/// Decides whether `needle` stands somewhere in `hay`.
pub fn contains_chars(hay: &Vec<char>, needle: &Vec<char>) -> (b: bool)
    ensures
        b == contains(hay@, needle@),
{
    if needle.len() > hay.len() {
        return false;
    }
    let last: usize = hay.len() - needle.len();
    let mut i: usize = 0;
    loop
        invariant
            i <= last,
            last == hay.len() - needle.len(),
            forall|j: int| 0 <= j < i ==> !occurs_at(hay@, needle@, j),
        decreases last - i,
    {
        if occurs_at_pos(hay, needle, i) {
            return true;
        }
        if i == last {
            return false;
        }
        i += 1;
    }
}

/// Decides whether `hay` opens with `prefix`.
pub fn starts_with_chars(hay: &Vec<char>, prefix: &Vec<char>) -> (b: bool)
    ensures
        b == starts_with(hay@, prefix@),
{
    occurs_at_pos(hay, prefix, 0)
}

/// Decides whether `hay` closes with `suffix`.
pub fn ends_with_chars(hay: &Vec<char>, suffix: &Vec<char>) -> (b: bool)
    ensures
        b == ends_with(hay@, suffix@),
{
    if suffix.len() > hay.len() {
        return false;
    }
    occurs_at_pos(hay, suffix, hay.len() - suffix.len())
}

/// Decides whether the two vectors hold the same characters.
pub fn same_chars(a: &Vec<char>, b: &Vec<char>) -> (r: bool)
    ensures
        r == (a@ == b@),
{
    if a.len() != b.len() {
        return false;
    }
    let r = occurs_at_pos(a, b, 0);
    proof {
        assert(a@.subrange(0, a.len() as int) == a@);
    }
    r
}

} // verus!
