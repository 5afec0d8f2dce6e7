//! What the text operations are for, told without their definitions: how each of them answers on a
//! text that is put together from known parts.
use vstd::prelude::*;
use vstd::string::*;

use crate::text::{
    distinct, find, gather, is_space, join, lemma_distinct, lemma_find_bounds, lemma_find_is,
    lemma_run_is, occurs, occurs_at, replace, split, split_once, strip_prefix, trim, trim_end,
    trim_end_char, trim_start, words,
};

verus! {

/// Whitespace only.
pub open spec fn blank(s: Seq<char>) -> bool {
    forall|i: int| 0 <= i < s.len() ==> is_space(#[trigger] s[i])
}

/// At least one character, and no whitespace.
pub open spec fn is_word(s: Seq<char>) -> bool {
    s.len() > 0 && forall|i: int| 0 <= i < s.len() ==> !is_space(#[trigger] s[i])
}

/// Nothing, or something that does not begin or end with whitespace.
pub open spec fn tight(s: Seq<char>) -> bool {
    s.len() == 0 || (!is_space(s[0]) && !is_space(s.last()))
}

/// Whitespace is these code points and no others.
pub proof fn law_whitespace(c: char)
    ensures
        is_space(c) <==> set![
            9int, 10, 11, 12, 13, 32, 133, 160, 5760, 8192, 8193, 8194, 8195, 8196, 8197, 8198,
            8199, 8200, 8201, 8202, 8232, 8233, 8239, 8287, 12288,
        ].contains(c as int),
{
}

// ---------------------------------------------------------------------------------------------
// Trimming and words
// ---------------------------------------------------------------------------------------------
proof fn lemma_trim_end_blank(s: Seq<char>, b: Seq<char>)
    requires
        blank(b),
    ensures
        trim_end(s + b) == trim_end(s),
    decreases b.len(),
{
    if b.len() == 0 {
        assert(s + b =~= s);
    } else {
        assert((s + b).last() == b[b.len() - 1]);
        assert((s + b).drop_last() =~= s + b.drop_last());
        assert forall|i: int| 0 <= i < b.drop_last().len() implies is_space(
            #[trigger] b.drop_last()[i],
        ) by {
            assert(b.drop_last()[i] == b[i]);
        }
        lemma_trim_end_blank(s, b.drop_last());
    }
}

/// Trimming takes away the whitespace around a text and nothing else.
pub proof fn law_trim_removes_surrounding_whitespace(
    before: Seq<char>,
    core: Seq<char>,
    after: Seq<char>,
)
    requires
        blank(before),
        tight(core),
        blank(after),
    ensures
        trim(before + core + after) == core,
{
    let s = before + core + after;
    if core.len() > 0 {
        let n = before.len() as int;
        assert forall|i: int| 0 <= i < n implies is_space(#[trigger] s[i]) by {
            assert(s[i] == before[i]);
        }
        assert(s[n] == core[0]);
        lemma_run_is(s, true, n);
        assert(trim_start(s) =~= core + after);
        lemma_trim_end_blank(core, after);
    } else {
        assert forall|i: int| 0 <= i < s.len() implies is_space(#[trigger] s[i]) by {
            if i < before.len() {
                assert(s[i] == before[i]);
            } else {
                assert(s[i] == after[i - before.len()]);
            }
        }
        lemma_run_is(s, true, s.len() as int);
        assert(trim_start(s) =~= Seq::empty());
        assert(trim(s) =~= core);
    }
}

/// The words of a text are its runs without whitespace: the first one comes first, the others are
/// those of what follows, and a blank text has none.
pub proof fn law_words_are_the_runs_without_whitespace(
    gap: Seq<char>,
    word: Seq<char>,
    rest: Seq<char>,
)
    requires
        blank(gap),
        is_word(word),
        rest.len() == 0 || is_space(rest[0]),
    ensures
        words(gap) == Seq::<Seq<char>>::empty(),
        words(gap + word + rest) == seq![word] + words(rest),
{
    lemma_run_is(gap, true, gap.len() as int);
    assert(trim_start(gap) =~= Seq::empty());
    let s = gap + word + rest;
    let n = gap.len() as int;
    assert forall|i: int| 0 <= i < n implies is_space(#[trigger] s[i]) by {
        assert(s[i] == gap[i]);
    }
    assert(s[n] == word[0]);
    lemma_run_is(s, true, n);
    let t = trim_start(s);
    assert(t =~= word + rest);
    let m = word.len() as int;
    assert forall|i: int| 0 <= i < m implies is_space(#[trigger] t[i]) == false by {
        assert(t[i] == word[i]);
    }
    if m < t.len() {
        assert(t[m] == rest[0]);
    }
    lemma_run_is(t, false, m);
    assert(t.take(m) =~= word);
    assert(t.skip(m) =~= rest);
}

/// Trailing occurrences of a character are taken away, and nothing else.
pub proof fn law_trim_end_char_removes_the_tail(core: Seq<char>, tail: Seq<char>, c: char)
    requires
        core.len() == 0 || core.last() != c,
        forall|i: int| 0 <= i < tail.len() ==> #[trigger] tail[i] == c,
    ensures
        trim_end_char(core + tail, c) == core,
    decreases tail.len(),
{
    if tail.len() == 0 {
        assert(core + tail =~= core);
    } else {
        let t = tail.drop_last();
        assert((core + tail).last() == tail[tail.len() - 1]);
        assert((core + tail).drop_last() =~= core + t);
        assert forall|i: int| 0 <= i < t.len() implies #[trigger] t[i] == c by {
            assert(t[i] == tail[i]);
        }
        law_trim_end_char_removes_the_tail(core, t, c);
    }
}

// ---------------------------------------------------------------------------------------------
// Splitting and joining
// ---------------------------------------------------------------------------------------------
proof fn lemma_find_behind(a: Seq<char>, sep: char, b: Seq<char>)
    requires
        !a.contains(sep),
    ensures
        find(a + seq![sep] + b, sep) == a.len(),
        find(a, sep) == a.len(),
{
    let s = a + seq![sep] + b;
    assert forall|i: int| 0 <= i < a.len() implies #[trigger] a[i] != sep by {
        assert(a.contains(a[i]));
    }
    assert forall|i: int| 0 <= i < a.len() implies #[trigger] s[i] != sep by {
        assert(s[i] == a[i]);
    }
    lemma_find_is(s, sep, a.len() as int);
    lemma_find_is(a, sep, a.len() as int);
}

/// A text without the separator is one piece; otherwise what stands before the first separator is
/// the first piece, and the pieces of what follows come behind it.
pub proof fn law_split_divides_at_each_separator(a: Seq<char>, sep: char, b: Seq<char>)
    requires
        !a.contains(sep),
    ensures
        split(a, sep) == seq![a],
        split(a + seq![sep] + b, sep) == seq![a] + split(b, sep),
{
    lemma_find_behind(a, sep, b);
    let s = a + seq![sep] + b;
    assert(s.take(a.len() as int) =~= a);
    assert(s.skip(a.len() as int + 1) =~= b);
}

/// A text is divided at its first separator, or not at all where it has none.
pub proof fn law_split_once_divides_at_the_first_separator(a: Seq<char>, sep: char, b: Seq<char>)
    requires
        !a.contains(sep),
    ensures
        split_once(a, sep) is None,
        split_once(a + seq![sep] + b, sep) == Some((a, b)),
{
    lemma_find_behind(a, sep, b);
    let s = a + seq![sep] + b;
    assert(s.take(a.len() as int) =~= a);
    assert(s.skip(a.len() as int + 1) =~= b);
}

/// `piece` stands in `s` between `a` and `b`, at separators or at the ends.
pub open spec fn stands_between(
    s: Seq<char>,
    sep: char,
    a: Seq<char>,
    piece: Seq<char>,
    b: Seq<char>,
) -> bool {
    &&& s == a + piece + b
    &&& a.len() == 0 || a.last() == sep
    &&& b.len() == 0 || b[0] == sep
}

/// The pieces of a text are exactly the parts without a separator that stand between separators or
/// the ends.
pub proof fn law_pieces_stand_between_separators(s: Seq<char>, sep: char, piece: Seq<char>)
    ensures
        split(s, sep).contains(piece) <==> !piece.contains(sep) && exists|
            a: Seq<char>,
            b: Seq<char>,
        | #[trigger]
            stands_between(s, sep, a, piece, b),
{
    if split(s, sep).contains(piece) {
        lemma_piece_stands(s, sep, piece);
    }
    if !piece.contains(sep) && exists|a: Seq<char>, b: Seq<char>| #[trigger]
        stands_between(s, sep, a, piece, b) {
        let (a, b) = choose|a: Seq<char>, b: Seq<char>| #[trigger]
            stands_between(s, sep, a, piece, b);
        lemma_standing_is_piece(s, sep, a, piece, b);
    }
}

proof fn lemma_piece_stands(s: Seq<char>, sep: char, piece: Seq<char>)
    requires
        split(s, sep).contains(piece),
    ensures
        !piece.contains(sep),
        exists|a: Seq<char>, b: Seq<char>| #[trigger] stands_between(s, sep, a, piece, b),
    decreases s.len(),
{
    lemma_find_bounds(s, sep);
    let n = find(s, sep);
    let none = Seq::<char>::empty();
    let k = choose|k: int| 0 <= k < split(s, sep).len() && split(s, sep)[k] == piece;
    if n >= s.len() {
        assert(s =~= none + piece + none);
        assert(stands_between(s, sep, none, piece, none));
    } else if k == 0 {
        assert(piece == s.take(n));
        assert(s =~= none + piece + s.skip(n));
        assert(stands_between(s, sep, none, piece, s.skip(n)));
    } else {
        let rest = s.skip(n + 1);
        assert(split(rest, sep)[k - 1] == piece);
        lemma_piece_stands(rest, sep, piece);
        let (a, b) = choose|a: Seq<char>, b: Seq<char>| #[trigger]
            stands_between(rest, sep, a, piece, b);
        let front = s.take(n + 1) + a;
        assert(s =~= s.take(n + 1) + rest);
        assert(s.take(n + 1) + (a + piece + b) =~= front + piece + b);
        assert(front.last() == sep) by {
            if a.len() == 0 {
                assert(front.last() == s[n]);
            } else {
                assert(front.last() == a.last());
            }
        }
        assert(stands_between(s, sep, front, piece, b));
    }
}

proof fn lemma_standing_is_piece(
    s: Seq<char>,
    sep: char,
    a: Seq<char>,
    piece: Seq<char>,
    b: Seq<char>,
)
    requires
        !piece.contains(sep),
        stands_between(s, sep, a, piece, b),
    ensures
        split(s, sep).contains(piece),
    decreases a.len(),
{
    if a.len() == 0 {
        if b.len() == 0 {
            assert(s =~= piece);
            law_split_divides_at_each_separator(piece, sep, b);
            assert(split(s, sep)[0] == piece);
        } else {
            assert(s =~= piece + seq![sep] + b.skip(1));
            law_split_divides_at_each_separator(piece, sep, b.skip(1));
            assert(split(s, sep)[0] == piece);
        }
    } else {
        lemma_find_bounds(a, sep);
        let n = find(a, sep);
        if n >= a.len() {
            assert(a[a.len() - 1] != sep);
        }
        let first = a.take(n);
        let a2 = a.skip(n + 1);
        if first.contains(sep) {
            let i = choose|i: int| 0 <= i < first.len() && first[i] == sep;
            assert(a[i] == sep);
        }
        let rest = a2 + piece + b;
        assert(s =~= first + seq![sep] + rest);
        if a2.len() > 0 {
            assert(a2.last() == a.last());
        }
        lemma_standing_is_piece(rest, sep, a2, piece, b);
        law_split_divides_at_each_separator(first, sep, rest);
        let k = choose|k: int| 0 <= k < split(rest, sep).len() && split(rest, sep)[k] == piece;
        assert(split(s, sep)[k + 1] == piece);
    }
}

/// Joining puts the separator between neighbours and nowhere else.
pub proof fn law_join_puts_the_separator_between(
    parts: Seq<Seq<char>>,
    part: Seq<char>,
    sep: Seq<char>,
)
    ensures
        join(Seq::empty(), sep) == Seq::<char>::empty(),
        join(seq![part], sep) == part,
        parts.len() > 0 ==> join(parts.push(part), sep) == join(parts, sep) + sep + part,
{
    assert(parts.push(part).drop_last() =~= parts);
}

// ---------------------------------------------------------------------------------------------
// Searching
// ---------------------------------------------------------------------------------------------
/// A pattern occurs in a text if and only if the text is something, the pattern, and something.
pub proof fn law_occurs_means_it_stands_somewhere(s: Seq<char>, pattern: Seq<char>)
    ensures
        occurs(s, pattern) <==> exists|a: Seq<char>, b: Seq<char>|
            s == #[trigger] (a + pattern + b),
{
    if occurs(s, pattern) {
        let at = choose|at: int| occurs_at(s, pattern, at);
        let a = s.take(at);
        let b = s.skip(at + pattern.len());
        assert(s =~= a + pattern + b) by {
            assert forall|i: int| 0 <= i < s.len() implies s[i] == (a + pattern + b)[i] by {
                if at <= i < at + pattern.len() {
                    assert(s.subrange(at, at + pattern.len())[i - at] == s[i]);
                }
            }
        }
    }
    if exists|a: Seq<char>, b: Seq<char>| s == #[trigger] (a + pattern + b) {
        let (a, b) = choose|a: Seq<char>, b: Seq<char>| s == #[trigger] (a + pattern + b);
        let at = a.len() as int;
        assert(s.subrange(at, at + pattern.len()) =~= pattern);
        assert(occurs_at(s, pattern, at));
    }
}

/// A prefix comes off exactly where the text starts with it, and leaves the rest.
pub proof fn law_strip_prefix_leaves_the_rest(s: Seq<char>, prefix: Seq<char>, rest: Seq<char>)
    ensures
        strip_prefix(s, prefix) == Some(rest) <==> s == prefix + rest,
        strip_prefix(s, prefix) matches Some(r) ==> s == prefix + r,
{
    let n = prefix.len() as int;
    if let Some(r) = strip_prefix(s, prefix) {
        assert(s.subrange(0, n) == prefix);
        assert(s =~= s.subrange(0, n) + r);
    }
    if s == prefix + rest {
        assert(s.subrange(0, n) =~= prefix);
        assert(s.skip(n) =~= rest);
    }
}

/// `pattern` does not stand in `s` at any position before `end`.
pub open spec fn absent_before(s: Seq<char>, pattern: Seq<char>, end: int) -> bool {
    forall|i: int|
        0 <= i < end && i + pattern.len() <= s.len() ==> #[trigger] s.subrange(
            i,
            i + pattern.len(),
        ) != pattern
}

/// Replacing leaves a text without the pattern as it is; otherwise it replaces the first
/// occurrence and goes on behind it.
pub proof fn law_replace_replaces_from_the_left(
    a: Seq<char>,
    from: Seq<char>,
    b: Seq<char>,
    to: Seq<char>,
)
    requires
        from.len() > 0,
    ensures
        absent_before(a, from, a.len() as int) ==> replace(a, from, to) == a,
        absent_before(a + from + b, from, a.len() as int) ==> replace(a + from + b, from, to) == a
            + to + replace(b, from, to),
    decreases a.len(),
{
    let s = a + from + b;
    if a.len() == 0 {
        assert(s.subrange(0, from.len() as int) =~= from);
        assert(occurs_at(s, from, 0));
        assert(s.skip(from.len() as int) =~= b);
        if s.len() > 0 {
            assert(replace(s, from, to) =~= a + to + replace(b, from, to));
        }
    } else {
        let c = a.skip(1);
        law_replace_replaces_from_the_left(c, from, b, to);
        assert(s.skip(1) =~= c + from + b);
        if absent_before(a, from, a.len() as int) {
            assert forall|i: int| 0 <= i < c.len() && i + from.len() <= c.len() implies #[trigger] c.subrange(
                i,
                i + from.len(),
            ) != from by {
                assert(c.subrange(i, i + from.len()) =~= a.subrange(i + 1, i + 1 + from.len()));
            }
            if occurs_at(a, from, 0) {
                assert(a.subrange(0, 0int + from.len()) == from);
            }
            assert(seq![a[0]] + c =~= a);
        }
        if absent_before(s, from, a.len() as int) {
            let t = c + from + b;
            assert forall|i: int| 0 <= i < c.len() && i + from.len() <= t.len() implies #[trigger] t.subrange(
                i,
                i + from.len(),
            ) != from by {
                assert(t.subrange(i, i + from.len()) =~= s.subrange(i + 1, i + 1 + from.len()));
            }
            if occurs_at(s, from, 0) {
                assert(s.subrange(0, 0int + from.len()) == from);
            }
            assert(seq![s[0]] + (c + to + replace(b, from, to)) =~= a + to + replace(b, from, to));
        }
    }
}

// ---------------------------------------------------------------------------------------------
// Lists
// ---------------------------------------------------------------------------------------------
/// A text goes to the end of the distinct texts unless it was there before.
pub proof fn law_distinct_keeps_first_occurrences(texts: Seq<Seq<char>>, text: Seq<char>)
    ensures
        distinct(Seq::empty()) == Seq::<Seq<char>>::empty(),
        distinct(texts.push(text)) == if texts.contains(text) {
            distinct(texts)
        } else {
            distinct(texts).push(text)
        },
        distinct(texts).no_duplicates(),
        distinct(texts).contains(text) == texts.contains(text),
{
    lemma_distinct(texts);
    assert(texts.push(text).drop_last() =~= texts);
}

/// What the lines of a text hold is gathered line by line.
pub proof fn law_gather_goes_line_by_line<T>(
    lines: Seq<Seq<char>>,
    line: Seq<char>,
    read: spec_fn(Seq<char>) -> Option<T>,
)
    ensures
        gather(Seq::empty(), read) == Seq::<T>::empty(),
        gather(lines.push(line), read) == match read(line) {
            Some(t) => gather(lines, read).push(t),
            None => gather(lines, read),
        },
{
    assert(lines.push(line).drop_last() =~= lines);
}

/// Two texts with a line break between them hold what the first holds, then what the second holds.
pub proof fn law_texts_are_read_line_by_line<T>(
    a: Seq<char>,
    b: Seq<char>,
    read: spec_fn(Seq<char>) -> Option<T>,
)
    ensures
        gather(split(a + seq!['\n'] + b, '\n'), read) == gather(split(a, '\n'), read) + gather(
            split(b, '\n'),
            read,
        ),
        !a.contains('\n') ==> gather(split(a, '\n'), read) == match read(a) {
            Some(t) => seq![t],
            None => Seq::empty(),
        },
{
    lemma_split_append(a, '\n', b);
    lemma_gather_append(split(a, '\n'), split(b, '\n'), read);
    if !a.contains('\n') {
        law_split_divides_at_each_separator(a, '\n', b);
        let none = Seq::<Seq<char>>::empty();
        assert(none.push(a) =~= seq![a]);
        law_gather_goes_line_by_line(none, a, read);
        if let Some(t) = read(a) {
            assert(Seq::<T>::empty().push(t) =~= seq![t]);
        }
    }
}

/// Splitting a text at a separator of its own is splitting both sides.
pub proof fn lemma_split_append(a: Seq<char>, sep: char, b: Seq<char>)
    ensures
        split(a + seq![sep] + b, sep) == split(a, sep) + split(b, sep),
    decreases a.len(),
{
    if !a.contains(sep) {
        law_split_divides_at_each_separator(a, sep, b);
    } else {
        lemma_find_bounds(a, sep);
        let n = find(a, sep);
        if n >= a.len() {
            let i = choose|i: int| 0 <= i < a.len() && a[i] == sep;
            assert(a[i] != sep);
        }
        let first = a.take(n);
        let rest = a.skip(n + 1);
        if first.contains(sep) {
            let i = choose|i: int| 0 <= i < first.len() && first[i] == sep;
            assert(a[i] == sep);
        }
        lemma_split_append(rest, sep, b);
        assert(a =~= first + seq![sep] + rest);
        law_split_divides_at_each_separator(first, sep, rest);
        assert(a + seq![sep] + b =~= first + seq![sep] + (rest + seq![sep] + b));
        law_split_divides_at_each_separator(first, sep, rest + seq![sep] + b);
        assert(seq![first] + (split(rest, sep) + split(b, sep)) =~= seq![first] + split(rest, sep)
            + split(b, sep));
    }
}

proof fn lemma_gather_append<T>(
    a: Seq<Seq<char>>,
    b: Seq<Seq<char>>,
    read: spec_fn(Seq<char>) -> Option<T>,
)
    ensures
        gather(a + b, read) == gather(a, read) + gather(b, read),
    decreases b.len(),
{
    if b.len() == 0 {
        assert(a + b =~= a);
        assert(gather(a, read) + gather(b, read) =~= gather(a, read));
    } else {
        lemma_gather_append(a, b.drop_last(), read);
        assert((a + b).drop_last() =~= a + b.drop_last());
        assert((a + b).last() == b.last());
        assert(gather(a + b, read) =~= gather(a, read) + gather(b, read));
    }
}

} // verus!
