//! Text over `Seq<char>`: the handful of string operations that the mount table, fstab, export
//! and option grammars are made of, each with its mathematical definition beside it.
use vstd::prelude::*;
use vstd::string::*;
use vstd::utf8::{decode_utf8, valid_utf8};

verus! {

// ---------------------------------------------------------------------------------------------
// Definitions
// ---------------------------------------------------------------------------------------------
/// The texts held by a sequence of strings.
pub open spec fn views<T: View>(items: Seq<T>) -> Seq<T::V> {
    items.map_values(|t: T| t@)
}

/// An optional text.
pub open spec fn maybe_text(r: Option<&str>) -> Option<Seq<char>> {
    match r {
        Some(s) => Some(s@),
        None => None,
    }
}

/// The Unicode `White_Space` property.
pub open spec fn is_space(c: char) -> bool {
    ||| '\u{9}' <= c <= '\u{d}'
    ||| c == ' '
    ||| c == '\u{85}'
    ||| c == '\u{a0}'
    ||| c == '\u{1680}'
    ||| '\u{2000}' <= c <= '\u{200a}'
    ||| c == '\u{2028}'
    ||| c == '\u{2029}'
    ||| c == '\u{202f}'
    ||| c == '\u{205f}'
    ||| c == '\u{3000}'
}

/// The position of the first `c` in `s`, or the length of `s` when there is none.
pub open spec fn find(s: Seq<char>, c: char) -> int
    decreases s.len(),
{
    if s.len() == 0 || s[0] == c {
        0
    } else {
        1 + find(s.skip(1), c)
    }
}

/// The number of leading characters of `s` that are whitespace (`space`), or that are not
/// (`!space`).
pub open spec fn run(s: Seq<char>, space: bool) -> int
    decreases s.len(),
{
    if s.len() == 0 || is_space(s[0]) != space {
        0
    } else {
        1 + run(s.skip(1), space)
    }
}

/// `s` without leading whitespace.
pub open spec fn trim_start(s: Seq<char>) -> Seq<char> {
    s.skip(run(s, true))
}

/// `s` without trailing whitespace.
pub open spec fn trim_end(s: Seq<char>) -> Seq<char>
    decreases s.len(),
{
    if s.len() == 0 || !is_space(s.last()) {
        s
    } else {
        trim_end(s.drop_last())
    }
}

/// `s` without leading and trailing whitespace.
pub open spec fn trim(s: Seq<char>) -> Seq<char> {
    trim_end(trim_start(s))
}

/// `s` without trailing occurrences of `c`.
pub open spec fn trim_end_char(s: Seq<char>, c: char) -> Seq<char>
    decreases s.len(),
{
    if s.len() == 0 || s.last() != c {
        s
    } else {
        trim_end_char(s.drop_last(), c)
    }
}

/// The maximal runs of non-whitespace in `s`, in order.
pub open spec fn words(s: Seq<char>) -> Seq<Seq<char>>
    decreases s.len(),
    via words_decreases
{
    let t = trim_start(s);
    if t.len() == 0 {
        Seq::empty()
    } else {
        seq![t.take(run(t, false))] + words(t.skip(run(t, false)))
    }
}

/// The pieces of `s` between occurrences of `sep`; one more than there are separators.
pub open spec fn split(s: Seq<char>, sep: char) -> Seq<Seq<char>>
    decreases s.len(),
{
    if find(s, sep) >= s.len() {
        seq![s]
    } else {
        proof {
            lemma_find_bounds(s, sep);
        }
        seq![s.take(find(s, sep))] + split(s.skip(find(s, sep) + 1), sep)
    }
}

/// What stands before and after the first `sep` in `s`.
pub open spec fn split_once(s: Seq<char>, sep: char) -> Option<(Seq<char>, Seq<char>)> {
    if find(s, sep) >= s.len() {
        None
    } else {
        Some((s.take(find(s, sep)), s.skip(find(s, sep) + 1)))
    }
}

/// `pattern` stands in `s` at position `at`.
pub open spec fn occurs_at(s: Seq<char>, pattern: Seq<char>, at: int) -> bool {
    0 <= at && at + pattern.len() <= s.len() && s.subrange(at, at + pattern.len()) == pattern
}

/// `pattern` stands somewhere in `s`.
pub open spec fn occurs(s: Seq<char>, pattern: Seq<char>) -> bool {
    exists|at: int| occurs_at(s, pattern, at)
}

/// What follows `prefix` in `s`, where `s` starts with it.
pub open spec fn strip_prefix(s: Seq<char>, prefix: Seq<char>) -> Option<Seq<char>> {
    if occurs_at(s, prefix, 0) {
        Some(s.skip(prefix.len() as int))
    } else {
        None
    }
}

/// The parts, with `sep` between neighbours.
pub open spec fn join(parts: Seq<Seq<char>>, sep: Seq<char>) -> Seq<char>
    decreases parts.len(),
{
    if parts.len() == 0 {
        Seq::empty()
    } else if parts.len() == 1 {
        parts[0]
    } else {
        join(parts.drop_last(), sep) + sep + parts.last()
    }
}

/// The texts in the order in which they first occur, each once.
pub open spec fn distinct(texts: Seq<Seq<char>>) -> Seq<Seq<char>>
    decreases texts.len(),
{
    if texts.len() == 0 {
        Seq::empty()
    } else {
        let before = distinct(texts.drop_last());
        if before.contains(texts.last()) {
            before
        } else {
            before.push(texts.last())
        }
    }
}

/// What the lines of a text hold, in order: `read` says what a line holds, if anything.
pub open spec fn gather<T>(lines: Seq<Seq<char>>, read: spec_fn(Seq<char>) -> Option<T>) -> Seq<T>
    decreases lines.len(),
{
    if lines.len() == 0 {
        Seq::empty()
    } else {
        let before = gather(lines.drop_last(), read);
        match read(lines.last()) {
            Some(t) => before.push(t),
            None => before,
        }
    }
}

/// `s` with every occurrence of `from` replaced by `to`, read from the left, none overlapping.
pub open spec fn replace(s: Seq<char>, from: Seq<char>, to: Seq<char>) -> Seq<char>
    recommends
        from.len() > 0,
    decreases s.len(),
{
    if s.len() == 0 || from.len() == 0 {
        s
    } else if occurs_at(s, from, 0) {
        to + replace(s.skip(from.len() as int), from, to)
    } else {
        seq![s[0]] + replace(s.skip(1), from, to)
    }
}

#[via_fn]
proof fn words_decreases(s: Seq<char>) {
    let t = trim_start(s);
    lemma_run_bounds(s, true);
    lemma_run_bounds(t, false);
    if t.len() > 0 {
        lemma_trim_start_head(s);
    }
}

// ---------------------------------------------------------------------------------------------
// Facts about the definitions
// ---------------------------------------------------------------------------------------------
pub proof fn lemma_run_bounds(s: Seq<char>, space: bool)
    ensures
        0 <= run(s, space) <= s.len(),
        forall|i: int| 0 <= i < run(s, space) ==> is_space(#[trigger] s[i]) == space,
        run(s, space) < s.len() ==> is_space(s[run(s, space)]) != space,
    decreases s.len(),
{
    if s.len() > 0 && is_space(s[0]) == space {
        let t = s.skip(1);
        lemma_run_bounds(t, space);
        assert forall|i: int| 0 <= i < run(s, space) implies is_space(#[trigger] s[i]) == space by {
            if i > 0 {
                assert(t[i - 1] == s[i]);
            }
        }
    }
}

pub proof fn lemma_run_is(s: Seq<char>, space: bool, n: int)
    requires
        0 <= n <= s.len(),
        forall|i: int| 0 <= i < n ==> is_space(#[trigger] s[i]) == space,
        n < s.len() ==> is_space(s[n]) != space,
    ensures
        run(s, space) == n,
{
    lemma_run_bounds(s, space);
    let r = run(s, space);
    if r < n {
        assert(is_space(s[r]) == space);
    }
}

/// A text that is not blank starts, once trimmed, with a character that is not whitespace.
pub proof fn lemma_trim_start_head(s: Seq<char>)
    ensures
        trim_start(s).len() <= s.len(),
        trim_start(s).len() > 0 ==> !is_space(trim_start(s)[0]) && run(trim_start(s), false) > 0,
{
    lemma_run_bounds(s, true);
    let t = trim_start(s);
    lemma_run_bounds(t, false);
    if t.len() > 0 {
        assert(t[0] == s[run(s, true)]);
    }
}

pub proof fn lemma_find_bounds(s: Seq<char>, c: char)
    ensures
        0 <= find(s, c) <= s.len(),
        forall|i: int| 0 <= i < find(s, c) ==> #[trigger] s[i] != c,
        find(s, c) < s.len() ==> s[find(s, c)] == c,
    decreases s.len(),
{
    if s.len() > 0 && s[0] != c {
        let t = s.skip(1);
        lemma_find_bounds(t, c);
        assert forall|i: int| 0 <= i < find(s, c) implies #[trigger] s[i] != c by {
            if i > 0 {
                assert(t[i - 1] == s[i]);
            }
        }
    }
}

pub proof fn lemma_find_is(s: Seq<char>, c: char, n: int)
    requires
        0 <= n <= s.len(),
        forall|i: int| 0 <= i < n ==> #[trigger] s[i] != c,
        n < s.len() ==> s[n] == c,
    ensures
        find(s, c) == n,
{
    lemma_find_bounds(s, c);
    let r = find(s, c);
    if r < n {
        assert(s[r] != c);
    }
}

pub proof fn lemma_trim_end(s: Seq<char>)
    ensures
        trim_end(s).len() <= s.len(),
        trim_end(s) == s.take(trim_end(s).len() as int),
        trim_end(s).len() > 0 ==> !is_space(trim_end(s).last()),
    decreases s.len(),
{
    if s.len() > 0 && is_space(s.last()) {
        lemma_trim_end(s.drop_last());
        assert(s.drop_last().take(trim_end(s).len() as int) =~= s.take(trim_end(s).len() as int));
    } else {
        assert(s.take(s.len() as int) =~= s);
    }
}

/// A text whose ends are not whitespace is trimmed already.
pub proof fn lemma_trim_id(s: Seq<char>)
    requires
        s.len() > 0,
        !is_space(s[0]),
        !is_space(s.last()),
    ensures
        trim(s) == s,
{
    lemma_run_is(s, true, 0);
    assert(s.skip(0) =~= s);
}

/// Trimming leaves a part of the text whose ends are not whitespace.
pub proof fn lemma_trim_ends(s: Seq<char>)
    ensures
        trim(s).len() > 0 ==> !is_space(trim(s)[0]) && !is_space(trim(s).last()),
        forall|c: char| #[trigger] trim(s).contains(c) ==> s.contains(c),
        trim(trim(s)) == trim(s),
{
    let t = trim_start(s);
    lemma_run_bounds(s, true);
    lemma_trim_start_head(s);
    lemma_trim_end(t);
    assert forall|c: char| #[trigger] trim(s).contains(c) implies s.contains(c) by {
        let i = choose|i: int| 0 <= i < trim(s).len() && trim(s)[i] == c;
        assert(trim(s)[i] == t[i]);
        assert(t[i] == s[i + run(s, true)]);
    }
    if trim(s).len() > 0 {
        assert(trim(s)[0] == t[0]);
        lemma_trim_id(trim(s));
    } else {
        assert(trim(s) =~= Seq::empty());
        assert(trim(trim(s)) =~= Seq::empty());
    }
}

/// The distinct texts are those that occur, each once.
pub proof fn lemma_distinct(texts: Seq<Seq<char>>)
    ensures
        distinct(texts).no_duplicates(),
        forall|t: Seq<char>| #[trigger] distinct(texts).contains(t) == texts.contains(t),
    decreases texts.len(),
{
    if texts.len() > 0 {
        let before = texts.drop_last();
        let last = texts.last();
        lemma_distinct(before);
        assert forall|t: Seq<char>| #[trigger] distinct(texts).contains(t) == texts.contains(t) by {
            assert(distinct(before).contains(t) == before.contains(t));
            assert(distinct(before).contains(last) == before.contains(last));
            assert(before.push(last) =~= texts);
            lemma_contains_push(before, last, t);
            lemma_contains_push(distinct(before), last, t);
        }
    }
}

pub proof fn lemma_contains_push<T>(items: Seq<T>, x: T, t: T)
    ensures
        items.push(x).contains(t) == (items.contains(t) || x == t),
{
    let all = items.push(x);
    if items.contains(t) {
        let i = choose|i: int| 0 <= i < items.len() && items[i] == t;
        assert(all[i] == t);
    }
    if x == t {
        assert(all[items.len() as int] == t);
    }
    if all.contains(t) {
        let i = choose|i: int| 0 <= i < all.len() && all[i] == t;
        if i < items.len() {
            assert(items[i] == t);
        }
    }
}

pub proof fn lemma_views_push<T: View>(items: Seq<T>, t: T)
    ensures
        views(items.push(t)) == views(items).push(t@),
{
    assert(views(items.push(t)) =~= views(items).push(t@));
}

// ---------------------------------------------------------------------------------------------
// Executable operations
// ---------------------------------------------------------------------------------------------
/// The text that `bytes` encode, if they are UTF-8.
///
/// This is `std::str::from_utf8`. Not proved here: that it accepts exactly the valid UTF-8
/// encodings, and that the text is the one encoded.
#[verifier::external_body]
pub(crate) fn utf8_text(bytes: &[u8]) -> (r: Option<&str>)
    ensures
        maybe_text(r) == if valid_utf8(bytes@) {
            Some(decode_utf8(bytes@))
        } else {
            None
        },
{
    std::str::from_utf8(bytes).ok()
}

/// `a` and `b` are the same text.
pub fn same(a: &str, b: &str) -> (r: bool)
    ensures
        r == (a@ == b@),
{
    a.to_owned() == b.to_owned()
}

pub fn is_whitespace(c: char) -> (r: bool)
    ensures
        r == is_space(c),
{
    ('\u{9}' <= c && c <= '\u{d}') || c == ' ' || c == '\u{85}' || c == '\u{a0}' || c == '\u{1680}'
        || ('\u{2000}' <= c && c <= '\u{200a}') || c == '\u{2028}' || c == '\u{2029}' || c
        == '\u{202f}' || c == '\u{205f}' || c == '\u{3000}'
}

/// The position of the first `c` in `s`, or the number of characters of `s`.
pub fn find_char(s: &str, c: char) -> (r: usize)
    ensures
        r == find(s@, c),
        r <= s@.len(),
{
    let len: usize = s.unicode_len();
    let mut n: usize = 0;
    for x in it: s.chars()
        invariant
            it.seq() == s@,
            n == it.index(),
            len == s@.len(),
            n <= len,
            forall|i: int| 0 <= i < n ==> #[trigger] s@[i] != c,
    {
        if x == c {
            proof {
                lemma_find_is(s@, c, n as int);
            }
            return n;
        }
        n = n + 1;
    }
    proof {
        lemma_find_is(s@, c, n as int);
    }
    n
}

/// The number of leading characters of `s` that are whitespace, or that are not.
pub fn run_length(s: &str, space: bool) -> (r: usize)
    ensures
        r == run(s@, space),
        r <= s@.len(),
{
    let len: usize = s.unicode_len();
    let mut n: usize = 0;
    for x in it: s.chars()
        invariant
            it.seq() == s@,
            n == it.index(),
            len == s@.len(),
            n <= len,
            forall|i: int| 0 <= i < n ==> is_space(#[trigger] s@[i]) == space,
    {
        if is_whitespace(x) != space {
            proof {
                lemma_run_is(s@, space, n as int);
            }
            return n;
        }
        n = n + 1;
    }
    proof {
        lemma_run_is(s@, space, n as int);
    }
    n
}

/// The first `n` characters of `s`.
pub fn take_chars(s: &str, n: usize) -> (r: &str)
    requires
        n <= s@.len(),
    ensures
        r@ == s@.take(n as int),
{
    s.substring_char(0, n)
}

/// `s` without its first `n` characters.
pub fn skip_chars(s: &str, n: usize) -> (r: &str)
    requires
        n <= s@.len(),
    ensures
        r@ == s@.skip(n as int),
{
    s.substring_char(n, s.unicode_len())
}

/// `s` without leading and trailing whitespace.
pub fn trimmed(s: &str) -> (r: &str)
    ensures
        r@ == trim(s@),
{
    let t = skip_chars(s, run_length(s, true));
    let len: usize = t.unicode_len();
    let mut n: usize = 0;
    let mut end: usize = 0;
    for x in it: t.chars()
        invariant
            it.seq() == t@,
            n == it.index(),
            len == t@.len(),
            end <= n <= len,
            trim_end(t@.take(n as int)) == t@.take(end as int),
    {
        n = n + 1;
        proof {
            assert(t@.take(n as int).drop_last() =~= t@.take(n - 1));
        }
        if !is_whitespace(x) {
            end = n;
        }
    }
    proof {
        assert(t@.take(n as int) =~= t@);
    }
    take_chars(t, end)
}

/// `s` without trailing occurrences of `c`.
pub fn trimmed_end_of(s: &str, c: char) -> (r: &str)
    ensures
        r@ == trim_end_char(s@, c),
{
    let len: usize = s.unicode_len();
    let mut n: usize = 0;
    let mut end: usize = 0;
    for x in it: s.chars()
        invariant
            it.seq() == s@,
            n == it.index(),
            len == s@.len(),
            end <= n <= len,
            trim_end_char(s@.take(n as int), c) == s@.take(end as int),
    {
        n = n + 1;
        proof {
            assert(s@.take(n as int).drop_last() =~= s@.take(n - 1));
        }
        if x != c {
            end = n;
        }
    }
    proof {
        assert(s@.take(n as int) =~= s@);
    }
    take_chars(s, end)
}

/// The words of `s`: its maximal runs of non-whitespace, in order.
pub fn split_words<'a>(s: &'a str) -> (r: Vec<&'a str>)
    ensures
        views(r@) == words(s@),
{
    let mut out: Vec<&'a str> = Vec::new();
    let mut rest: &'a str = s;
    loop
        invariant
            views(out@) + words(rest@) =~= words(s@),
        ensures
            views(out@) =~= words(s@),
        decreases rest@.len(),
    {
        let t: &'a str = skip_chars(rest, run_length(rest, true));
        if t.is_empty() {
            break;
        }
        let n: usize = run_length(t, false);
        let word: &'a str = take_chars(t, n);
        proof {
            lemma_views_push(out@, word);
            lemma_trim_start_head(rest@);
        }
        out.push(word);
        rest = skip_chars(t, n);
    }
    out
}

/// The pieces of `s` between occurrences of `sep`.
pub fn split_at_each<'a>(s: &'a str, sep: char) -> (r: Vec<&'a str>)
    ensures
        views(r@) == split(s@, sep),
{
    let mut out: Vec<&'a str> = Vec::new();
    let mut rest: &'a str = s;
    loop
        invariant_except_break
            views(out@) + split(rest@, sep) =~= split(s@, sep),
        ensures
            views(out@) =~= split(s@, sep),
        decreases rest@.len(),
    {
        let n: usize = find_char(rest, sep);
        if n == rest.unicode_len() {
            proof {
                lemma_views_push(out@, rest);
            }
            out.push(rest);
            break;
        }
        let piece: &'a str = take_chars(rest, n);
        proof {
            lemma_views_push(out@, piece);
        }
        out.push(piece);
        rest = skip_chars(rest, n + 1);
    }
    out
}

/// What stands before and after the first `sep` in `s`.
pub fn split_at_first<'a>(s: &'a str, sep: char) -> (r: Option<(&'a str, &'a str)>)
    ensures
        split_once(s@, sep) == match r {
            Some((before, after)) => Some((before@, after@)),
            None => None,
        },
{
    let n: usize = find_char(s, sep);
    if n == s.unicode_len() {
        None
    } else {
        Some((take_chars(s, n), skip_chars(s, n + 1)))
    }
}

/// What follows `prefix` in `s`, where `s` starts with it.
pub fn after_prefix<'a>(s: &'a str, prefix: &str) -> (r: Option<&'a str>)
    ensures
        strip_prefix(s@, prefix@) == match r {
            Some(rest) => Some(rest@),
            None => None,
        },
{
    let n: usize = prefix.unicode_len();
    if n <= s.unicode_len() && same(take_chars(s, n), prefix) {
        proof {
            assert(s@.subrange(0, n as int) =~= s@.take(n as int));
        }
        Some(skip_chars(s, n))
    } else {
        proof {
            assert(n <= s@.len() ==> s@.subrange(0, n as int) =~= s@.take(n as int));
        }
        None
    }
}

/// `s` starts with the character `c`.
pub fn starts_with_char(s: &str, c: char) -> (r: bool)
    ensures
        r == (s@.len() > 0 && s@[0] == c),
{
    !s.is_empty() && s.get_char(0) == c
}

/// Does `s` end with `c`?
pub fn ends_with_char(s: &str, c: char) -> (r: bool)
    ensures
        r == (s@.len() > 0 && s@.last() == c),
{
    let n: usize = s.unicode_len();
    n > 0 && s.get_char(n - 1) == c
}

/// `pattern` stands somewhere in `s`.
pub fn contains_text(s: &str, pattern: &str) -> (r: bool)
    ensures
        r == occurs(s@, pattern@),
{
    let m: usize = pattern.unicode_len();
    let len: usize = s.unicode_len();
    if m > len {
        return false;
    }
    let last: usize = len - m;
    let mut at: usize = 0;
    loop
        invariant
            m == pattern@.len(),
            len == s@.len(),
            m <= len,
            last == len - m,
            at <= last,
            forall|i: int| 0 <= i < at ==> !occurs_at(s@, pattern@, i),
        decreases last - at,
    {
        if same(s.substring_char(at, at + m), pattern) {
            proof {
                assert(occurs_at(s@, pattern@, at as int));
            }
            return true;
        }
        if at == last {
            return false;
        }
        at = at + 1;
    }
}

/// The strings, with `sep` between neighbours.
pub fn joined(parts: &Vec<String>, sep: &str) -> (r: String)
    ensures
        r@ == join(views(parts@), sep@),
{
    let mut out: String = String::new();
    let mut i: usize = 0;
    while i < parts.len()
        invariant
            i <= parts@.len(),
            out@ == join(views(parts@).take(i as int), sep@),
        decreases parts@.len() - i,
    {
        if i > 0 {
            out.append(sep);
        }
        out.append(parts[i].as_str());
        i = i + 1;
        proof {
            assert(views(parts@).take(i as int).drop_last() =~= views(parts@).take(i - 1));
            assert(out@ =~= join(views(parts@).take(i as int), sep@));
        }
    }
    proof {
        assert(views(parts@).take(i as int) =~= views(parts@));
    }
    out
}

/// `text` is among the strings.
pub fn contains_string(items: &Vec<String>, text: &str) -> (r: bool)
    ensures
        r == views(items@).contains(text@),
{
    let mut i: usize = 0;
    while i < items.len()
        invariant
            i <= items@.len(),
            forall|j: int| 0 <= j < i ==> #[trigger] views(items@)[j] != text@,
        decreases items@.len() - i,
    {
        proof {
            assert(views(items@)[i as int] == items@[i as int]@);
        }
        if same(items[i].as_str(), text) {
            return true;
        }
        i = i + 1;
    }
    false
}

/// `s` with every occurrence of `from` replaced by `to`.
pub fn replaced(s: &str, from: &str, to: &str) -> (r: String)
    requires
        from@.len() > 0,
    ensures
        r@ == replace(s@, from@, to@),
{
    let mut out: String = String::new();
    let mut rest: &str = s;
    while !rest.is_empty()
        invariant
            from@.len() > 0,
            out@ + replace(rest@, from@, to@) =~= replace(s@, from@, to@),
        decreases rest@.len(),
    {
        match after_prefix(rest, from) {
            Some(tail) => {
                out.append(to);
                rest = tail;
            },
            None => {
                proof {
                    assert(rest@.take(1) =~= seq![rest@[0]]);
                }
                out.append(take_chars(rest, 1));
                rest = skip_chars(rest, 1);
            },
        }
    }
    out
}

} // verus!
